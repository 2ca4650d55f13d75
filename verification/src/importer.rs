//! Per-dependency import decisions: which exported versions are new, and
//! how their SQL bodies are merged into one migration pair.
//!
//! A dependency's exported versions are scanned in descending lexical
//! order. The scan halts at the first version that already exists locally
//! or is a baseline; everything collected before that point is merged into
//! a single migration named after the newest collected version.

use vstd::prelude::*;
use vstd::relations::sorted_by;
use crate::version_order::{
    contains_version, is_baseline, is_baseline_version, lemma_lex_le_reflexive, lex_le, lex_leq,
};

verus! {

/// The scan of a dependency's exported versions halts at `v` when `v` is
/// already present in the local version set or is a baseline.
pub open spec fn halts_scan(v: Seq<char>, existing: Seq<Seq<char>>) -> bool {
    existing.contains(v) || is_baseline(v)
}

/// What a descending scan collects: the longest prefix of `desc` whose
/// entries neither exist locally nor are baselines.
pub open spec fn new_versions(desc: Seq<Seq<char>>, existing: Seq<Seq<char>>) -> Seq<Seq<char>>
    decreases desc.len(),
{
    if desc.len() == 0 {
        Seq::empty()
    } else if halts_scan(desc[0], existing) {
        Seq::empty()
    } else {
        seq![desc[0]] + new_versions(desc.drop_first(), existing)
    }
}

/// A scan that halts nowhere before `i` and halts at `i` collects exactly
/// the first `i` entries.
proof fn lemma_new_versions_take(desc: Seq<Seq<char>>, existing: Seq<Seq<char>>, i: int)
    requires
        0 <= i <= desc.len(),
        forall|j: int| 0 <= j < i ==> !halts_scan(desc[j], existing),
        i < desc.len() ==> halts_scan(desc[i], existing),
    ensures
        new_versions(desc, existing) == desc.take(i),
    decreases i,
{
    if i == 0 {
        assert(desc.take(0) =~= Seq::<Seq<char>>::empty());
    } else {
        assert(!halts_scan(desc[0], existing));
        let tail = desc.drop_first();
        assert(forall|j: int| 0 <= j < i - 1 ==> tail[j] == desc[j + 1]);
        lemma_new_versions_take(tail, existing, i - 1);
        assert(seq![desc[0]] + tail.take(i - 1) =~= desc.take(i));
    }
}

/// Baseline stop law: a descending scan collects nothing at or beyond the
/// first version that already exists locally or is a baseline, even if
/// versions past that point are absent locally.
pub proof fn lemma_scan_stops(desc: Seq<Seq<char>>, existing: Seq<Seq<char>>, i: int)
    requires
        0 <= i < desc.len(),
        halts_scan(desc[i], existing),
    ensures
        new_versions(desc, existing).len() <= i,
    decreases i,
{
    if !halts_scan(desc[0], existing) {
        lemma_scan_stops(desc.drop_first(), existing, i - 1);
    }
}

/// The collected versions are a prefix of the scanned list, and none of
/// them exists locally or is a baseline.
pub proof fn lemma_new_versions_prefix(desc: Seq<Seq<char>>, existing: Seq<Seq<char>>)
    ensures
        new_versions(desc, existing).len() <= desc.len(),
        forall|j: int| 0 <= j < new_versions(desc, existing).len()
            ==> #[trigger] new_versions(desc, existing)[j] == desc[j] && !halts_scan(
            desc[j],
            existing,
        ),
    decreases desc.len(),
{
    if desc.len() == 0 || halts_scan(desc[0], existing) {
    } else {
        let tail = desc.drop_first();
        lemma_new_versions_prefix(tail, existing);
        assert(forall|j: int| 0 <= j < tail.len() ==> tail[j] == desc[j + 1]);
    }
}

/// When the scanned list is sorted ascending, the first collected version
/// is the latest: every collected version is lexically at most the first
/// one, whose name the merged migration takes.
pub proof fn lemma_first_selected_is_latest(asc: Seq<Seq<char>>, existing: Seq<Seq<char>>)
    requires
        sorted_by(asc, lex_leq()),
        new_versions(asc.reverse(), existing).len() > 0,
    ensures
        forall|j: int| 0 <= j < new_versions(asc.reverse(), existing).len() ==> lex_le(
            #[trigger] new_versions(asc.reverse(), existing)[j],
            new_versions(asc.reverse(), existing)[0],
        ),
{
    let desc = asc.reverse();
    let nv = new_versions(desc, existing);
    lemma_new_versions_prefix(desc, existing);
    assert forall|j: int| 0 <= j < nv.len() implies lex_le(nv[j], nv[0]) by {
        assert(nv[j] == desc[j]);
        assert(nv[0] == desc[0]);
        if j == 0 {
            lemma_lex_le_reflexive(nv[0]);
        } else {
            let n = asc.len();
            assert(desc[j] == asc[n - 1 - j]);
            assert(desc[0] == asc[n - 1]);
            assert(lex_leq()(asc[n - 1 - j], asc[n - 1]));
        }
    }
}

/// Idempotence of a re-run: once the newest collected version stands in the
/// local version set — as it does after the merged migration is written — a
/// second scan of the same dependency collects nothing.
pub proof fn lemma_second_scan_empty(
    desc: Seq<Seq<char>>,
    existing: Seq<Seq<char>>,
    rerun_existing: Seq<Seq<char>>,
)
    requires
        new_versions(desc, existing).len() > 0,
        rerun_existing.contains(new_versions(desc, existing)[0]),
    ensures
        new_versions(desc, rerun_existing) == Seq::<Seq<char>>::empty(),
{
    assert(new_versions(desc, existing)[0] == desc[0]);
    assert(halts_scan(desc[0], rerun_existing));
}

/// Scans the ascending version list `sorted` from newest to oldest and
/// collects the new versions, in descending order, until the scan halts.
#[verifier::loop_isolation(false)]
pub fn select_new_versions(sorted: &Vec<String>, existing: &Vec<String>) -> (r: Vec<String>)
    ensures
        r.deep_view() == new_versions(sorted.deep_view().reverse(), existing.deep_view()),
{
    let ghost desc = sorted.deep_view().reverse();
    let n = sorted.len();
    let mut r: Vec<String> = Vec::new();
    let mut i: usize = 0;
    while i < n
        invariant
            i <= n,
            r.deep_view() == desc.take(i as int),
            forall|j: int| 0 <= j < i ==> !halts_scan(desc[j], existing.deep_view()),
        decreases n - i,
    {
        let idx = n - 1 - i;
        let cur = &sorted[idx];
        proof {
            assert(desc[i as int] == sorted.deep_view()[idx as int]);
        }
        if contains_version(existing, cur.as_str()) || is_baseline_version(cur.as_str()) {
            proof {
                lemma_new_versions_take(desc, existing.deep_view(), i as int);
            }
            return r;
        }
        r.push(cur.clone());
        proof {
            assert(r.deep_view() =~= desc.take(i + 1));
        }
        i += 1;
    }
    proof {
        lemma_new_versions_take(desc, existing.deep_view(), n as int);
        assert(desc.take(n as int) =~= desc);
    }
    r
}

/// The separator written between two concatenated SQL bodies: one blank
/// line.
pub open spec fn body_separator() -> Seq<char> {
    seq!['\n', '\n']
}

/// SQL bodies joined with a blank-line separator, in the order given.
pub open spec fn joined(bodies: Seq<Seq<char>>) -> Seq<char>
    decreases bodies.len(),
{
    if bodies.len() == 0 {
        Seq::empty()
    } else if bodies.len() == 1 {
        bodies[0]
    } else {
        bodies[0] + body_separator() + joined(bodies.drop_first())
    }
}

proof fn lemma_joined_push(bodies: Seq<Seq<char>>, x: Seq<char>)
    requires
        bodies.len() >= 1,
    ensures
        joined(bodies.push(x)) == joined(bodies) + body_separator() + x,
    decreases bodies.len(),
{
    if bodies.len() == 1 {
        assert(bodies.push(x).drop_first() =~= seq![x]);
        assert(joined(seq![x]) == x);
        assert(joined(bodies.push(x)) == joined(bodies) + body_separator() + x);
    } else {
        lemma_joined_push(bodies.drop_first(), x);
        assert(bodies.push(x).drop_first() =~= bodies.drop_first().push(x));
        assert(joined(bodies.push(x)) =~= joined(bodies) + body_separator() + x);
    }
}

/// Joins SQL bodies with a blank-line separator, in the order given.
#[verifier::loop_isolation(false)]
pub fn join_bodies(bodies: &Vec<String>) -> (r: String)
    ensures
        r@ == joined(bodies.deep_view()),
{
    let n = bodies.len();
    if n == 0 {
        return String::new();
    }
    let mut s = bodies[0].clone();
    proof {
        assert(bodies.deep_view().take(1) =~= seq![bodies.deep_view()[0]]);
    }
    let mut i: usize = 1;
    while i < n
        invariant
            1 <= i <= n,
            s@ == joined(bodies.deep_view().take(i as int)),
        decreases n - i,
    {
        s.append("\n\n");
        s.append(bodies[i].as_str());
        proof {
            reveal_strlit("\n\n");
            assert("\n\n"@ =~= body_separator());
            lemma_joined_push(bodies.deep_view().take(i as int), bodies.deep_view()[i as int]);
            assert(bodies.deep_view().take(i as int).push(bodies.deep_view()[i as int])
                =~= bodies.deep_view().take(i + 1));
        }
        i += 1;
    }
    proof {
        assert(bodies.deep_view().take(n as int) =~= bodies.deep_view());
    }
    s
}

/// Reverses a list of SQL bodies.
#[verifier::loop_isolation(false)]
fn reverse_bodies(bodies: &Vec<String>) -> (r: Vec<String>)
    ensures
        r.deep_view() == bodies.deep_view().reverse(),
{
    let n = bodies.len();
    let mut r: Vec<String> = Vec::new();
    let mut i: usize = 0;
    while i < n
        invariant
            i <= n,
            r.deep_view().len() == i,
            forall|j: int| 0 <= j < i ==> r.deep_view()[j] == bodies.deep_view()[n - 1 - j],
        decreases n - i,
    {
        let ghost prev = r.deep_view();
        r.push(bodies[n - 1 - i].clone());
        proof {
            assert forall|j: int| 0 <= j < i + 1 implies r.deep_view()[j] == bodies.deep_view()[n
                - 1 - j] by {
                if j < i {
                    assert(r.deep_view()[j] == prev[j]);
                }
            }
        }
        i += 1;
    }
    proof {
        assert(r.deep_view() =~= bodies.deep_view().reverse());
    }
    r
}

/// One merged migration: the version directory to create in the local
/// migrations directory, and the concatenated `up.sql` and `down.sql`
/// bodies to write inside it.
pub struct MergedMigration {
    pub version: String,
    pub up_sql: String,
    pub down_sql: String,
}

/// Merges the bodies collected by a descending scan into one migration.
///
/// `new_desc` holds the newly found versions in descending order; `ups` and
/// `downs` hold the matching SQL bodies in that same order. The merged
/// migration takes the name of the newest version. The `up` bodies are
/// joined oldest first (ascending, natural application order), while the
/// `down` bodies are joined newest first (the collected, descending order,
/// which is conventional rollback order).
pub fn merge_migrations(new_desc: &Vec<String>, ups: &Vec<String>, downs: &Vec<String>) -> (r:
    MergedMigration)
    requires
        new_desc@.len() > 0,
        ups@.len() == new_desc@.len(),
        downs@.len() == new_desc@.len(),
    ensures
        r.version@ == new_desc.deep_view()[0],
        r.up_sql@ == joined(ups.deep_view().reverse()),
        r.down_sql@ == joined(downs.deep_view()),
{
    let version = new_desc[0].clone();
    let ups_asc = reverse_bodies(ups);
    let up_sql = join_bodies(&ups_asc);
    let down_sql = join_bodies(downs);
    MergedMigration { version, up_sql, down_sql }
}

/// Names what `str::trim` returns: the trimmed text depends on the
/// characters of the input alone.
pub uninterp spec fn trimmed(s: Seq<char>) -> Seq<char>;

/// Relies on `str::trim` of std to strip leading and trailing whitespace
/// from the marker file's text.
#[verifier::external_body]
fn trim_text(s: &str) -> (r: String)
    ensures
        r@ == trimmed(s@),
{
    s.trim().to_string()
}

/// Decides, from the result of reading a dependency's `EXPORT_MIGRATIONS`
/// marker file, whether that dependency exports migrations. `None` (no
/// marker file) means nothing to import and the dependency is passed over
/// silently; otherwise the trimmed marker text names the export directory,
/// relative to the dependency's working directory.
pub fn marker_decision(marker: Option<String>) -> (r: Option<String>)
    ensures
        marker is None ==> r is None,
        marker matches Some(content) ==> (r matches Some(d) && d@ == trimmed(content@)),
{
    match marker {
        None => None,
        Some(content) => Some(trim_text(content.as_str())),
    }
}

} // verus!
