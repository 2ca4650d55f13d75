//! Lexical ordering of migration version names.
//!
//! Versions are compared as plain character sequences (zero-padded numeric
//! names sort correctly under this order; no numeric comparison is ever
//! performed). The largest string in a directory is the "latest" version.

use vstd::prelude::*;
use vstd::relations::{sorted_by, total_ordering};
use vstd::seq_lib::lemma_sorted_unique;

verus! {

/// Lexicographic "less than or equal" on character sequences, comparing
/// characters by their Unicode scalar values. This is the order in which
/// version directory names are sorted.
pub open spec fn lex_le(a: Seq<char>, b: Seq<char>) -> bool
    decreases a.len(),
{
    if a.len() == 0 {
        true
    } else if b.len() == 0 {
        false
    } else if a[0] == b[0] {
        lex_le(a.drop_first(), b.drop_first())
    } else {
        (a[0] as u32) < (b[0] as u32)
    }
}

/// `lex_le` packaged as a relation value, for use with vstd's ordering
/// and sorting vocabulary.
pub open spec fn lex_leq() -> spec_fn(Seq<char>, Seq<char>) -> bool {
    |a: Seq<char>, b: Seq<char>| lex_le(a, b)
}

pub proof fn lemma_lex_le_reflexive(a: Seq<char>)
    ensures
        lex_le(a, a),
    decreases a.len(),
{
    if a.len() > 0 {
        lemma_lex_le_reflexive(a.drop_first());
    }
}

pub proof fn lemma_lex_le_antisymmetric(a: Seq<char>, b: Seq<char>)
    requires
        lex_le(a, b),
        lex_le(b, a),
    ensures
        a == b,
    decreases a.len(),
{
    if a.len() == 0 {
        assert(b.len() == 0);
        assert(a =~= b);
    } else {
        assert(a[0] == b[0]);
        lemma_lex_le_antisymmetric(a.drop_first(), b.drop_first());
        assert(a.len() == b.len());
        assert forall|j: int| 0 <= j < a.len() implies a[j] == b[j] by {
            if j > 0 {
                assert(a[j] == a.drop_first()[j - 1]);
                assert(b[j] == b.drop_first()[j - 1]);
            }
        }
        assert(a =~= b);
    }
}

pub proof fn lemma_lex_le_transitive(a: Seq<char>, b: Seq<char>, c: Seq<char>)
    requires
        lex_le(a, b),
        lex_le(b, c),
    ensures
        lex_le(a, c),
    decreases a.len(),
{
    if a.len() == 0 {
    } else if b.len() == 0 {
    } else if c.len() == 0 {
    } else if a[0] == b[0] && b[0] == c[0] {
        lemma_lex_le_transitive(a.drop_first(), b.drop_first(), c.drop_first());
    }
}

pub proof fn lemma_lex_le_strongly_connected(a: Seq<char>, b: Seq<char>)
    ensures
        lex_le(a, b) || lex_le(b, a),
    decreases a.len(),
{
    if a.len() == 0 || b.len() == 0 {
    } else if a[0] == b[0] {
        lemma_lex_le_strongly_connected(a.drop_first(), b.drop_first());
    } else {
        vstd::utf8::char_u32_cast(a[0], a[0] as u32);
        vstd::utf8::char_u32_cast(b[0], b[0] as u32);
        assert((a[0] as u32) != (b[0] as u32));
    }
}

/// The lexical order on version names is a total order, so a sorted list of
/// versions is uniquely determined and its last element is the latest version.
pub proof fn lemma_lex_leq_total_ordering()
    ensures
        total_ordering(lex_leq()),
{
    let leq = lex_leq();
    assert forall|a: Seq<char>| #[trigger] leq(a, a) by {
        lemma_lex_le_reflexive(a);
    }
    assert forall|a: Seq<char>, b: Seq<char>| #[trigger] leq(a, b) && #[trigger] leq(b, a)
        implies a == b by {
        lemma_lex_le_antisymmetric(a, b);
    }
    assert forall|a: Seq<char>, b: Seq<char>, c: Seq<char>|
        #[trigger] leq(a, b) && #[trigger] leq(b, c) implies leq(a, c) by {
        lemma_lex_le_transitive(a, b, c);
    }
    assert forall|a: Seq<char>, b: Seq<char>| #[trigger] leq(a, b) || #[trigger] leq(b, a) by {
        lemma_lex_le_strongly_connected(a, b);
    }
}

/// If two sequences agree on their first `i` characters, comparing them is
/// the same as comparing what remains after those characters.
proof fn lemma_lex_le_common_prefix(a: Seq<char>, b: Seq<char>, i: int)
    requires
        0 <= i <= a.len(),
        i <= b.len(),
        forall|j: int| 0 <= j < i ==> a[j] == b[j],
    ensures
        lex_le(a, b) == lex_le(a.skip(i), b.skip(i)),
    decreases i,
{
    if i == 0 {
        assert(a.skip(0) =~= a);
        assert(b.skip(0) =~= b);
    } else {
        assert(a[0] == b[0]);
        assert(forall|j: int| 0 <= j < i - 1 ==> a.drop_first()[j] == b.drop_first()[j]);
        lemma_lex_le_common_prefix(a.drop_first(), b.drop_first(), i - 1);
        assert(a.drop_first().skip(i - 1) =~= a.skip(i));
        assert(b.drop_first().skip(i - 1) =~= b.skip(i));
    }
}

/// Tests two version names for equality, via the lexical order.
pub fn str_eq(a: &str, b: &str) -> (r: bool)
    ensures
        r == (a@ == b@),
{
    let r = str_le(a, b) && str_le(b, a);
    proof {
        if r {
            lemma_lex_le_antisymmetric(a@, b@);
        } else {
            lemma_lex_le_reflexive(a@);
        }
    }
    r
}

/// Compares two version names in the lexical order.
pub fn str_le(a: &str, b: &str) -> (r: bool)
    ensures
        r == lex_le(a@, b@),
{
    let a_len = a.unicode_len();
    let b_len = b.unicode_len();
    let mut i: usize = 0;
    loop
        invariant
            i <= a_len,
            i <= b_len,
            a_len == a@.len(),
            b_len == b@.len(),
            forall|j: int| 0 <= j < i ==> a@[j] == b@[j],
        decreases a_len - i,
    {
        if i == a_len || i == b_len {
            proof {
                lemma_lex_le_common_prefix(a@, b@, i as int);
            }
            return a_len <= b_len;
        }
        let ca = a.get_char(i);
        let cb = b.get_char(i);
        if ca != cb {
            proof {
                lemma_lex_le_common_prefix(a@, b@, i as int);
                assert(a@.skip(i as int)[0] == a@[i as int]);
                assert(b@.skip(i as int)[0] == b@[i as int]);
            }
            return (ca as u32) < (cb as u32);
        }
        i += 1;
    }
}

/// True when the version name `v` already stands in `list`. Membership does
/// not depend on the order of `list`.
pub fn contains_version(list: &Vec<String>, v: &str) -> (r: bool)
    ensures
        r == list.deep_view().contains(v@),
{
    let mut i: usize = 0;
    while i < list.len()
        invariant
            i <= list@.len(),
            forall|j: int| 0 <= j < i ==> list.deep_view()[j] != v@,
        decreases list@.len() - i,
    {
        if str_eq(list[i].as_str(), v) {
            assert(list.deep_view()[i as int] == v@);
            return true;
        }
        i += 1;
    }
    false
}

/// A baseline version: its name starts with `"0"`. Baselines mark a
/// pre-existing floor that is never imported.
pub open spec fn is_baseline(v: Seq<char>) -> bool {
    v.len() > 0 && v[0] == '0'
}

/// Tests whether a version name is a baseline (starts with `"0"`).
pub fn is_baseline_version(v: &str) -> (r: bool)
    ensures
        r == is_baseline(v@),
{
    if v.unicode_len() == 0 {
        false
    } else {
        v.get_char(0) == '0'
    }
}

/// Swapping two positions of a sequence leaves its multiset of elements
/// unchanged.
proof fn lemma_swap_preserves_multiset(s: Seq<Seq<char>>, i: int, j: int)
    requires
        0 <= i < s.len(),
        0 <= j < s.len(),
    ensures
        s.update(i, s[j]).update(j, s[i]).to_multiset() == s.to_multiset(),
{
    broadcast use vstd::seq_lib::group_to_multiset_ensures;
    broadcast use vstd::multiset::group_multiset_axioms;

    let s1 = s.update(i, s[j]);
    let s2 = s1.update(j, s[i]);
    if i == j {
        assert(s2 =~= s);
        assert(s2.to_multiset() == s.to_multiset());
    } else {
        assert(s.contains(s[i]));
        assert(s.contains(s[j]));
        assert(s1[j] == s[j]);
        assert(s1.to_multiset() == s.to_multiset().insert(s[j]).remove(s[i]));
        assert(s2.to_multiset() == s1.to_multiset().insert(s[i]).remove(s[j]));
        assert(s2.to_multiset() =~= s.to_multiset());
    }
}

/// Sorts version names into ascending lexical order. The result is the
/// unique lexically sorted rearrangement of the input, so its last element
/// is the latest version.
#[verifier::loop_isolation(false)]
pub fn sort_versions(versions: Vec<String>) -> (r: Vec<String>)
    ensures
        r.deep_view() == versions.deep_view().sort_by(lex_leq()),
{
    let ghost orig: Seq<Seq<char>> = versions.deep_view();
    let mut v = versions;
    let n = v.len();
    let mut i: usize = 0;
    while i < n
        invariant
            i <= n,
            n == v@.len(),
            v.deep_view().to_multiset() == orig.to_multiset(),
            sorted_by(v.deep_view().take(i as int), lex_leq()),
            forall|k: int, l: int|
                0 <= k < i && i <= l < n ==> #[trigger] lex_le(
                    v.deep_view()[k],
                    v.deep_view()[l],
                ),
        decreases n - i,
    {
        let ghost dv0 = v.deep_view();
        let mut m: usize = i;
        let mut j: usize = i + 1;
        proof {
            lemma_lex_le_reflexive(dv0[i as int]);
        }
        while j < n
            invariant
                i <= m < n,
                i < j <= n,
                v.deep_view() == dv0,
                forall|k: int| i <= k < j ==> #[trigger] lex_le(dv0[m as int], dv0[k]),
            decreases n - j,
        {
            if str_le(v[j].as_str(), v[m].as_str()) {
                proof {
                    assert forall|k: int| i <= k < j implies #[trigger] lex_le(
                        dv0[j as int],
                        dv0[k],
                    ) by {
                        lemma_lex_le_transitive(dv0[j as int], dv0[m as int], dv0[k]);
                    }
                    lemma_lex_le_reflexive(dv0[j as int]);
                }
                m = j;
            } else {
                proof {
                    lemma_lex_le_strongly_connected(dv0[m as int], dv0[j as int]);
                }
            }
            j += 1;
        }
        let vm = v[m].clone();
        let vi = v[i].clone();
        v.set(i, vm);
        v.set(m, vi);
        proof {
            let dv1 = v.deep_view();
            assert(dv1 =~= dv0.update(i as int, dv0[m as int]).update(m as int, dv0[i as int]));
            lemma_swap_preserves_multiset(dv0, i as int, m as int);
            assert forall|k: int, l: int| 0 <= k < l < i + 1 implies lex_le(dv1[k], dv1[l]) by {
                if l < i {
                    assert(lex_leq()(dv0.take(i as int)[k], dv0.take(i as int)[l]));
                    assert(dv0.take(i as int)[k] == dv0[k]);
                    assert(dv0.take(i as int)[l] == dv0[l]);
                } else {
                    assert(lex_le(dv0[k], dv0[m as int]));
                }
            }
            assert forall|k: int, l: int|
                0 <= k < l < i + 1 implies #[trigger] lex_leq()(
                    dv1.take(i + 1)[k],
                    dv1.take(i + 1)[l],
                ) by {
                assert(lex_le(dv1[k], dv1[l]));
            }
            assert forall|k: int, l: int|
                0 <= k < i + 1 && i + 1 <= l < n implies #[trigger] lex_le(dv1[k], dv1[l]) by {
                if k < i {
                    if l == m {
                        assert(lex_le(dv0[k], dv0[i as int]));
                    } else {
                        assert(lex_le(dv0[k], dv0[l]));
                    }
                } else {
                    if l == m {
                        assert(lex_le(dv0[m as int], dv0[i as int]));
                    } else {
                        assert(lex_le(dv0[m as int], dv0[l]));
                    }
                }
            }
        }
        i += 1;
    }
    proof {
        lemma_lex_leq_total_ordering();
        orig.lemma_sort_by_ensures(lex_leq());
        assert(v.deep_view().take(n as int) =~= v.deep_view());
        assert forall|k: int, l: int|
            0 <= k < l < v.deep_view().len() implies #[trigger] lex_leq()(
            v.deep_view()[k],
            v.deep_view()[l],
        ) by {
            assert(lex_leq()(v.deep_view().take(n as int)[k], v.deep_view().take(n as int)[l]));
        }
        lemma_sorted_unique(v.deep_view(), orig.sort_by(lex_leq()), lex_leq());
    }
    v
}

} // verus!
