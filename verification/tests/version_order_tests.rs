use migration_import::build_plan::Invocation;
use migration_import::version_order::{
    contains_version, is_baseline_version, sort_versions, str_eq, str_le,
};

fn strings(xs: &[&str]) -> Vec<String> {
    xs.iter().map(|s| s.to_string()).collect()
}

fn invocation(kinds: &[&str]) -> Invocation {
    Invocation {
        package_name: "dep".to_string(),
        package_version: "1.0.0".to_string(),
        target_kind: strings(kinds),
        cwd: "/tmp/dep".to_string(),
    }
}

#[test]
fn str_le_compares_lexically() {
    assert!(str_le("002", "010"));
    assert!(!str_le("010", "002"));
    assert!(str_le("", "x"));
    assert!(!str_le("x", ""));
    assert!(str_le("abc", "abc"));
    assert!(str_le("ab", "abc"));
    assert!(!str_le("abc", "ab"));
    // Plain string comparison, not numeric: "10" sorts before "2".
    assert!(str_le("10", "2"));
}

#[test]
fn str_eq_compares_contents() {
    assert!(str_eq("003", "003"));
    assert!(!str_eq("003", "0030"));
    assert!(!str_eq("003", "004"));
    assert!(str_eq("", ""));
}

#[test]
fn sort_orders_lexically_ascending() {
    let sorted = sort_versions(strings(&["010", "002", "1"]));
    assert_eq!(sorted, strings(&["002", "010", "1"]));
}

#[test]
fn sort_is_lexical_not_numeric() {
    let sorted = sort_versions(strings(&["2", "10"]));
    assert_eq!(sorted, strings(&["10", "2"]));
}

#[test]
fn sort_keeps_duplicates_and_empty_input() {
    assert_eq!(sort_versions(strings(&[])), strings(&[]));
    let sorted = sort_versions(strings(&["b", "a", "b"]));
    assert_eq!(sorted, strings(&["a", "b", "b"]));
}

#[test]
fn membership_does_not_depend_on_order() {
    let a = strings(&["002", "001"]);
    let b = strings(&["001", "002"]);
    assert!(contains_version(&a, "001"));
    assert!(contains_version(&b, "001"));
    assert!(!contains_version(&a, "003"));
    assert!(!contains_version(&strings(&[]), "001"));
}

#[test]
fn baseline_versions_start_with_zero() {
    assert!(is_baseline_version("000"));
    assert!(is_baseline_version("0"));
    assert!(is_baseline_version("095"));
    assert!(!is_baseline_version("100"));
    assert!(!is_baseline_version(""));
}

#[test]
fn binary_only_invocations_are_not_libraries() {
    assert!(!invocation(&["bin"]).is_library());
    assert!(!invocation(&[]).is_library());
}

#[test]
fn library_invocations_are_recognised() {
    assert!(invocation(&["lib"]).is_library());
    assert!(invocation(&["bin", "lib"]).is_library());
}
