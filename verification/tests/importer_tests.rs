use migration_import::importer::{marker_decision, merge_migrations, select_new_versions};
use migration_import::version_order::sort_versions;

fn strings(xs: &[&str]) -> Vec<String> {
    xs.iter().map(|s| s.to_string()).collect()
}

#[test]
fn select_all_new_when_none_existing() {
    let sorted = strings(&["101", "102", "103"]);
    let existing = strings(&[]);
    let selected = select_new_versions(&sorted, &existing);
    assert_eq!(selected, strings(&["103", "102", "101"]));
}

#[test]
fn select_stops_at_existing_version() {
    let sorted = strings(&["101", "102", "103"]);
    let existing = strings(&["102"]);
    let selected = select_new_versions(&sorted, &existing);
    // "101" is absent locally but lies beyond the stop point: not selected.
    assert_eq!(selected, strings(&["103"]));
}

#[test]
fn select_stops_at_baseline_version() {
    // A name starting with "0" is a baseline and halts the scan, so even a
    // zero-padded version such as "095" is never imported.
    let sorted = strings(&["095", "101"]);
    let existing = strings(&[]);
    let selected = select_new_versions(&sorted, &existing);
    assert_eq!(selected, strings(&["101"]));
}

#[test]
fn select_nothing_from_baseline_only_export() {
    // A dependency exporting only the sentinel baseline "000": no import.
    let sorted = strings(&["000"]);
    let existing = strings(&[]);
    let selected = select_new_versions(&sorted, &existing);
    assert!(selected.is_empty());
}

#[test]
fn select_nothing_from_empty_export() {
    let sorted = strings(&[]);
    let existing = strings(&["101"]);
    let selected = select_new_versions(&sorted, &existing);
    assert!(selected.is_empty());
}

#[test]
fn second_run_selects_nothing() {
    // First run: everything is new.
    let sorted = strings(&["101", "102", "103"]);
    let selected = select_new_versions(&sorted, &strings(&[]));
    assert_eq!(selected, strings(&["103", "102", "101"]));
    // The merged migration was written as "103"; the second run sees it.
    let existing_after = strings(&["103"]);
    let again = select_new_versions(&sorted, &existing_after);
    assert!(again.is_empty());
}

#[test]
fn merge_ordering_law() {
    let new_desc = strings(&["103", "102", "101"]);
    let ups = strings(&["up three", "up two", "up one"]);
    let downs = strings(&["down three", "down two", "down one"]);
    let merged = merge_migrations(&new_desc, &ups, &downs);
    assert_eq!(merged.version, "103");
    assert_eq!(merged.up_sql, "up one\n\nup two\n\nup three");
    assert_eq!(merged.down_sql, "down three\n\ndown two\n\ndown one");
}

#[test]
fn merge_single_migration() {
    let new_desc = strings(&["107"]);
    let ups = strings(&["a"]);
    let downs = strings(&["b"]);
    let merged = merge_migrations(&new_desc, &ups, &downs);
    assert_eq!(merged.version, "107");
    assert_eq!(merged.up_sql, "a");
    assert_eq!(merged.down_sql, "b");
}

#[test]
fn merge_keeps_separator_between_empty_bodies() {
    let new_desc = strings(&["102", "101"]);
    let ups = strings(&["", ""]);
    let downs = strings(&["x", ""]);
    let merged = merge_migrations(&new_desc, &ups, &downs);
    assert_eq!(merged.version, "102");
    assert_eq!(merged.up_sql, "\n\n");
    assert_eq!(merged.down_sql, "x\n\n");
}

#[test]
fn scenario_one_local_version() {
    // Local has "101"; the dependency exports "101", "102", "103".
    let existing = strings(&["101"]);
    let sorted = sort_versions(strings(&["103", "101", "102"]));
    assert_eq!(sorted, strings(&["101", "102", "103"]));
    let selected = select_new_versions(&sorted, &existing);
    assert_eq!(selected, strings(&["103", "102"]));
    // Bodies are handed over in the selected (descending) order; the merged
    // up body runs oldest first, the down body newest first.
    let ups_desc = strings(&["up three", "up two"]);
    let downs_desc = strings(&["down three", "down two"]);
    let merged = merge_migrations(&selected, &ups_desc, &downs_desc);
    assert_eq!(merged.version, "103");
    assert_eq!(merged.up_sql, "up two\n\nup three");
    assert_eq!(merged.down_sql, "down three\n\ndown two");
}

#[test]
fn marker_absent_means_nothing_to_import() {
    assert_eq!(marker_decision(None), None);
}

#[test]
fn marker_content_is_trimmed() {
    let decided = marker_decision(Some("  migrations\n".to_string()));
    assert_eq!(decided, Some("migrations".to_string()));
}

#[test]
fn marker_content_without_whitespace_is_kept() {
    let decided = marker_decision(Some("db/migrations".to_string()));
    assert_eq!(decided, Some("db/migrations".to_string()));
}
