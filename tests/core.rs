use std::cmp::Ordering;

use edge_features::flags::{diff, extract_features, select_flags, FlagSet};
use edge_features::store::{ListFile, SnapshotStore, StoreError};
use edge_features::text::{join_lines, split_lines};
use edge_features::version::{compare_versions, latest_version, sort_versions};

fn strings(items: &[&str]) -> Vec<String> {
    items.iter().map(|s| s.to_string()).collect()
}

fn flag_set(items: &[&str]) -> FlagSet {
    FlagSet::from_lines(strings(items))
}

fn store_with(builds: &[(&str, &str, &[&str])]) -> SnapshotStore {
    let mut store = SnapshotStore::new();
    for (major, full, flags) in builds {
        store.create_version_directory(major, full);
        store.save_snapshot(major, full, &flag_set(flags)).unwrap();
    }
    store
}

#[test]
fn prefix_version_is_less() {
    assert_eq!(compare_versions("110.0.1", "110.0.1.0"), Ordering::Less);
    assert_eq!(compare_versions("110.0.1.0", "110.0.1"), Ordering::Greater);
}

#[test]
fn segments_compare_numerically() {
    assert_eq!(compare_versions("110.2.0", "110.10.0"), Ordering::Less);
    assert_eq!(compare_versions("110.10.0", "110.2.0"), Ordering::Greater);
}

#[test]
fn compare_is_reflexive_and_antisymmetric() {
    let ids = ["110.0.1587.0", "110.0.1587.1", "111.0.0.0", "9.9", "110.0.1587"];
    for a in ids {
        assert_eq!(compare_versions(a, a), Ordering::Equal);
        for b in ids {
            assert_eq!(compare_versions(a, b), compare_versions(b, a).reverse());
        }
    }
}

#[test]
fn compare_is_transitive_on_samples() {
    let a = "110.0.1";
    let b = "110.0.1.0";
    let c = "110.0.2";
    assert_eq!(compare_versions(a, b), Ordering::Less);
    assert_eq!(compare_versions(b, c), Ordering::Less);
    assert_eq!(compare_versions(a, c), Ordering::Less);
}

#[test]
fn unparsable_segments_count_as_zero() {
    assert_eq!(compare_versions("110.x.5", "110.0.5"), Ordering::Equal);
    assert_eq!(compare_versions("110..5", "110.0.5"), Ordering::Equal);
    assert_eq!(compare_versions("110.+7", "110.7"), Ordering::Equal);
    assert_eq!(compare_versions("1.99999999999999999999", "1.0"), Ordering::Equal);
    assert_eq!(compare_versions("1.18446744073709551615", "1.18446744073709551614"), Ordering::Greater);
    assert_eq!(compare_versions("110.00.1", "110.0.1"), Ordering::Equal);
    assert_eq!(compare_versions("", "0"), Ordering::Equal);
}

#[test]
fn sort_orders_by_version() {
    let sorted = sort_versions(&strings(&["120.0.10.0", "120.0.2.0", "119.9.9.9", "120.0.2"]));
    assert_eq!(sorted, strings(&["119.9.9.9", "120.0.2", "120.0.2.0", "120.0.10.0"]));
}

#[test]
fn latest_version_ignores_other_names() {
    let names = strings(&["SetupMetrics", "121.0.5.0", "121.0.10.0", "Installer"]);
    assert_eq!(latest_version(&names), Some("121.0.10.0".to_string()));
    assert_eq!(latest_version(&strings(&["Installer", "Locales"])), None);
    assert_eq!(latest_version(&Vec::new()), None);
}

#[test]
fn diff_reports_added_and_removed() {
    let current = flag_set(&["msFooBar1", "msBaz2000"]);
    let previous = flag_set(&["msBaz2000", "msOldOne"]);
    let d = diff(&current, &previous);
    assert_eq!(d.added, strings(&["msFooBar1"]));
    assert_eq!(d.removed, strings(&["msOldOne"]));
}

#[test]
fn diff_lists_are_sorted_and_disjoint() {
    let current = flag_set(&["msZeta1", "msAlpha1", "msMid11", "msShared"]);
    let previous = flag_set(&["msShared", "msYank1", "msBeta22"]);
    let d = diff(&current, &previous);
    assert_eq!(d.added, strings(&["msAlpha1", "msMid11", "msZeta1"]));
    assert_eq!(d.removed, strings(&["msBeta22", "msYank1"]));
    for a in &d.added {
        assert!(!d.removed.contains(a));
    }
}

#[test]
fn diff_of_equal_sets_is_empty() {
    let a = flag_set(&["msOne1", "msTwo2"]);
    let d = diff(&a, &a);
    assert!(d.added.is_empty());
    assert!(d.removed.is_empty());
}

#[test]
fn flag_set_collapses_repeats_and_sorts() {
    let f = flag_set(&["msB1234", "msA1234", "msB1234"]);
    assert_eq!(f.len(), 2);
    assert_eq!(f.to_sorted_vec(), strings(&["msA1234", "msB1234"]));
    assert!(f.contains("msA1234"));
    assert!(!f.contains("msC1234"));
    assert!(FlagSet::new().to_sorted_vec().is_empty());
}

#[test]
fn flag_pattern_filters_lines() {
    let lines = strings(&[
        "msEdgeFeature",
        "MSUpper123",
        "mSmixed9",
        "msabc",
        "msab",
        "xmsEdgeFeature",
        "msEdge Feature",
        "msEdge_Feature",
        "",
        "msEdgeFeature",
    ]);
    let f = extract_features(&lines).unwrap();
    assert_eq!(f.to_sorted_vec(), strings(&["MSUpper123", "mSmixed9", "msEdgeFeature"]));
}

#[test]
fn select_flags_keeps_marked_lines() {
    let lines = strings(&["a", "b", "c"]);
    let f = select_flags(&lines, &vec![true, false, true]);
    assert_eq!(f.to_sorted_vec(), strings(&["a", "c"]));
}

#[test]
fn snapshot_round_trip() {
    let mut store = SnapshotStore::new();
    store.create_version_directory("120", "120.0.1.0");
    let f = flag_set(&["msZed1234", "msAlpha123", "msMiddle12"]);
    store.save_snapshot("120", "120.0.1.0", &f).unwrap();
    let back = store.load_snapshot("120", "120.0.1.0").unwrap();
    assert_eq!(back.to_sorted_vec(), f.to_sorted_vec());
}

#[test]
fn load_of_missing_snapshot_is_not_found() {
    let mut store = SnapshotStore::new();
    assert_eq!(store.load_snapshot("120", "120.0.1.0").err(), Some(StoreError::NotFound));
    store.create_version_directory("120", "120.0.1.0");
    assert_eq!(store.load_snapshot("120", "120.0.1.0").err(), Some(StoreError::NotFound));
}

#[test]
fn write_into_missing_directory_fails() {
    let mut store = SnapshotStore::new();
    let f = flag_set(&["msAbcd1"]);
    assert_eq!(store.save_snapshot("120", "120.0.1.0", &f), Err(StoreError::Io));
    assert_eq!(
        store.save_diff_list("120", "120.0.1.0", &strings(&["msAbcd1"]), ListFile::Added),
        Err(StoreError::Io)
    );
    assert_eq!(store.record_entry("120", "120.0.1.0"), Err(StoreError::Io));
}

#[test]
fn build_exists_needs_a_file() {
    let mut store = SnapshotStore::new();
    assert!(!store.build_exists("120", "120.0.1.0"));
    store.create_version_directory("120", "120.0.1.0");
    assert!(!store.build_exists("120", "120.0.1.0"));
    store.record_entry("120", "120.0.1.0").unwrap();
    assert!(store.build_exists("120", "120.0.1.0"));
}

#[test]
fn listings_of_store() {
    let mut store = SnapshotStore::new();
    assert!(store.list_full_versions("120").is_empty());
    store.ensure_major_directory("120");
    store.ensure_major_directory("120");
    store.create_version_directory("120", "120.0.1.0");
    store.create_version_directory("120", "120.0.1.0");
    store.create_version_directory("119", "119.5.0.0");
    assert_eq!(store.list_full_versions("120"), strings(&["120.0.1.0"]));
    assert_eq!(store.list_full_versions("119"), strings(&["119.5.0.0"]));
}

#[test]
fn previous_in_same_major() {
    let mut store = store_with(&[
        ("120", "120.0.2.0", &["msAbcd1"]),
        ("120", "120.0.1.0", &["msAbcd1"]),
    ]);
    store.create_version_directory("120", "120.0.3.0");
    assert_eq!(
        store.find_previous_version("120"),
        Ok(("120.0.2.0".to_string(), "120".to_string()))
    );
}

#[test]
fn previous_across_majors() {
    let mut store = store_with(&[("119", "119.5.0.0", &["msAbcd1"])]);
    store.create_version_directory("120", "120.0.1.0");
    assert_eq!(
        store.find_previous_version("120"),
        Ok(("119.5.0.0".to_string(), "119".to_string()))
    );
}

#[test]
fn previous_across_majors_picks_highest_nonempty() {
    let mut store = store_with(&[
        ("117", "117.1.0.0", &["msAbcd1"]),
        ("118", "118.2.0.0", &["msAbcd1"]),
        ("118", "118.10.0.0", &["msAbcd1"]),
    ]);
    store.ensure_major_directory("119");
    store.ensure_major_directory("notes");
    store.ensure_major_directory("1180");
    store.create_version_directory("120", "120.0.1.0");
    assert_eq!(
        store.find_previous_version("120"),
        Ok(("118.10.0.0".to_string(), "118".to_string()))
    );
}

#[test]
fn no_previous_in_empty_store() {
    let mut store = SnapshotStore::new();
    store.create_version_directory("120", "120.0.1.0");
    assert_eq!(store.find_previous_version("120"), Err(StoreError::NoPreviousVersion));
}

#[test]
fn first_run_fails_without_baseline() {
    let mut store = SnapshotStore::new();
    let f = flag_set(&["msAbcd1"]);
    assert_eq!(store.process_version("120", "120.0.1.0", &f).err(), Some(StoreError::NoPreviousVersion));
}

#[test]
fn process_writes_snapshot_and_lists() {
    let mut store = store_with(&[("119", "119.5.0.0", &["msBaz2000", "msOldOne"])]);
    let f = flag_set(&["msFooBar1", "msBaz2000"]);
    let d = store.process_version("120", "120.0.1.0", &f).unwrap().unwrap();
    assert_eq!(d.added, strings(&["msFooBar1"]));
    assert_eq!(d.removed, strings(&["msOldOne"]));
    assert!(store.build_exists("120", "120.0.1.0"));
    let saved = store.load_snapshot("120", "120.0.1.0").unwrap();
    assert_eq!(saved.to_sorted_vec(), strings(&["msBaz2000", "msFooBar1"]));
}

#[test]
fn process_twice_is_a_no_op() {
    let mut store = store_with(&[("119", "119.5.0.0", &["msBaz2000"])]);
    let f = flag_set(&["msFooBar1", "msBaz2000"]);
    assert!(store.process_version("120", "120.0.1.0", &f).unwrap().is_some());
    let other = flag_set(&["msOther12"]);
    assert!(store.process_version("120", "120.0.1.0", &other).unwrap().is_none());
    let saved = store.load_snapshot("120", "120.0.1.0").unwrap();
    assert_eq!(saved.to_sorted_vec(), strings(&["msBaz2000", "msFooBar1"]));
    assert_eq!(store.list_full_versions("120"), strings(&["120.0.1.0"]));
}

#[test]
fn process_with_missing_baseline_snapshot() {
    let mut store = SnapshotStore::new();
    store.create_version_directory("119", "119.5.0.0");
    store.record_entry("119", "119.5.0.0").unwrap();
    let f = flag_set(&["msAbcd1"]);
    assert_eq!(store.process_version("120", "120.0.1.0", &f).err(), Some(StoreError::NotFound));
}

#[test]
fn list_file_names() {
    assert_eq!(ListFile::Added.file_name(), "added.txt");
    assert_eq!(ListFile::Removed.file_name(), "removed.txt");
}

#[test]
fn major_listing_keeps_three_digit_names() {
    let mut store = SnapshotStore::new();
    for name in ["120", "notes", "1200", "12", "119", "12a"] {
        store.ensure_major_directory(name);
    }
    let mut majors = store.list_major_versions();
    majors.sort();
    assert_eq!(majors, strings(&["119", "120"]));
}

#[test]
fn lines_split_like_std() {
    for text in ["", "a", "a\n", "a\nb", "a\r\nb\r\n", "a\rb", "x\r", "\n\nz", "a\n\n", "é\nß\r\n"] {
        let expected: Vec<String> = text.lines().map(|l| l.to_string()).collect();
        assert_eq!(split_lines(text), expected, "{:?}", text);
    }
}

#[test]
fn lines_join_with_newlines() {
    assert_eq!(join_lines(&strings(&["msA1234", "msB1234"])), "msA1234\nmsB1234");
    assert_eq!(join_lines(&Vec::new()), "");
    let flags = strings(&["msA1234", "msB1234", "msC1234"]);
    assert_eq!(split_lines(&join_lines(&flags)), flags);
}

#[test]
fn extraction_compiles_its_pattern() {
    assert!(extract_features(&Vec::new()).is_some());
}

#[test]
fn listing_of_missing_major_is_empty() {
    let mut store = SnapshotStore::new();
    store.create_version_directory("119", "119.5.0.0");
    assert!(store.list_full_versions("120").is_empty());
    assert_eq!(
        store.find_previous_version("120"),
        Ok(("119.5.0.0".to_string(), "119".to_string()))
    );
}
