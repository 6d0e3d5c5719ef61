//! Tests of row application, the persisted tables, and reloading them.

use fffc::FFFC;

fn tables_sorted(store: &FFFC) -> (Vec<(String, u64)>, Vec<(String, u64)>, Vec<(u64, u64)>) {
    let (mut groups, mut mains, mut links) = store.serialize();
    groups.sort();
    mains.sort();
    links.sort();
    (groups, mains, links)
}

#[test]
fn apply_record_dispatches_on_the_code() {
    let mut store = FFFC::new();
    assert!(store.apply_record("A", "ignored", 0));
    assert_eq!(store.group_of("A").is_some(), true);
    assert_eq!(store.group_of("ignored"), None);
    assert!(store.apply_record("A", "B", 1));
    let ga = store.group_of("A").unwrap();
    let gb = store.group_of("B").unwrap();
    assert_eq!(store.links_from(ga), vec![gb]);
    assert!(store.apply_record("B", "C", 2));
    assert_eq!(store.group_of("C"), Some(gb));
}

#[test]
fn unknown_code_changes_nothing_and_signals() {
    let mut store = FFFC::new();
    store.add_bw("A", "B");
    store.add_ow("A", "C");
    let before = tables_sorted(&store);
    let recognized = store.apply_record("A", "B", 9);
    assert!(!recognized);
    assert_eq!(tables_sorted(&store), before);
}

#[test]
fn extend_from_rows_reports_exactly_the_unknown_codes() {
    let mut store = FFFC::new();
    let rows = vec![
        ("A".to_string(), "B".to_string(), 2u8),
        ("A".to_string(), "B".to_string(), 9u8),
        ("B".to_string(), "C".to_string(), 1u8),
        ("X".to_string(), "Y".to_string(), 7u8),
        ("D".to_string(), "".to_string(), 0u8),
    ];
    let skipped = store.extend_from_rows(&rows);
    assert_eq!(skipped, vec![1, 3]);
    // the skipped rows left no trace
    assert_eq!(store.group_of("X"), None);
    assert_eq!(store.group_of("Y"), None);
    assert_eq!(store.group_of("D").is_some(), true);
}

#[test]
fn serialize_lists_every_registration_main_and_link_once() {
    let mut store = FFFC::new();
    store.add_bw("A", "B");
    store.add_ow("A", "C");
    let ga = store.group_of("A").unwrap();
    let gc = store.group_of("C").unwrap();
    let (groups, mains, links) = tables_sorted(&store);
    let mut expected_groups = vec![
        ("A".to_string(), ga),
        ("B".to_string(), ga),
        ("C".to_string(), gc),
    ];
    expected_groups.sort();
    assert_eq!(groups, expected_groups);
    let mut expected_mains = vec![("A".to_string(), ga), ("C".to_string(), gc)];
    expected_mains.sort();
    assert_eq!(mains, expected_mains);
    assert_eq!(links, vec![(ga, gc)]);
}

#[test]
fn round_trip_rebuilds_the_same_tables() {
    let mut store = FFFC::new();
    let rows = vec![
        ("A".to_string(), "B".to_string(), 2u8),
        ("B".to_string(), "C".to_string(), 1u8),
        ("C".to_string(), "D".to_string(), 1u8),
        ("D".to_string(), "B".to_string(), 1u8),
        ("E".to_string(), "F".to_string(), 2u8),
        ("E".to_string(), "A".to_string(), 1u8),
    ];
    let skipped = store.extend_from_rows(&rows);
    assert_eq!(skipped, Vec::<usize>::new());
    let (groups, mains, links) = store.serialize();
    let mut reloaded = FFFC::new();
    reloaded.deserialize(&groups, &mains, &links);
    assert_eq!(tables_sorted(&reloaded), tables_sorted(&store));
}

#[test]
fn deserialize_extends_existing_state_and_existing_entries_win() {
    let mut store = FFFC::new();
    let ga = store.add_part("A");
    // a conflicting row for A is ignored; a fresh row for B is loaded
    let groups = vec![("A".to_string(), 77u64), ("B".to_string(), 77u64)];
    let mains = vec![("B".to_string(), 77u64)];
    let links = vec![(ga, 77u64)];
    store.deserialize(&groups, &mains, &links);
    assert_eq!(store.group_of("A"), Some(ga));
    assert_eq!(store.group_of("B"), Some(77));
    assert_eq!(store.main_of(77), Some("B".to_string()));
    assert_eq!(store.links_from(ga), vec![77]);
}

#[test]
fn deserialize_ignores_rows_that_would_break_the_store() {
    let mut store = FFFC::new();
    let groups = vec![
        ("A".to_string(), 5u64),
        ("B".to_string(), 8u64),
        ("A".to_string(), 9u64),      // part already registered
        ("R".to_string(), u64::MAX),  // reserved identifier
    ];
    let mains = vec![
        ("A".to_string(), 5u64),
        ("Z".to_string(), 42u64),  // dead group
        ("B".to_string(), 5u64),   // already designated
    ];
    let links = vec![
        (5u64, 8u64),
        (5u64, 5u64),   // self-loop
        (5u64, 42u64),  // dead endpoint
        (5u64, 8u64),   // duplicate
    ];
    store.deserialize(&groups, &mains, &links);
    assert_eq!(store.group_of("A"), Some(5));
    assert_eq!(store.group_of("B"), Some(8));
    assert_eq!(store.group_of("R"), None);
    assert_eq!(store.main_of(5), Some("A".to_string()));
    assert_eq!(store.main_of(42), None);
    assert_eq!(store.links_from(5), vec![8]);
    assert!(!store.is_live(42));
}

#[test]
fn empty_rows_and_empty_tables_change_nothing() {
    let mut store = FFFC::new();
    store.add_bw("A", "B");
    let before = tables_sorted(&store);
    let skipped = store.extend_from_rows(&Vec::new());
    assert_eq!(skipped, Vec::<usize>::new());
    store.deserialize(&Vec::new(), &Vec::new(), &Vec::new());
    assert_eq!(tables_sorted(&store), before);
}

#[test]
fn minting_after_a_load_skips_loaded_identifiers() {
    let mut store = FFFC::new();
    let groups = vec![("A".to_string(), 10u64), ("B".to_string(), 3u64)];
    let mains: Vec<(String, u64)> = vec![];
    let links: Vec<(u64, u64)> = vec![];
    store.deserialize(&groups, &mains, &links);
    assert_eq!(store.id_counter(), 11);
    let id = store.add_part("C");
    assert_eq!(id, 11);
    assert!(store.is_live(10) && store.is_live(3) && store.is_live(11));
}
