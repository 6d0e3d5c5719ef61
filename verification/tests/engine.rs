//! Tests of the grouping and linking engine.

use fffc::FFFC;

fn sorted_groups(store: &FFFC) -> Vec<(String, u64)> {
    let (mut groups, _, _) = store.serialize();
    groups.sort();
    groups
}

fn sorted_mains(store: &FFFC) -> Vec<(String, u64)> {
    let (_, mut mains, _) = store.serialize();
    mains.sort();
    mains
}

fn sorted_links(store: &FFFC) -> Vec<(u64, u64)> {
    let (_, _, mut links) = store.serialize();
    links.sort();
    links
}

#[test]
fn fresh_creation_yields_singleton_group_with_main() {
    let mut store = FFFC::new();
    let id = store.add_part("X");
    assert_eq!(store.group_of("X"), Some(id));
    assert_eq!(store.members_of(id), vec!["X".to_string()]);
    assert_eq!(store.main_of(id), Some("X".to_string()));
    assert!(store.is_live(id));
}

#[test]
fn add_part_is_idempotent() {
    let mut store = FFFC::new();
    let id1 = store.add_part("X");
    let id2 = store.add_part("X");
    assert_eq!(id1, id2);
    assert_eq!(store.members_of(id1).len(), 1);
    assert_eq!(sorted_groups(&store).len(), 1);
}

#[test]
fn add_bw_unions_registrations() {
    let mut store = FFFC::new();
    store.add_bw("A", "B");
    let ga = store.group_of("A").expect("A registered");
    let gb = store.group_of("B").expect("B registered");
    assert_eq!(ga, gb);
    let mut members = store.members_of(ga);
    members.sort();
    assert_eq!(members, vec!["A".to_string(), "B".to_string()]);
}

#[test]
fn add_bw_of_a_part_with_itself_makes_one_singleton_group() {
    let mut store = FFFC::new();
    store.add_bw("A", "A");
    let ga = store.group_of("A").expect("A registered");
    assert_eq!(store.members_of(ga), vec!["A".to_string()]);
    assert_eq!(store.main_of(ga), Some("A".to_string()));
    let (groups, _, links) = store.serialize();
    assert_eq!(groups.len(), 1);
    assert_eq!(links.len(), 0);
}

#[test]
fn add_bw_merges_two_existing_groups() {
    let mut store = FFFC::new();
    let ga = store.add_part("A");
    let gb = store.add_part("B");
    assert_ne!(ga, gb);
    store.add_bw("A", "B");
    assert_eq!(store.group_of("A"), Some(ga));
    assert_eq!(store.group_of("B"), Some(ga));
    assert!(store.is_live(ga));
    assert!(!store.is_live(gb));
    // the discarded group's main designation is dropped, the anchor's kept
    assert_eq!(store.main_of(ga), Some("A".to_string()));
    assert_eq!(store.main_of(gb), None);
}

#[test]
fn add_bw_twice_gives_same_structure() {
    let mut store = FFFC::new();
    store.add_bw("A", "B");
    let groups_once = sorted_groups(&store);
    let mains_once = sorted_mains(&store);
    let links_once = sorted_links(&store);
    store.add_bw("A", "B");
    assert_eq!(sorted_groups(&store), groups_once);
    assert_eq!(sorted_mains(&store), mains_once);
    assert_eq!(sorted_links(&store), links_once);
}

#[test]
fn add_bw_by_id_adds_unregistered_part_as_member() {
    let mut store = FFFC::new();
    let id = store.add_part("A");
    store.add_bw_by_id(id, "B");
    assert_eq!(store.group_of("B"), Some(id));
    let mut members = store.members_of(id);
    members.sort();
    assert_eq!(members, vec!["A".to_string(), "B".to_string()]);
    // no second group was created
    assert_eq!(store.main_of(id), Some("A".to_string()));
}

#[test]
fn add_bw_merge_redirects_incident_edges() {
    let mut store = FFFC::new();
    store.add_ow("D", "B");
    let gd = store.group_of("D").unwrap();
    let gb = store.group_of("B").unwrap();
    assert_eq!(store.links_from(gd), vec![gb]);
    // folding B's group into A's group must redirect the edge D -> B
    let ga = store.add_part("A");
    store.add_bw("A", "B");
    assert_eq!(store.group_of("B"), Some(ga));
    assert_eq!(store.links_from(gd), vec![ga]);
    assert_eq!(store.links_to(ga), vec![gd]);
    assert_eq!(store.links_to(gb), Vec::<u64>::new());
}

#[test]
fn merge_groups_moves_members_and_drops_discarded_main() {
    let mut store = FFFC::new();
    let keep = store.add_part("A");
    let discard = store.add_part("B");
    store.merge_groups(keep, discard);
    assert_eq!(store.group_of("B"), Some(keep));
    assert!(!store.is_live(discard));
    assert_eq!(store.main_of(discard), None);
    let mut members = store.members_of(keep);
    members.sort();
    assert_eq!(members, vec!["A".to_string(), "B".to_string()]);
}

#[test]
fn set_main_on_live_group_designates() {
    let mut store = FFFC::new();
    let id = store.add_part("A");
    let r = store.set_main(id, "Z");
    assert_eq!(r, id);
    // the main need not be a member
    assert_eq!(store.main_of(id), Some("Z".to_string()));
    assert_eq!(store.members_of(id), vec!["A".to_string()]);
}

#[test]
fn set_main_on_dead_id_registers_new_part() {
    let mut store = FFFC::new();
    let id = store.add_part("A");
    let dead = id + 5;
    assert!(!store.is_live(dead));
    let r = store.set_main(dead, "Z");
    assert_ne!(r, dead);
    assert!(!store.is_live(dead));
    assert_eq!(store.group_of("Z"), Some(r));
    assert_eq!(store.main_of(r), Some("Z".to_string()));
}

#[test]
fn add_ow_links_two_groups() {
    let mut store = FFFC::new();
    store.add_ow("A", "B");
    let ga = store.group_of("A").unwrap();
    let gb = store.group_of("B").unwrap();
    assert_ne!(ga, gb);
    assert_eq!(store.links_from(ga), vec![gb]);
    assert_eq!(store.links_to(gb), vec![ga]);
}

#[test]
fn duplicate_add_ow_inserts_no_second_edge() {
    let mut store = FFFC::new();
    store.add_ow("A", "B");
    store.add_ow("A", "B");
    let ga = store.group_of("A").unwrap();
    let gb = store.group_of("B").unwrap();
    assert_eq!(store.links_from(ga), vec![gb]);
    assert_eq!(sorted_links(&store).len(), 1);
}

#[test]
fn add_ow_within_one_group_stores_no_self_loop() {
    let mut store = FFFC::new();
    store.add_ow("A", "A");
    let ga = store.group_of("A").unwrap();
    assert_eq!(store.links_from(ga), Vec::<u64>::new());
    store.add_bw("A", "B");
    store.add_ow("A", "B");
    assert_eq!(store.links_from(ga), Vec::<u64>::new());
    assert_eq!(sorted_links(&store).len(), 0);
}

#[test]
fn two_node_cycle_collapses() {
    let mut store = FFFC::new();
    store.add_ow("A", "B");
    store.add_ow("B", "A");
    let ga = store.group_of("A").unwrap();
    assert_eq!(store.group_of("B"), Some(ga));
    assert_eq!(sorted_links(&store).len(), 0);
}

#[test]
fn three_node_cycle_collapses_to_one_group_without_edges() {
    let mut store = FFFC::new();
    store.add_ow("P1", "P2");
    store.add_ow("P2", "P3");
    store.add_ow("P3", "P1");
    let g1 = store.group_of("P1").unwrap();
    assert_eq!(store.group_of("P2"), Some(g1));
    assert_eq!(store.group_of("P3"), Some(g1));
    assert_eq!(sorted_links(&store), Vec::<(u64, u64)>::new());
    let mut members = store.members_of(g1);
    members.sort();
    assert_eq!(
        members,
        vec!["P1".to_string(), "P2".to_string(), "P3".to_string()]
    );
    // the survivor is P3's group, anchoring the collapsing call, and it
    // keeps its own main; the collapsed groups' mains are gone
    assert_eq!(g1, store.group_of("P3").unwrap());
    assert_eq!(store.main_of(g1), Some("P3".to_string()));
    assert_eq!(sorted_mains(&store), vec![("P3".to_string(), g1)]);
}

#[test]
fn cycle_collapse_redirects_outside_edges() {
    let mut store = FFFC::new();
    // a chain around the future cycle, plus an edge in and an edge out
    store.add_ow("A", "B");
    store.add_ow("B", "C");
    store.add_ow("D", "B");
    store.add_ow("C", "E");
    let gd = store.group_of("D").unwrap();
    let ge = store.group_of("E").unwrap();
    // closing the cycle A -> B -> C -> A collapses A, B and C
    store.add_ow("C", "A");
    let ga = store.group_of("A").unwrap();
    assert_eq!(store.group_of("B"), Some(ga));
    assert_eq!(store.group_of("C"), Some(ga));
    assert_eq!(store.group_of("D"), Some(gd));
    assert_eq!(store.group_of("E"), Some(ge));
    assert_eq!(store.links_from(gd), vec![ga]);
    assert_eq!(store.links_from(ga), vec![ge]);
    assert_eq!(sorted_links(&store), {
        let mut expected = vec![(gd, ga), (ga, ge)];
        expected.sort();
        expected
    });
    // the anchor of the collapse is C's group, which keeps its main
    assert_eq!(store.main_of(ga), Some("C".to_string()));
}

#[test]
fn get_circular_links_reports_the_chain_or_nothing() {
    let mut store = FFFC::new();
    store.add_ow("A", "B");
    store.add_ow("B", "C");
    store.add_ow("X", "Y");
    let ga = store.group_of("A").unwrap();
    let gb = store.group_of("B").unwrap();
    let gc = store.group_of("C").unwrap();
    // search from B's group for A's group, as inserting C -> A would:
    // the chain B -> C does not reach A, so no cycle
    assert!(store.get_circular_links(gb, ga).is_some() == false);
    // searching from B for C finds the chain {B, C}
    let mut chain = store.get_circular_links(gb, gc).expect("C is reachable");
    chain.sort();
    let mut expected = vec![gb, gc];
    expected.sort();
    assert_eq!(chain, expected);
}

#[test]
fn get_circular_links_of_a_group_with_itself_needs_a_real_cycle() {
    let mut store = FFFC::new();
    let ga = store.add_part("A");
    // a lone group lies on no cycle
    assert!(store.get_circular_links(ga, ga).is_none());
    // an outgoing chain that never returns is still no cycle
    store.add_ow("A", "B");
    store.add_ow("B", "C");
    assert!(store.get_circular_links(ga, ga).is_none());
}

#[test]
fn forward_and_reverse_indices_agree() {
    let mut store = FFFC::new();
    store.add_ow("A", "B");
    store.add_ow("A", "C");
    store.add_ow("D", "B");
    store.add_bw("C", "D");
    for (a, b) in sorted_links(&store) {
        assert!(store.links_from(a).contains(&b));
        assert!(store.links_to(b).contains(&a));
    }
    for part in ["A", "B", "C", "D"] {
        let g = store.group_of(part).unwrap();
        for b in store.links_from(g) {
            assert!(store.links_to(b).contains(&g));
        }
        for a in store.links_to(g) {
            assert!(store.links_from(a).contains(&g));
        }
    }
}

#[test]
fn no_self_loops_after_mixed_operations() {
    let mut store = FFFC::new();
    let rows = vec![
        ("A".to_string(), "B".to_string(), 1u8),
        ("B".to_string(), "C".to_string(), 1u8),
        ("C".to_string(), "A".to_string(), 1u8),
        ("C".to_string(), "D".to_string(), 2u8),
        ("E".to_string(), "A".to_string(), 1u8),
        ("E".to_string(), "".to_string(), 0u8),
        ("A".to_string(), "E".to_string(), 2u8),
    ];
    let skipped = store.extend_from_rows(&rows);
    assert_eq!(skipped, Vec::<usize>::new());
    let links = sorted_links(&store);
    for (a, b) in &links {
        assert_ne!(a, b);
    }
    // no duplicate edges either
    let mut dedup = links.clone();
    dedup.dedup();
    assert_eq!(links, dedup);
}
