use golden_core::fixed::UNIT;
use golden_core::graph::{Entity, EntityKind, SpaceGraph};
use golden_core::stamp::Timestamp;

fn at(secs: i64) -> Timestamp {
    Timestamp { secs, nanos: 0 }
}

fn entity(id: u128, label: &str) -> Entity {
    Entity::new_at(EntityKind::Event, label, id, at(0))
}

#[test]
fn test_space_graph_basic() {
    let mut sg = SpaceGraph::new();
    let e1 = Entity::new(EntityKind::Human, "Alice");
    let e2 = Entity::new(EntityKind::AI, "Bot");
    let id1 = e1.id;
    let id2 = e2.id;

    sg.add_entity(e1);
    sg.add_entity(e2);

    assert!(sg.get_entity(&id1).is_some());
    assert_eq!(sg.get_entity(&id1).unwrap().label, "Alice");

    assert_eq!(sg.shortest_path(id1, id2), None);

    sg.add_relation(id1, id2, UNIT / 10 * 8);
    assert_eq!(sg.shortest_path(id1, id2), Some(1));
}

#[test]
fn test_shortest_path_multi_step() {
    let mut sg = SpaceGraph::new();
    let a = Entity::new(EntityKind::Human, "A");
    let b = Entity::new(EntityKind::Human, "B");
    let c = Entity::new(EntityKind::Human, "C");
    let id_a = a.id;
    let id_b = b.id;
    let id_c = c.id;

    sg.add_entity(a);
    sg.add_entity(b);
    sg.add_entity(c);

    sg.add_relation(id_a, id_b, UNIT);
    sg.add_relation(id_b, id_c, UNIT);

    assert_eq!(sg.shortest_path(id_a, id_c), Some(2));
}

#[test]
fn a_new_entity_has_neither_vectors_nor_an_end() {
    let e = Entity::new(EntityKind::Service, "signal");
    assert_eq!(e.kind, EntityKind::Service);
    assert_eq!(e.label, "signal");
    assert!(e.embedding.is_none());
    assert!(e.activity_vec.is_none());
    assert!(e.expires_at.is_none());
    assert!(e.last_active.is_valid());
    assert!(e.last_active.secs > 1_600_000_000);
    assert_ne!(e.id, Entity::new(EntityKind::Service, "signal").id);
    assert_eq!(e.id >> 76 & 0xf, 4);
}

#[test]
fn relations_have_a_direction() {
    let mut sg = SpaceGraph::new();
    sg.add_entity(entity(1, "a"));
    sg.add_entity(entity(2, "b"));
    sg.add_relation(1, 2, UNIT);
    assert_eq!(sg.shortest_path(1, 2), Some(1));
    assert_eq!(sg.shortest_path(2, 1), None);
    assert_eq!(sg.degree_at(0), 1);
    assert_eq!(sg.degree_at(1), 0);
}

#[test]
fn relations_to_strangers_are_dropped() {
    let mut sg = SpaceGraph::new();
    sg.add_entity(entity(1, "a"));
    sg.add_relation(1, 9, UNIT);
    sg.add_relation(9, 1, UNIT);
    assert_eq!(sg.relation_count(), 0);
    assert_eq!(sg.shortest_path(1, 9), None);
    assert_eq!(sg.shortest_path(9, 1), None);
}

#[test]
fn parallel_relations_both_count() {
    let mut sg = SpaceGraph::new();
    sg.add_entity(entity(1, "a"));
    sg.add_entity(entity(2, "b"));
    sg.add_relation(1, 2, 3);
    sg.add_relation(1, 2, 4);
    assert_eq!(sg.relation_count(), 2);
    assert_eq!(sg.degree_at(0), 2);
}

#[test]
fn a_way_to_oneself_has_no_steps() {
    let mut sg = SpaceGraph::new();
    sg.add_entity(entity(1, "a"));
    assert_eq!(sg.shortest_path(1, 1), Some(0));
}

#[test]
fn a_shortcut_shortens_the_way() {
    let mut sg = SpaceGraph::new();
    for i in 1..=5u128 {
        sg.add_entity(entity(i, "x"));
    }
    for i in 1..=4u128 {
        sg.add_relation(i, i + 1, UNIT);
    }
    assert_eq!(sg.shortest_path(1, 5), Some(4));
    sg.add_relation(2, 5, UNIT);
    assert_eq!(sg.shortest_path(1, 5), Some(2));
    let through = sg.shortest_path(1, 2).unwrap() + sg.shortest_path(2, 5).unwrap();
    assert!(sg.shortest_path(1, 5).unwrap() <= through);
}

#[test]
fn the_last_entity_takes_the_place_of_a_removed_one() {
    let mut sg = SpaceGraph::new();
    sg.add_entity(entity(1, "a"));
    sg.add_entity(entity(2, "b"));
    sg.add_entity(entity(3, "c"));
    sg.add_relation(3, 2, UNIT);
    sg.add_relation(1, 3, UNIT);
    assert!(sg.remove_entity(&1));
    assert_eq!(sg.entity_count(), 2);
    assert_eq!(sg.entity_at(0).label, "c");
    assert_eq!(sg.entity_at(1).label, "b");
    assert!(sg.get_entity(&1).is_none());
    assert_eq!(sg.get_entity(&3).unwrap().label, "c");
    assert_eq!(sg.relation_count(), 1);
    assert_eq!(sg.shortest_path(3, 2), Some(1));
    assert!(!sg.remove_entity(&1));
    assert_eq!(sg.entity_count(), 2);
}

#[test]
fn removing_the_newest_undoes_its_addition() {
    let mut sg = SpaceGraph::new();
    sg.add_entity(entity(1, "a"));
    sg.add_entity(entity(2, "b"));
    assert_eq!(sg.add_entity(entity(3, "c")), 2);
    assert!(sg.remove_entity(&3));
    assert_eq!(sg.entity_count(), 2);
    assert_eq!(sg.entity_at(0).label, "a");
    assert_eq!(sg.entity_at(1).label, "b");
}

#[test]
fn a_known_identifier_leads_to_the_newer_entity() {
    let mut sg = SpaceGraph::new();
    sg.add_entity(entity(1, "older"));
    sg.add_entity(entity(1, "newer"));
    assert_eq!(sg.entity_count(), 2);
    assert_eq!(sg.get_entity(&1).unwrap().label, "newer");
}

#[test]
fn labels_lead_to_the_first_bearer() {
    let mut sg = SpaceGraph::new();
    sg.add_entity(entity(1, "a"));
    sg.add_entity(entity(2, "b"));
    sg.add_entity(entity(3, "b"));
    assert_eq!(sg.find_label("b"), Some(1));
    assert_eq!(sg.find_label("z"), None);
}

#[test]
fn a_visit_changes_activity_and_nothing_else() {
    let mut sg = SpaceGraph::new();
    let mut e = entity(1, "a");
    e.embedding = Some(vec![7, 8]);
    sg.add_entity(e);
    assert!(sg.update_entity_activity(&1, vec![5, 6], at(99)));
    let seen = sg.get_entity(&1).unwrap();
    assert_eq!(seen.activity_vec, Some(vec![5, 6]));
    assert_eq!(seen.embedding, Some(vec![7, 8]));
    assert_eq!(seen.last_active, at(99));
    assert_eq!(seen.label, "a");
    assert!(!sg.update_entity_activity(&2, vec![1], at(100)));
    sg.set_activity(0, vec![3, 4]);
    assert_eq!(sg.entity_at(0).activity_vec, Some(vec![3, 4]));
    assert_eq!(sg.entity_at(0).last_active, at(99));
}
