use golden_core::emergence::{
    detect_convergences, emerge, emerge_at, emerging_label, explorers, find_gatherings,
    EMERGENCE_LIMIT, FARTHEST,
};
use golden_core::fixed::UNIT;
use golden_core::graph::{Entity, EntityKind, SpaceGraph};
use golden_core::presence::Presence;
use golden_core::stamp::Timestamp;

fn at(secs: i64) -> Timestamp {
    Timestamp { secs, nanos: 0 }
}

fn fixed(x: f64) -> i64 {
    (x * UNIT as f64).round() as i64
}

fn space(labels: &[&str]) -> SpaceGraph {
    let mut g = SpaceGraph::new();
    for (i, label) in labels.iter().enumerate() {
        let mut e = Entity::new_at(EntityKind::Event, label, i as u128, at(0));
        e.embedding = Some(vec![i as u32, 0]);
        g.add_entity(e);
    }
    g
}

fn crowd(n: u128) -> Presence {
    let mut p = Presence::new();
    for i in 0..n {
        p.connect_at(i, None, vec![1, 2], at(0));
    }
    p
}

#[test]
fn those_who_only_started_have_not_explored() {
    let sims = vec![fixed(0.5), fixed(0.98), fixed(0.979), UNIT, fixed(-0.2)];
    assert_eq!(explorers(&sims), vec![0, 2, 4]);
}

#[test]
fn people_gather_around_the_first() {
    let close = fixed(0.8);
    let edge = fixed(0.75);
    let sim = vec![
        vec![UNIT, edge, close, 0, 0],
        vec![edge, UNIT, close, close, 0],
        vec![close, close, UNIT, close, 0],
        vec![0, close, close, UNIT, 0],
        vec![0, 0, 0, 0, UNIT],
    ];
    assert_eq!(find_gatherings(&sim), vec![vec![0, 2], vec![1, 3]]);
    assert!(find_gatherings(&vec![]).is_empty());
    assert!(find_gatherings(&vec![vec![UNIT]]).is_empty());
}

#[test]
fn everyone_close_to_the_first_joins() {
    let close = fixed(0.9);
    let sim = vec![vec![UNIT, close, close], vec![close, UNIT, 0], vec![close, 0, UNIT]];
    assert_eq!(find_gatherings(&sim), vec![vec![0, 1, 2]]);
}

#[test]
fn a_being_emerges_by_its_neighbour() {
    let g = space(&["oak", "elm"]);
    let d = vec![fixed(0.5), fixed(0.4)];
    assert_eq!(emerging_label(&g, &d), Some("elm·convergence".to_string()));
    let tie = vec![fixed(0.4), fixed(0.4)];
    assert_eq!(emerging_label(&g, &tie), Some("oak·convergence".to_string()));
    assert_eq!(emerging_label(&g, &vec![FARTHEST, fixed(0.25)]), Some("elm·convergence".to_string()));
}

#[test]
fn an_empty_space_gives_a_field() {
    let g = space(&[]);
    assert_eq!(emerging_label(&g, &vec![]), Some("field·convergence".to_string()));
    let mut h = SpaceGraph::new();
    h.add_entity(Entity::new_at(EntityKind::Event, "void", 1, at(0)));
    assert_eq!(emerging_label(&h, &vec![0]), Some("field·convergence".to_string()));
}

#[test]
fn nothing_emerges_where_it_is_crowded() {
    let g = space(&["oak"]);
    assert_eq!(emerging_label(&g, &vec![fixed(0.249)]), None);
}

#[test]
fn nothing_emerges_twice() {
    let g = space(&["oak", "oak·convergence"]);
    assert_eq!(emerging_label(&g, &vec![fixed(0.3), fixed(0.9)]), None);
}

#[test]
fn long_labels_are_inherited_in_part() {
    let long = "ä".repeat(60);
    let g = space(&[&long]);
    let expected = format!("{}·convergence", "ä".repeat(40));
    assert_eq!(emerging_label(&g, &vec![fixed(0.3)]), Some(expected));
}

#[test]
fn emergence_is_bounded() {
    let mut g = space(&["a", "b", "c", "d", "e", "f", "g"]);
    let mut count = 0;
    for i in 0..7 {
        let n = g.entity_count();
        let mut d = vec![fixed(0.9); n];
        d[i] = fixed(0.3);
        if emerge(&mut g, &d, 2, vec![1]).is_some() {
            count += 1;
        }
    }
    assert_eq!(count, EMERGENCE_LIMIT);
    assert_eq!(EMERGENCE_LIMIT, 5);
    assert_eq!(g.entity_count(), 12);
}

#[test]
fn what_emerges_is_added_and_announced() {
    let mut g = space(&["oak"]);
    let e = emerge_at(&mut g, &vec![fixed(0.5)], 3, vec![7, 8], 99, at(60)).unwrap();
    assert_eq!(e.event.kind, "emergence");
    assert_eq!(e.event.label, "oak·convergence");
    assert_eq!(e.event.detail, Some("3 converging".to_string()));
    assert_eq!(e.entity.id, 99);
    assert_eq!(e.entity.kind, EntityKind::Event);
    assert_eq!(e.entity.embedding, Some(vec![7, 8]));
    assert_eq!(e.entity.activity_vec, Some(vec![7, 8]));
    assert_eq!(e.entity.last_active, at(60));
    assert_eq!(g.get_entity(&99).unwrap().label, "oak·convergence");
    assert!(emerge_at(&mut g, &vec![0, 0], 3, vec![7], 100, at(60)).is_none());
    assert_eq!(g.entity_count(), 2);
}

#[test]
fn people_converge_where_two_are_together() {
    let g = space(&["oak", "elm", "ash"]);
    let p = crowd(3);
    let near = fixed(0.29);
    let far = fixed(0.30);
    let d = vec![vec![near, near, near], vec![near, far, far], vec![far, near, near]];
    let c = detect_convergences(&g, &p, &d, &vec!["ash".to_string()]);
    assert_eq!(c.labels, vec!["oak", "ash"]);
    assert_eq!(c.events.len(), 1);
    assert_eq!(c.events[0].kind, "convergence");
    assert_eq!(c.events[0].label, "oak");
    assert_eq!(c.events[0].detail, Some("3 present".to_string()));
    let again = detect_convergences(&g, &p, &d, &c.labels);
    assert!(again.events.is_empty());
    assert_eq!(again.labels, c.labels);
}

#[test]
fn one_alone_converges_with_nobody() {
    let g = space(&["oak"]);
    let c = detect_convergences(&g, &crowd(1), &vec![vec![0]], &vec!["oak".to_string()]);
    assert!(c.events.is_empty());
    assert!(c.labels.is_empty());
}

#[test]
fn vectors_of_other_sizes_are_never_together() {
    let mut g = SpaceGraph::new();
    let mut e = Entity::new_at(EntityKind::Event, "oak", 1, at(0));
    e.embedding = Some(vec![1]);
    g.add_entity(e);
    g.add_entity(Entity::new_at(EntityKind::Event, "void", 2, at(0)));
    let c = detect_convergences(&g, &crowd(2), &vec![vec![0, 0], vec![0, 0]], &vec![]);
    assert!(c.labels.is_empty());
}

#[test]
fn a_label_borne_twice_is_listed_once() {
    let g = space(&["oak", "oak"]);
    let c = detect_convergences(&g, &crowd(2), &vec![vec![0, 0], vec![0, 0]], &vec![]);
    assert_eq!(c.labels, vec!["oak"]);
    assert_eq!(c.events.len(), 2);
}
