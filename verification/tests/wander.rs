use golden_core::distance::Visibility;
use golden_core::field::{DriftSignal, FieldState, ObservedEntity};
use golden_core::fixed::UNIT;
use golden_core::graph::{Entity, EntityKind, SpaceGraph};
use golden_core::presence::Presence;
use golden_core::stamp::Timestamp;
use golden_core::wander::{
    all_meanings, detect_encounters, drift_meanings, fading_entities, near_meanings,
    near_wanderers, origin, step, tick, SpaceEvent, StreamItem,
};

fn at(secs: i64) -> Timestamp {
    Timestamp { secs, nanos: 0 }
}

fn seen(id: u128, label: &str, heading: Option<&str>) -> ObservedEntity {
    ObservedEntity {
        id,
        label: label.to_string(),
        distance: 0,
        visibility: Visibility::Near,
        components: None,
        moving_toward: heading.map(|s| s.to_string()),
    }
}

fn current(toward: &str) -> DriftSignal {
    DriftSignal { toward: toward.to_string(), strength: UNIT }
}

fn space() -> SpaceGraph {
    let mut g = SpaceGraph::new();
    for (id, label, meaning) in
        [(1, "oak", Some(vec![1])), (2, "void", None), (3, "elm", Some(vec![3])), (4, "oak", Some(vec![4]))]
    {
        let mut e = Entity::new_at(EntityKind::Event, label, id, at(0));
        e.embedding = meaning;
        g.add_entity(e);
    }
    g
}

#[test]
fn what_is_near_pulls() {
    let g = space();
    let near = vec![
        seen(3, "elm", None),
        seen(9, "wanderer_1", None),
        seen(8, "oak", Some("elm")),
        seen(2, "void", None),
        seen(7, "nowhere", None),
        seen(4, "oak", None),
    ];
    assert_eq!(near_meanings(&g, &near), vec![vec![3], vec![1]]);
}

#[test]
fn currents_pull() {
    let g = space();
    let drift = vec![current("oak"), current("void"), current("gone"), current("elm")];
    assert_eq!(drift_meanings(&g, &drift), vec![vec![1], vec![3]]);
}

#[test]
fn the_middle_is_made_of_all_meanings() {
    assert_eq!(all_meanings(&space()), vec![vec![1], vec![3], vec![4]]);
    assert_eq!(origin(), vec![0u32; 384]);
}

#[test]
fn a_step_follows_the_strongest_current() {
    let mut p = Presence::new();
    p.connect_at(5, Some("ann".to_string()), vec![1], at(0));
    let mut f = FieldState::new_at("oak, elm", at(1));
    f.drift = vec![current("elm"), current("oak")];
    step(&mut p, 5, &f, vec![2]);
    assert_eq!(p.users[0].spatial_vec, vec![2]);
    assert_eq!(p.users[0].interest_vec, vec![1]);
    assert_eq!(p.users[0].moving_toward, Some("elm".to_string()));
    assert_eq!(p.users[0].position, "oak, elm");
    f.drift = vec![];
    step(&mut p, 5, &f, vec![3]);
    assert_eq!(p.users[0].moving_toward, None);
    step(&mut p, 6, &f, vec![4]);
    assert_eq!(p.users.len(), 1);
    assert_eq!(p.users[0].spatial_vec, vec![3]);
}

#[test]
fn wanderers_are_told_from_entities() {
    let near = vec![
        seen(1, "oak", None),
        seen(2, "wanderer_aa", None),
        seen(3, "ann", Some("oak")),
        seen(4, "bob", None),
        seen(2, "wanderer_aa", None),
    ];
    assert_eq!(near_wanderers(&near), vec![2, 3]);
}

#[test]
fn whoever_comes_near_is_announced_once() {
    let near = vec![seen(2, "wanderer_aa", None), seen(3, "ann", Some("oak"))];
    let ids = near_wanderers(&near);
    let first = detect_encounters(&near, &ids, &vec![]);
    assert_eq!(first.len(), 2);
    assert_eq!(first[0].kind, "encounter");
    assert_eq!(first[0].label, "wanderer_aa");
    assert_eq!(first[0].detail, None);
    assert_eq!(first[1].label, "ann");
    assert_eq!(first[1].detail, Some("oak".to_string()));
    assert!(detect_encounters(&near, &ids, &ids).is_empty());
    let later = detect_encounters(&near, &ids, &vec![2]);
    assert_eq!(later.len(), 1);
    assert_eq!(later[0].label, "ann");
}

#[test]
fn a_tick_tells_events_then_encounters_then_the_field() {
    let happened = |label: &str| SpaceEvent {
        kind: "emergence".to_string(),
        label: label.to_string(),
        detail: None,
    };
    let mut f = FieldState::new_at("oak", at(1));
    f.near = vec![seen(2, "wanderer_aa", None), seen(1, "oak", None), seen(3, "ann", Some("oak"))];
    let t = tick(&vec![happened("x"), happened("y")], f, &vec![3]);
    let told: Vec<String> = t
        .items
        .iter()
        .map(|i| match i {
            StreamItem::Space(e) => format!("{} {}", e.kind, e.label),
            StreamItem::Field(f) => format!("field {}", f.position),
        })
        .collect();
    assert_eq!(told, vec!["emergence x", "emergence y", "encounter wanderer_aa", "field oak"]);
    assert_eq!(t.near, vec![2, 3]);
    let quiet = tick(&vec![], FieldState::new_at("plaza", at(2)), &t.near);
    assert_eq!(quiet.items.len(), 1);
    assert!(matches!(quiet.items[0], StreamItem::Field(_)));
    assert!(quiet.near.is_empty());
}

#[test]
fn interests_fade_where_sizes_agree() {
    let mut g = SpaceGraph::new();
    let pairs = [
        (Some(vec![1, 2]), Some(vec![3, 4])),
        (Some(vec![1]), Some(vec![3, 4])),
        (None, Some(vec![3])),
        (Some(vec![1]), None),
        (Some(vec![5]), Some(vec![6])),
    ];
    for (id, (activity, meaning)) in pairs.into_iter().enumerate() {
        let mut e = Entity::new_at(EntityKind::Event, "x", id as u128, at(0));
        e.activity_vec = activity;
        e.embedding = meaning;
        g.add_entity(e);
    }
    assert_eq!(fading_entities(&g), vec![0, 4]);
}
