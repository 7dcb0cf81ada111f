use golden_core::activity::Activity;
use golden_core::distance::{DistanceWeights, Visibility};
use golden_core::field::{
    compute_field_state, drift, message_labels, sort_observed, DriftSignal, FieldState,
    ObservedEntity, Reading, Surroundings, UserReading,
};
use golden_core::fixed::{NEUTRAL, UNIT};
use golden_core::graph::{Entity, EntityKind, SpaceGraph};
use golden_core::identity::Identity;
use golden_core::presence::Presence;
use golden_core::stamp::Timestamp;

fn at(secs: i64) -> Timestamp {
    Timestamp { secs, nanos: 0 }
}

fn fixed(x: f64) -> i64 {
    (x * UNIT as f64).round() as i64
}

fn entity(id: u128, label: &str) -> Entity {
    let mut e = Entity::new_at(EntityKind::Event, label, id, at(0));
    e.embedding = Some(vec![id as u32]);
    e
}

fn seen(label: &str, distance: i64) -> ObservedEntity {
    ObservedEntity {
        id: 1,
        label: label.to_string(),
        distance,
        visibility: Visibility::Near,
        components: None,
        moving_toward: None,
    }
}

struct World {
    graph: SpaceGraph,
    readings: Vec<Reading>,
    presence: Presence,
    user_readings: Vec<UserReading>,
    activity: Activity,
}

impl World {
    fn new() -> World {
        World {
            graph: SpaceGraph::new(),
            readings: vec![],
            presence: Presence::new(),
            user_readings: vec![],
            activity: Activity::new(),
        }
    }

    fn entity(&mut self, id: u128, label: &str, semantic: f64, temporal: f64) {
        self.graph.add_entity(entity(id, label));
        self.readings.push(Reading { semantic: fixed(semantic), temporal: fixed(temporal) });
    }

    fn user(&mut self, id: u128, name: &str, semantic: f64, attention: f64) {
        self.presence.connect_at(id, Some(name.to_string()), vec![id as u32], at(0));
        self.user_readings.push(UserReading {
            semantic: fixed(semantic),
            attention: fixed(attention),
        });
    }

    fn around<'a>(&'a self, viewer: Option<u128>, identity: Option<&'a Identity>) -> Surroundings<'a> {
        Surroundings {
            graph: &self.graph,
            readings: &self.readings,
            presence: &self.presence,
            user_readings: &self.user_readings,
            activity: &self.activity,
            viewer,
            identity,
            weights: DistanceWeights::default(),
            at: at(1000),
        }
    }
}

fn labels(v: &Vec<ObservedEntity>) -> Vec<String> {
    v.iter().map(|o| o.label.clone()).collect()
}

#[test]
fn an_empty_space_is_a_plaza() {
    let w = World::new();
    let sight = compute_field_state(&w.around(None, None), None, None);
    let f = sight.field;
    assert_eq!(f.position, "plaza");
    assert_eq!(f.presence, 0);
    assert_eq!(f.density, 0);
    assert!(f.near.is_empty() && f.horizon.is_empty() && f.drift.is_empty());
    assert_eq!(f.thresholds, [fixed(0.35), fixed(0.65)]);
    assert_eq!(f.timestamp, at(1000));
    assert!(f.messages.is_empty());
    assert!(sight.near_embeddings.is_empty());
}

#[test]
fn a_fresh_field_is_empty() {
    let f = FieldState::new("forest");
    assert_eq!(f.position, "forest");
    assert_eq!(f.thresholds, [fixed(0.35), fixed(0.65)]);
    assert!(f.timestamp.secs > 1_600_000_000);
    let g = FieldState::new_at("cave", at(5));
    assert_eq!(g.timestamp, at(5));
    assert_eq!(g.density, 0);
}

#[test]
fn something_not_yet_seen_is_beyond() {
    let o = ObservedEntity::default();
    assert_eq!(o.label, "");
    assert_eq!(o.distance, UNIT);
    assert_eq!(o.visibility, Visibility::Beyond);
    assert!(o.components.is_none());
    assert!(o.moving_toward.is_none());
    assert_eq!((o.id >> 76) & 0xf, 4);
    assert_ne!(o.id, ObservedEntity::default().id);
}

#[test]
fn density_weighs_near_and_horizon() {
    let mut f = FieldState::new_at("x", at(0));
    f.compute_density();
    assert_eq!(f.density, 0);
    f.near = vec![seen("a", 0), seen("b", 0)];
    f.horizon = vec![seen("c", 0), seen("d", 0), seen("e", 0)];
    f.compute_density();
    assert_eq!(f.density, UNIT * 32 / 150);
    let before = f.density;
    f.near.push(seen("c", 0));
    f.horizon.pop();
    f.compute_density();
    assert!(f.density >= before);
}

#[test]
fn components_are_worked_out_for_each_entity() {
    let mut w = World::new();
    w.entity(1, "oak", 0.4, 0.1);
    w.entity(2, "elm", 0.8, 0.6);
    w.graph.add_relation(1, 2, UNIT);
    w.activity.record("oak");
    let mut me = Identity::new_at(vec![], 9, at(0));
    me.encounter_at("p", vec!["elm".to_string()], &vec![], String::new(), vec![], at(1));
    let mut f = compute_field_state(&w.around(None, Some(&me)), None, Some(UNIT)).field;
    assert_eq!(labels(&f.near), vec!["oak"]);
    assert_eq!(labels(&f.horizon), vec!["elm"]);
    let oak = [fixed(0.4), fixed(0.75), fixed(0.5), fixed(0.1), NEUTRAL];
    let elm = [fixed(0.8), NEUTRAL, NEUTRAL, fixed(0.6), fixed(0.5)];
    assert_eq!(f.near[0].components, Some(oak));
    assert_eq!(f.horizon[0].components, Some(elm));
    assert_eq!(f.near[0].distance, fixed(0.1 + 0.15 + 0.1 + 0.015 + 0.1));
    assert_eq!(f.horizon[0].distance, fixed(0.2 + 0.1 + 0.1 + 0.09 + 0.1));
    assert_eq!(f.near[0].visibility, Visibility::Near);
    assert_eq!(f.horizon[0].visibility, Visibility::Horizon);
    assert_eq!(f.position, "oak");
    assert_eq!(f.presence, 2);
    assert_eq!(f.density, UNIT * 14 / 120);
    assert_eq!(f.thresholds, [f.near[0].distance, f.horizon[0].distance]);
    f.drift = vec![DriftSignal { toward: "ash".to_string(), strength: 7 }];
    let g = f.clone();
    assert_eq!(labels(&g.near), labels(&f.near));
    assert_eq!(g.horizon[0].components, f.horizon[0].components);
    assert_eq!((g.position, g.density, g.presence), (f.position, f.density, f.presence));
    assert_eq!(g.drift.len(), f.drift.len());
    assert_eq!((g.drift[0].toward.as_str(), g.drift[0].strength), ("ash", 7));
    assert_eq!((g.thresholds, g.timestamp), (f.thresholds, f.timestamp));
}

#[test]
fn encounters_bring_an_entity_closer() {
    let mut w = World::new();
    w.entity(1, "oak", 0.4, 0.1);
    let mut me = Identity::new_at(vec![], 9, at(0));
    let mut before = NEUTRAL;
    for expected in [NEUTRAL, NEUTRAL, UNIT / 3, UNIT / 4] {
        let f = compute_field_state(&w.around(None, Some(&me)), None, None).field;
        let attention = f.near[0].components.unwrap()[4];
        assert_eq!(attention, expected);
        assert!(attention <= before);
        before = attention;
        me.encounter_at("p", vec!["oak".to_string()], &vec![], String::new(), vec![], at(1));
    }
    assert_eq!(me.meeting_count("oak"), 4);
    assert_eq!(me.meeting_count("elm"), 0);
    assert_eq!(me.relational_dist("elm"), UNIT);
}

#[test]
fn readings_count_between_zero_and_one() {
    let mut w = World::new();
    w.entity(1, "oak", 1.7, -0.3);
    w.user(2, "ann", -0.5, 1.9);
    let f = compute_field_state(&w.around(None, None), Some(UNIT), Some(UNIT)).field;
    let parts = |label: &str| f.near.iter().find(|o| o.label == label).unwrap().components.unwrap();
    assert_eq!(parts("oak"), [UNIT, NEUTRAL, NEUTRAL, 0, NEUTRAL]);
    assert_eq!(parts("ann"), [0, NEUTRAL, NEUTRAL, 0, UNIT]);
}

#[test]
fn an_entity_without_meaning_is_neutral() {
    let mut w = World::new();
    w.graph.add_entity(Entity::new_at(EntityKind::Event, "void", 1, at(0)));
    w.readings.push(Reading { semantic: 0, temporal: 0 });
    let sight = compute_field_state(&w.around(None, None), None, None);
    let parts = sight.field.near[0].components.unwrap();
    assert_eq!(parts, [NEUTRAL, NEUTRAL, NEUTRAL, 0, NEUTRAL]);
    assert!(sight.near_embeddings.is_empty());
}

#[test]
fn expired_entities_are_not_seen() {
    let mut w = World::new();
    for (id, end) in [(1, Some(at(999))), (2, Some(at(1000))), (3, Some(at(1001))), (4, None)] {
        let mut e = entity(id, &format!("e{}", id));
        e.expires_at = end;
        w.graph.add_entity(e);
        w.readings.push(Reading { semantic: 0, temporal: 0 });
    }
    let f = compute_field_state(&w.around(None, None), None, None).field;
    assert_eq!(labels(&f.near), vec!["e3", "e4"]);
    assert_eq!(f.position, "e3, e4");
}

#[test]
fn others_are_seen_and_oneself_is_not() {
    let mut w = World::new();
    w.user(0x1234_5678_0000_4000_8000_0000_0000_0001, "", 0.2, 0.2);
    w.user(2, "ann", 0.1, 0.3);
    w.presence.follow(2, vec![], Some("oak".to_string()), "x".to_string());
    let f = compute_field_state(&w.around(Some(2), None), None, None).field;
    assert_eq!(labels(&f.near), vec!["wanderer_12345678"]);
    assert_eq!(f.near[0].components, Some([fixed(0.2), NEUTRAL, NEUTRAL, 0, fixed(0.2)]));
    let g = compute_field_state(&w.around(None, None), Some(UNIT), Some(UNIT));
    assert_eq!(labels(&g.field.near), vec!["ann", "wanderer_12345678"]);
    assert_eq!(g.field.near[0].moving_toward, Some("oak".to_string()));
    assert_eq!(g.near_embeddings, vec![vec![1], vec![2]]);
    assert_eq!(message_labels(&g.field.near), vec!["ann"]);
}

#[test]
fn depth_runs_from_near_to_beyond() {
    let mut w = World::new();
    for (i, s) in [0.9, 0.1, 0.5, 0.3, 0.7].into_iter().enumerate() {
        w.entity(i as u128 + 1, &format!("e{}", i), s, 0.0);
    }
    let f = compute_field_state(&w.around(None, None), None, None).field;
    assert_eq!(labels(&f.near), vec!["e1", "e3"]);
    assert_eq!(labels(&f.horizon), vec!["e2", "e4"]);
    for o in &f.near {
        assert!(o.distance <= f.thresholds[0]);
    }
    for o in &f.horizon {
        assert!(f.thresholds[0] < o.distance && o.distance <= f.thresholds[1]);
    }
}

#[test]
fn the_space_flows_to_what_is_met_most() {
    let mut a = Activity::new();
    for (label, n) in [("b", 4), ("c", 1), ("d", 4), ("e", 2)] {
        for _ in 0..n {
            a.record(label);
        }
    }
    let horizon: Vec<ObservedEntity> =
        ["a", "b", "c", "d", "e"].into_iter().map(|l| seen(l, 0)).collect();
    let d = drift(&horizon, &a);
    let toward: Vec<&str> = d.iter().map(|s| s.toward.as_str()).collect();
    assert_eq!(toward, vec!["b", "d", "e"]);
    assert_eq!(d[0].strength, UNIT);
    assert_eq!(d[1].strength, UNIT);
    assert_eq!(d[2].strength, UNIT / 2);
    assert!(drift(&horizon, &Activity::new()).is_empty());
}

#[test]
fn what_is_seen_is_sorted_stably() {
    let all = vec![seen("a", 2), seen("b", 1), seen("c", 2), seen("d", 1)];
    assert_eq!(labels(&sort_observed(&all)), vec!["b", "d", "a", "c"]);
}
