use golden_core::activity::Activity;
use golden_core::fixed::UNIT;
use golden_core::identity::{
    blend_members, forgotten_identities, to_summary, Identity, HISTORY_LIMIT,
};
use golden_core::stamp::{elapsed_seconds, Timestamp};

fn at(secs: i64) -> Timestamp {
    Timestamp { secs, nanos: 0 }
}

fn meet(i: &mut Identity, label: &str, secs: i64) {
    i.encounter_at("plaza", vec![label.to_string()], &vec![], "mind".to_string(), vec![], at(secs));
}

#[test]
fn a_new_identity_starts_on_the_plaza() {
    let i = Identity::new(vec![1, 2, 3]);
    assert_eq!(i.position, "plaza");
    assert_eq!(i.interest_vec, vec![1, 2, 3]);
    assert_eq!((i.id >> 76) & 0xf, 4);
    assert_eq!(i.encounter_count(), 0);
    assert_eq!(i.created_at, i.last_seen);
    assert_ne!(i.id, Identity::new(vec![]).id);
}

#[test]
fn an_encounter_is_recorded_and_blended() {
    let mut i = Identity::new_at(vec![1, 2], 9, at(5));
    i.encounter_at(
        "forest",
        vec!["oak".to_string(), "elm".to_string()],
        &vec![vec![3, 4], vec![5]],
        "trees".to_string(),
        vec![8, 9],
        at(6),
    );
    assert_eq!(i.id, 9);
    assert_eq!(i.created_at, at(5));
    assert_eq!(i.last_seen, at(6));
    assert_eq!(i.interest_vec, vec![8, 9]);
    assert_eq!(i.position, "forest");
    assert_eq!(i.history.len(), 1);
    assert_eq!(i.history[0].near_labels, vec!["oak", "elm"]);
    assert_eq!(i.history[0].interest_text, "trees");
    assert_eq!(i.history[0].timestamp, at(6));
}

#[test]
fn nothing_is_blended_where_no_vector_fits() {
    let mut i = Identity::new_at(vec![1, 2], 9, at(5));
    i.encounter_at("x", vec![], &vec![vec![3], vec![]], String::new(), vec![8, 9], at(6));
    assert_eq!(i.interest_vec, vec![1, 2]);
    assert_eq!(i.position, "x");
    assert_eq!(blend_members(&vec![vec![3], vec![1, 2], vec![], vec![4, 5]], 2), vec![1, 3]);
}

#[test]
fn an_encounter_now_uses_the_clock() {
    let mut i = Identity::new_at(vec![1], 9, at(5));
    i.encounter("y", vec!["a".to_string()], &vec![], "t".to_string(), vec![]);
    assert!(i.last_seen.secs > 1_600_000_000);
    assert_eq!(i.history[0].timestamp, i.last_seen);
}

#[test]
fn only_the_most_recent_encounters_are_remembered() {
    let mut i = Identity::new_at(vec![], 9, at(0));
    for k in 0..(HISTORY_LIMIT as i64 + 3) {
        meet(&mut i, "l", k);
    }
    assert_eq!(HISTORY_LIMIT, 200);
    assert_eq!(i.encounter_count(), 200);
    assert_eq!(i.history[0].timestamp, at(3));
    assert_eq!(i.history[199].timestamp, at(202));
}

#[test]
fn meetings_bring_an_entity_closer() {
    let mut i = Identity::new_at(vec![], 9, at(0));
    assert_eq!(i.relational_dist("oak"), UNIT);
    meet(&mut i, "oak", 1);
    assert_eq!(i.relational_dist("oak"), UNIT / 2);
    meet(&mut i, "elm", 2);
    assert_eq!(i.relational_dist("oak"), UNIT / 2);
    meet(&mut i, "oak", 3);
    assert_eq!(i.relational_dist("oak"), UNIT / 3);
}

#[test]
fn a_label_twice_in_one_encounter_counts_once() {
    let mut i = Identity::new_at(vec![], 9, at(0));
    let labels = vec!["oak".to_string(), "oak".to_string()];
    i.encounter_at("p", labels, &vec![], String::new(), vec![], at(1));
    assert_eq!(i.relational_dist("oak"), UNIT / 2);
}

#[test]
fn absorption_needs_something_that_fits() {
    let mut i = Identity::new_at(vec![1, 2], 9, at(0));
    i.passive_absorb_at(&vec![vec![3]], "forest", vec![8, 8], at(1));
    assert_eq!(i.interest_vec, vec![1, 2]);
    assert_eq!(i.position, "plaza");
    assert_eq!(i.last_seen, at(0));
    i.passive_absorb_at(&vec![vec![3], vec![4, 5]], "forest", vec![8, 8], at(1));
    assert_eq!(i.interest_vec, vec![8, 8]);
    assert_eq!(i.position, "forest");
    assert_eq!(i.last_seen, at(1));
    assert_eq!(i.encounter_count(), 0);
    i.passive_absorb(&vec![vec![4, 5]], "cave", vec![7, 7]);
    assert_eq!(i.position, "cave");
    assert!(i.last_seen.secs > 1_600_000_000);
}

#[test]
fn only_a_passive_look_is_absorbed() {
    let mut i = Identity::new_at(vec![1, 2], 9, at(0));
    for passive in [None, Some(false)] {
        assert!(!i.look_at(passive, &vec![vec![4, 5]], "forest", vec![8, 8], at(1)));
        assert_eq!(i.interest_vec, vec![1, 2]);
        assert_eq!(i.position, "plaza");
    }
    assert!(i.look_at(Some(true), &vec![vec![4, 5]], "forest", vec![8, 8], at(1)));
    assert_eq!(i.interest_vec, vec![8, 8]);
    assert_eq!(i.position, "forest");
    assert_eq!(i.last_seen, at(1));
}

#[test]
fn a_summary_shows_the_first_coordinates() {
    let i = Identity::new_at((0..20).collect(), 0xabc, at(86_400));
    let s = to_summary(&i);
    assert_eq!(s.id, 0xabc);
    assert_eq!(s.created_at, "1970-01-02T00:00:00+00:00");
    assert_eq!(s.last_seen, "1970-01-02T00:00:00+00:00");
    assert_eq!(s.position, "plaza");
    assert_eq!(s.encounter_count, 0);
    assert_eq!(s.interest_preview, vec![0, 1, 2, 3, 4, 5, 6, 7]);
    let short = to_summary(&Identity::new_at(vec![5], 1, at(0)));
    assert_eq!(short.interest_preview, vec![5]);
}

#[test]
fn meetings_are_counted_by_label() {
    let mut a = Activity::new();
    assert_eq!(a.largest_count(), 1);
    assert_eq!(a.count("oak"), 0);
    a.record("oak");
    let more = vec!["oak".to_string(), "elm".to_string(), "oak".to_string()];
    a.record_all(&more);
    assert_eq!(a.count("oak"), 3);
    assert_eq!(a.count("elm"), 1);
    assert_eq!(a.largest_count(), 3);
}

#[test]
fn elapsed_time_is_never_negative() {
    assert_eq!(elapsed_seconds(at(100), at(40)), 60);
    assert_eq!(elapsed_seconds(at(40), at(100)), 0);
    let late = Timestamp { secs: 41, nanos: 0 };
    let early = Timestamp { secs: 40, nanos: 1 };
    assert_eq!(elapsed_seconds(late, early), 0);
}

#[test]
fn points_in_time_are_ordered() {
    let a = Timestamp { secs: 1, nanos: 5 };
    let b = Timestamp { secs: 1, nanos: 6 };
    let c = Timestamp { secs: 2, nanos: 0 };
    assert!(a.is_before(&b) && b.is_before(&c) && a.is_before(&c));
    assert!(!a.is_before(&a));
    assert!(a.sort_key() < b.sort_key() && b.sort_key() < c.sort_key());
    assert!(!Timestamp { secs: i64::MAX, nanos: 0 }.is_valid());
    assert!(Timestamp { secs: 59, nanos: 1_500_000_000 }.is_valid());
    assert!(!Timestamp { secs: 58, nanos: 1_500_000_000 }.is_valid());
}

#[test]
fn the_unseen_are_forgotten_after_thirty_days() {
    let month = 30 * 24 * 60 * 60;
    let seen = |id: u128, secs: i64, nanos: u32| {
        Identity::new_at(vec![], id, Timestamp { secs, nanos })
    };
    let at = Timestamp { secs: month + 100, nanos: 5 };
    let all = vec![seen(1, 99, 9), seen(2, 100, 5), seen(3, 100, 6), seen(4, 101, 0)];
    assert_eq!(forgotten_identities(&all, at), vec![1, 2]);
    assert!(all[1].is_forgotten(at) && !all[2].is_forgotten(at));
    let later = Timestamp { secs: month + 101, nanos: 0 };
    assert_eq!(forgotten_identities(&all, later), vec![1, 2, 3, 4]);
    assert!(!all[3].is_forgotten(all[3].last_seen));
}
