use golden_core::identity::Identity;
use golden_core::presence::{arrive, arrive_at, is_off_origin, viewpoint, Presence};
use golden_core::stamp::Timestamp;

fn at(secs: i64) -> Timestamp {
    Timestamp { secs, nanos: 0 }
}

fn crowd() -> Presence {
    let mut p = Presence::new();
    p.connect_at(1, Some("ann".to_string()), vec![1, 2], at(10));
    p.connect_at(2, None, vec![3, 4], at(20));
    p
}

#[test]
fn a_visitor_starts_on_the_plaza() {
    let p = crowd();
    assert_eq!(p.users.len(), 2);
    let u = &p.users[0];
    assert_eq!(u.id, 1);
    assert_eq!(u.name, "ann");
    assert_eq!(u.interest_vec, vec![1, 2]);
    assert_eq!(u.spatial_vec, vec![1, 2]);
    assert_eq!(u.moving_toward, None);
    assert_eq!(u.position, "plaza");
    assert_eq!(u.last_seen, at(10));
    assert_eq!(p.users[1].name, "");
    assert_eq!(p.find(2), Some(1));
    assert_eq!(p.find(3), None);
}

#[test]
fn connecting_again_starts_over() {
    let mut p = crowd();
    p.follow(1, vec![9, 9], Some("oak".to_string()), "forest".to_string());
    assert_eq!(p.users[0].spatial_vec, vec![9, 9]);
    assert_eq!(p.users[0].moving_toward, Some("oak".to_string()));
    assert_eq!(p.users[0].position, "forest");
    assert_eq!(p.users[0].interest_vec, vec![1, 2]);
    p.connect_at(1, Some("anne".to_string()), vec![5], at(30));
    assert_eq!(p.users.len(), 2);
    assert_eq!(p.users[0].name, "anne");
    assert_eq!(p.users[0].position, "plaza");
    assert_eq!(p.users[0].moving_toward, None);
    p.join(Some(3), None, vec![]);
    assert!(p.users[2].last_seen.secs > 1_600_000_000);
}

#[test]
fn a_copy_shows_who_was_there() {
    let mut p = crowd();
    let q = p.clone();
    p.connect_at(3, None, vec![], at(30));
    p.follow(1, vec![9, 9], Some("oak".to_string()), "forest".to_string());
    assert_eq!(q.users.len(), 2);
    assert_eq!(q.users[0].name, "ann");
    assert_eq!(q.users[0].spatial_vec, vec![1, 2]);
    assert_eq!(q.users[0].moving_toward, None);
    assert_eq!(q.users[1].last_seen, at(20));
    assert_eq!(q.find(2), Some(1));
}

#[test]
fn whoever_joins_is_someone() {
    let mut p = crowd();
    assert_eq!(p.join_at(Some(2), Some("bob".to_string()), vec![5], 77, at(30)), 2);
    assert_eq!(p.users[1].name, "bob");
    assert_eq!(p.join_at(None, None, vec![6], 77, at(30)), 77);
    assert_eq!(p.users[2].id, 77);
    assert_eq!(p.join(Some(1), None, vec![]), 1);
    let id = p.join(None, None, vec![]);
    assert_eq!(p.users[3].id, id);
    assert_eq!((id >> 76) & 0xf, 4);
    assert!(p.users[3].last_seen.secs > 1_600_000_000);
}

#[test]
fn entering_again_changes_nothing() {
    let mut p = crowd();
    p.enter_at(1, Some("eve".to_string()), vec![8], at(99));
    assert_eq!(p.users[0].name, "ann");
    assert_eq!(p.users[0].last_seen, at(10));
    p.enter_at(5, Some("eve".to_string()), vec![8], at(99));
    assert_eq!(p.users.len(), 3);
    assert_eq!(p.users[2].name, "eve");
}

#[test]
fn those_who_are_not_seen_leave() {
    let mut p = crowd();
    p.connect_at(3, None, vec![], at(15));
    p.touch(1, at(40));
    p.touch(9, at(40));
    assert_eq!(p.retain_seen_after(at(15)), 1);
    let ids: Vec<u128> = p.users.iter().map(|u| u.id).collect();
    assert_eq!(ids, vec![1, 2]);
    assert_eq!(p.retain_seen_after(at(40)), 2);
    assert!(p.users.is_empty());
}

#[test]
fn fifteen_seconds_of_silence_are_enough() {
    let mut p = crowd();
    assert_eq!(p.drop_stale_at(at(25)), 1);
    assert_eq!(p.users[0].id, 2);
    assert_eq!(p.drop_stale_at(at(34)), 0);
    assert_eq!(p.drop_stale_at(at(35)), 1);
    p.join(Some(5), None, vec![]);
    p.connect_at(6, None, vec![], at(0));
    assert_eq!(p.drop_stale(), 1);
    assert_eq!(p.users[0].id, 5);
}

#[test]
fn both_zeros_lie_at_the_origin() {
    assert!(!is_off_origin(&vec![]));
    assert!(!is_off_origin(&vec![0.0f32.to_bits(), (-0.0f32).to_bits()]));
    assert!(is_off_origin(&vec![0, 1]));
    assert!(is_off_origin(&vec![f32::NAN.to_bits()]));
}

#[test]
fn one_sees_from_where_one_has_drifted_to() {
    let mut p = crowd();
    let i = Identity::new_at(vec![6, 6], 1, at(0));
    assert_eq!(viewpoint(&p, Some(1), Some(&i), vec![7]), vec![1, 2]);
    p.follow(1, vec![0, 0], None, "x".to_string());
    assert_eq!(viewpoint(&p, Some(1), Some(&i), vec![7]), vec![6, 6]);
    assert_eq!(viewpoint(&p, Some(9), None, vec![7]), vec![7]);
    assert_eq!(viewpoint(&p, None, None, vec![7]), vec![7]);
}

#[test]
fn a_known_identity_goes_on() {
    let mut p = crowd();
    let i = Identity::new_at(vec![6, 6], 44, at(0));
    let a = arrive_at(&mut p, Some(i), vec![7], Some("kim".to_string()), 50, at(60));
    assert!(!a.created);
    assert_eq!(a.identity.id, 44);
    assert_eq!(p.users[2].id, 44);
    assert_eq!(p.users[2].name, "kim");
    assert_eq!(p.users[2].spatial_vec, vec![6, 6]);
    assert_eq!(p.users[2].last_seen, at(60));
}

#[test]
fn a_stranger_starts_in_the_middle() {
    let mut p = crowd();
    let a = arrive_at(&mut p, None, vec![7, 7], None, 50, at(60));
    assert!(a.created);
    assert_eq!(a.identity.id, 50);
    assert_eq!(a.identity.interest_vec, vec![7, 7]);
    assert_eq!(a.identity.created_at, at(60));
    assert_eq!(p.users[2].interest_vec, vec![7, 7]);
    let b = arrive(&mut p, None, vec![7, 7], None);
    assert!(b.created);
    assert_ne!(b.identity.id, 50);
    assert_eq!(p.users.len(), 4);
}
