use golden_core::activity::Activity;
use golden_core::graph::{Entity, EntityKind, SpaceGraph};
use golden_core::host::HostAddress;
use golden_core::identity::Identity;
use golden_core::request::{
    client_address, client_text, default_entities, found_entity, found_entity_at, met_entities,
    missing_entity, missing_identity, post_encounter, post_encounter_at, post_entity,
    post_entity_on, prepare_message, summarize_entities, summarize_entity, EncounterError,
    EncounterRequest, EntityRequest, Header, PostError, RequestError,
};
use golden_core::stamp::{Timestamp, FIRST_SECOND, LAST_SECOND};

fn at(secs: i64) -> Timestamp {
    Timestamp { secs, nanos: 0 }
}

fn asked(label: &str, text: Option<&str>, duration: Option<i64>) -> EntityRequest {
    EntityRequest {
        label: label.to_string(),
        kind: None,
        text: text.map(|t| t.to_string()),
        duration,
    }
}

fn report(labels: usize, text: usize) -> EncounterRequest {
    EncounterRequest {
        user_id: 1,
        position: "plaza".to_string(),
        near_labels: vec!["l".to_string(); labels],
        interest_text: "x".repeat(text),
    }
}

#[test]
fn labels_are_limited_by_characters() {
    assert!(asked(&"ä".repeat(120), None, None).check().is_ok());
    let e = asked(&"ä".repeat(121), None, None).check().unwrap_err();
    assert_eq!(e, RequestError::LabelTooLong);
    assert_eq!(e.message(), "label too long (max 120 chars)");
}

#[test]
fn texts_are_limited_by_bytes() {
    assert!(asked("a", Some(&"x".repeat(4000)), None).check().is_ok());
    assert!(asked("a", Some(&"ä".repeat(2000)), None).check().is_ok());
    let e = asked("a", Some(&"ä".repeat(2001)), None).check().unwrap_err();
    assert_eq!(e, RequestError::TextTooLong);
    assert_eq!(e.message(), "text too long (max 4000 bytes)");
}

#[test]
fn the_label_serves_as_text() {
    assert_eq!(asked("oak", None, None).seed(), "oak");
    assert_eq!(asked("oak", Some("a tree"), None).seed(), "a tree");
    assert_eq!(asked("oak", Some(""), None).seed(), "");
}

#[test]
fn a_new_entity_is_a_service_without_end() {
    let e = asked("oak", None, None).found_at(vec![1, 2], 7, at(60));
    assert_eq!(e.id, 7);
    assert_eq!(e.kind, EntityKind::Service);
    assert_eq!(e.label, "oak");
    assert_eq!(e.embedding, Some(vec![1, 2]));
    assert_eq!(e.activity_vec, Some(vec![1, 2]));
    assert_eq!(e.last_active, at(60));
    assert_eq!(e.expires_at, None);
}

#[test]
fn a_new_entity_can_have_a_kind_and_an_end() {
    let mut r = asked("fair", None, Some(48 * 3600));
    r.kind = Some(EntityKind::Event);
    let e = r.found_at(vec![], 7, Timestamp { secs: 60, nanos: 5 });
    assert_eq!(e.kind, EntityKind::Event);
    assert_eq!(e.expires_at, Some(Timestamp { secs: 60 + 48 * 3600, nanos: 5 }));
    let gone = asked("past", None, Some(-60)).found_at(vec![], 7, at(100));
    assert_eq!(gone.expires_at, Some(at(40)));
}

#[test]
fn an_end_beyond_all_dates_is_refused() {
    assert!(asked("oak", None, Some(i64::MAX)).found(vec![]).is_none());
    assert!(asked("oak", None, Some(i64::MIN)).found(vec![]).is_none());
    let e = asked("oak", None, Some(3600)).found(vec![4]).unwrap();
    assert_eq!(e.expires_at.unwrap().secs, e.last_active.secs + 3600);
    assert_eq!(e.embedding, Some(vec![4]));
}

#[test]
fn an_entity_is_made_as_long_as_its_end_has_a_date() {
    let at_last = at(LAST_SECOND - 60);
    let e = asked("oak", None, Some(60)).found_on(vec![1], 7, at_last).unwrap();
    assert_eq!(e.expires_at, Some(at(LAST_SECOND)));
    assert_eq!(e.id, 7);
    assert_eq!(e.last_active, at_last);
    assert!(asked("oak", None, Some(61)).found_on(vec![1], 7, at_last).is_none());
    let at_first = at(FIRST_SECOND + 60);
    let e = asked("oak", None, Some(-60)).found_on(vec![1], 7, at_first).unwrap();
    assert_eq!(e.expires_at, Some(at(FIRST_SECOND)));
    assert!(asked("oak", None, Some(-61)).found_on(vec![1], 7, at_first).is_none());
    assert!(asked("oak", None, None).found_on(vec![1], 7, at_last).unwrap().expires_at.is_none());
    assert!(asked("oak", None, Some(FIRST_SECOND)).found(vec![1]).is_some());
    assert!(asked("oak", None, None).found(vec![1]).is_some());
    assert_eq!(summarize_entity(&e).expires_at, Some("-262143-01-01T00:00:00+00:00".to_string()));
}

#[test]
fn posting_keeps_labels_unique() {
    let mut g = SpaceGraph::new();
    let a = post_entity_on(&mut g, &asked("oak", None, None), vec![1], 1, at(10)).unwrap();
    assert_eq!(a.summary.label, "oak");
    assert_eq!(a.summary.last_active, "1970-01-01T00:00:10+00:00");
    post_entity_on(&mut g, &asked("elm", None, None), vec![2], 2, at(10)).unwrap();
    g.add_relation(1, 2, 5);
    let b = post_entity_on(&mut g, &asked("oak", None, Some(60)), vec![3], 3, at(20)).unwrap();
    assert_eq!(b.entity.expires_at, Some(at(80)));
    assert_eq!(g.entity_count(), 2);
    assert_eq!(g.find_label("oak"), Some(0));
    assert_eq!(g.entity_at(0).id, 3);
    assert_eq!(g.entity_at(0).embedding, Some(vec![3]));
    assert!(g.get_entity(&1).is_none());
    assert_eq!(g.get_entity(&3).unwrap().label, "oak");
    assert_eq!(g.shortest_path(3, 2), Some(1));
    let far = asked("ash", None, Some(i64::MAX));
    let refused = post_entity_on(&mut g, &far, vec![], 4, at(20));
    assert_eq!(refused.err(), Some(PostError::NoEnd));
    assert_eq!(g.entity_count(), 2);
    let c = post_entity(&mut g, &asked("ash", None, None), vec![9]).unwrap();
    assert!(c.entity.last_active.secs > 1_600_000_000);
    assert_eq!((c.entity.id >> 76) & 0xf, 4);
    assert_eq!(g.entity_count(), 3);
}

#[test]
fn a_refused_entity_is_not_added() {
    let mut g = SpaceGraph::new();
    post_entity_on(&mut g, &asked("oak", None, None), vec![1], 1, at(10)).unwrap();
    let cases = [
        (asked(&"a".repeat(121), None, None), RequestError::LabelTooLong),
        (asked(&"a".repeat(121), Some(&"x".repeat(4001)), None), RequestError::LabelTooLong),
        (asked("oak", Some(&"x".repeat(4001)), None), RequestError::TextTooLong),
        (asked("oak", Some(&"x".repeat(4001)), Some(i64::MAX)), RequestError::TextTooLong),
    ];
    for (req, expected) in cases {
        let on = post_entity_on(&mut g, &req, vec![2], 2, at(20));
        assert_eq!(on.err(), Some(PostError::Refused(expected)));
        assert_eq!(post_entity(&mut g, &req, vec![2]).err(), Some(PostError::Refused(expected)));
        assert_eq!(g.entity_count(), 1);
        assert_eq!(g.get_entity(&1).unwrap().embedding, Some(vec![1]));
    }
    let longest = asked(&"a".repeat(120), Some(&"x".repeat(4000)), None);
    assert!(post_entity_on(&mut g, &longest, vec![2], 2, at(20)).is_ok());
    assert_eq!(g.entity_count(), 2);
}

#[test]
fn the_space_begins_with_six_entities() {
    let all = default_entities();
    let labels: Vec<&str> = all.iter().map(|x| x.0.as_str()).collect();
    assert_eq!(
        labels,
        vec![
            "wandering_ai",
            "gathering",
            "philosophy_debate",
            "live_coding_session",
            "open_research",
            "ambient_signal"
        ]
    );
    assert_eq!(all[0].1, EntityKind::AI);
    assert_eq!(all[3].1, EntityKind::Event);
    assert_eq!(all[5].1, EntityKind::Service);
    let e = found_entity(all[1].1, labels[1], vec![3]);
    assert_eq!(e.embedding, Some(vec![3]));
    assert_eq!(e.kind, EntityKind::Event);
    assert_eq!(found_entity_at(EntityKind::AI, "x", vec![3], 5, at(1)).id, 5);
}

#[test]
fn entities_are_summarized() {
    let mut e = Entity::new_at(EntityKind::AI, "bot", 0xff, at(86_400));
    e.expires_at = Some(at(90_000));
    let s = summarize_entity(&e);
    assert_eq!(s.id, 0xff);
    assert_eq!(s.label, "bot");
    assert_eq!(s.kind, "AI");
    assert_eq!(s.last_active, "1970-01-02T00:00:00+00:00");
    assert_eq!(s.expires_at, Some("1970-01-02T01:00:00+00:00".to_string()));
    let mut g = SpaceGraph::new();
    g.add_entity(e);
    g.add_entity(Entity::new_at(EntityKind::Human, "ann", 2, at(0)));
    let all = summarize_entities(&g);
    assert_eq!(all.len(), 2);
    assert_eq!(all[1].label, "ann");
    assert_eq!(all[1].expires_at, None);
}

#[test]
fn reports_of_encounters_are_limited() {
    assert!(report(50, 1000).check().is_ok());
    let e = report(51, 0).check().unwrap_err();
    assert_eq!(e, RequestError::TooManyLabels);
    assert_eq!(e.message(), "too many near_labels (max 50)");
    let e = report(0, 1001).check().unwrap_err();
    assert_eq!(e, RequestError::InterestTooLong);
    assert_eq!(e.message(), "interest_text too long (max 1000 bytes)");
}

#[test]
fn those_met_are_found_by_label() {
    let mut g = SpaceGraph::new();
    for (id, label, meaning) in
        [(1, "oak", Some(vec![1])), (2, "void", None), (3, "elm", Some(vec![3])), (4, "oak", Some(vec![4]))]
    {
        let mut e = Entity::new_at(EntityKind::Event, label, id, at(0));
        e.embedding = meaning;
        g.add_entity(e);
    }
    let met = met_entities(&g, &vec!["oak".to_string(), "void".to_string(), "?".to_string()]);
    assert_eq!(met.ids, vec![1, 4]);
    assert_eq!(met.meanings, vec![vec![1], vec![4]]);
}

#[test]
fn messages_are_trimmed_and_limited() {
    let m = prepare_message("  hello\u{3000}\n", Some("\tann ")).unwrap();
    assert_eq!(m.text, "hello");
    assert_eq!(m.author, "ann");
    assert!(prepare_message(" \u{85}\u{a0}\u{2003} ", None).is_none());
    assert!(prepare_message(&"x".repeat(280), None).is_some());
    assert!(prepare_message(&"x".repeat(281), None).is_none());
    assert!(prepare_message(&"ä".repeat(141), None).is_none());
    let again = prepare_message(&m.text, Some(&m.author)).unwrap();
    assert_eq!(again.text, m.text);
}

#[test]
fn white_space_is_what_unicode_says() {
    for n in 0..=0x10ffffu32 {
        if let Some(c) = char::from_u32(n) {
            if c.is_whitespace() {
                assert!(prepare_message(&c.to_string(), None).is_none());
            }
        }
    }
    assert_eq!(prepare_message("\u{200b}", None).unwrap().text, "\u{200b}");
}

#[test]
fn authors_are_named_after_all() {
    assert_eq!(prepare_message("x", None).unwrap().author, "wanderer");
    assert_eq!(prepare_message("x", Some("  ")).unwrap().author, "wanderer");
    let long = prepare_message("x", Some(&"ö".repeat(30))).unwrap();
    assert_eq!(long.author, "ö".repeat(24));
}

#[test]
fn the_outermost_relay_is_believed_first() {
    let text = |s: &str| Header::Text(s.to_string());
    assert_eq!(client_text(&text("1.2.3.4"), &text("5.6.7.8")), Some("1.2.3.4".to_string()));
    assert_eq!(client_text(&Header::Absent, &text(" 5.6.7.8 , 9.9.9.9")), Some("5.6.7.8".to_string()));
    assert_eq!(client_text(&Header::Unreadable, &text("5.6.7.8")), None);
    assert_eq!(client_text(&Header::Absent, &Header::Absent), None);
    assert_eq!(client_text(&text(""), &Header::Absent), Some("".to_string()));
}

#[test]
fn whoever_asks_has_an_address() {
    let text = |s: &str| Header::Text(s.to_string());
    let v4 = HostAddress::V4;
    let local = v4([127, 0, 0, 1]);
    let newer = [0x2001, 0xdb8, 0, 0, 0, 0, 0, 1];
    assert_eq!(client_address(&text("1.2.3.4"), &text("5.6.7.8"), None), v4([1, 2, 3, 4]));
    let forwarded = text("5.6.7.8, 9.9.9.9");
    assert_eq!(client_address(&Header::Absent, &forwarded, None), v4([5, 6, 7, 8]));
    assert_eq!(client_address(&Header::Absent, &Header::Absent, None), local);
    assert_eq!(client_address(&Header::Unreadable, &forwarded, None), local);
    assert_eq!(client_address(&text("1.2.3.400"), &forwarded, None), local);
    assert_eq!(client_address(&text("nowhere"), &forwarded, None), local);
    assert_eq!(
        client_address(&text("2001:db8::1"), &forwarded, Some(newer)),
        HostAddress::V6(newer)
    );
}

fn woods() -> (SpaceGraph, Activity, Identity) {
    let mut g = SpaceGraph::new();
    for (id, label, meaning) in [(1, "oak", Some(vec![7, 8])), (2, "elm", None), (3, "ash", None)] {
        let mut e = Entity::new_at(EntityKind::Event, label, id, at(1));
        e.embedding = meaning;
        g.add_entity(e);
    }
    (g, Activity::new(), Identity::new_at(vec![5, 6], 9, at(2)))
}

fn stroll() -> EncounterRequest {
    EncounterRequest {
        user_id: 9,
        position: "glade".to_string(),
        near_labels: vec!["oak".to_string(), "elm".to_string(), "oak".to_string()],
        interest_text: "trees".to_string(),
    }
}

#[test]
fn an_encounter_changes_space_counts_and_identity() {
    let (mut g, mut a, me) = woods();
    let gathered = vec![vec![3, 4]];
    let r = post_encounter_at(&mut g, &mut a, Some(me), stroll(), &gathered, vec![1, 1], at(50));
    let me = r.unwrap();
    assert_eq!(me.id, 9);
    assert_eq!(me.position, "glade");
    assert_eq!(me.last_seen, at(50));
    assert_eq!(me.created_at, at(2));
    assert_eq!(me.interest_vec, vec![1, 1]);
    assert_eq!(me.history.len(), 1);
    assert_eq!(me.history[0].interest_text, "trees");
    assert_eq!(me.history[0].near_labels, vec!["oak", "elm", "oak"]);
    assert_eq!((a.count("oak"), a.count("elm"), a.count("ash")), (2, 1, 0));
    let oak = g.get_entity(&1).unwrap();
    assert_eq!(oak.activity_vec, Some(vec![3, 4]));
    assert_eq!(oak.last_active, at(50));
    assert_eq!(oak.embedding, Some(vec![7, 8]));
    assert_eq!(g.get_entity(&2).unwrap().activity_vec, None);
    assert_eq!(g.get_entity(&2).unwrap().last_active, at(1));
    let later = post_encounter(&mut g, &mut a, Some(me), stroll(), &gathered, vec![2, 2]).unwrap();
    assert!(later.last_seen.secs > 1_600_000_000);
    assert_eq!(later.history.len(), 2);
    assert_eq!(a.count("oak"), 4);
    assert_eq!(g.get_entity(&1).unwrap().last_active, later.last_seen);
}

#[test]
fn a_refused_encounter_changes_nothing() {
    let (mut g, mut a, me) = woods();
    let cases = [
        (report(51, 0), Some(me.clone()), EncounterError::Refused(RequestError::TooManyLabels)),
        (report(51, 0), None, EncounterError::Refused(RequestError::TooManyLabels)),
        (report(1, 1001), Some(me), EncounterError::Refused(RequestError::InterestTooLong)),
        (stroll(), None, EncounterError::Unknown(9)),
    ];
    for (req, known, expected) in cases {
        let r = post_encounter_at(&mut g, &mut a, known, req, &vec![vec![3]], vec![], at(50));
        assert_eq!(r.err(), Some(expected));
        assert_eq!(a.count("oak") + a.count("elm") + a.count("l"), 0);
        assert_eq!(g.get_entity(&1).unwrap().activity_vec, None);
        assert_eq!(g.get_entity(&1).unwrap().last_active, at(1));
    }
    assert_eq!(
        EncounterError::Unknown(9).message(),
        "identity 00000000-0000-0000-0000-000000000009 not found"
    );
    assert_eq!(
        EncounterError::Refused(RequestError::TooManyLabels).message(),
        "too many near_labels (max 50)"
    );
}

#[test]
fn what_is_missing_is_named() {
    assert_eq!(missing_entity(5), "entity 00000000-0000-0000-0000-000000000005 not found");
    assert_eq!(missing_identity(0xab), "identity 00000000-0000-0000-0000-0000000000ab not found");
}
