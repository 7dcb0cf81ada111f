use golden_core::graph::{Entity, EntityKind};
use golden_core::stamp::{Timestamp, FIRST_SECOND, LAST_SECOND};
use golden_core::store::{
    cutoff, cutoff_at, cutoff_on, entities_from_rows, entity_from_row, entity_row, kind_from_name, kind_name,
    load_all_entities, load_messages, message_from_row, message_row, new_message_row, node_id,
    peer_row, peers_from_rows, settle_node_id, sort_messages, EntityRow, MessageRow, StoredEntity,
};

fn at(secs: i64) -> Timestamp {
    Timestamp { secs, nanos: 0 }
}

const ID: u128 = 0x0123_4567_89ab_4def_8123_4567_89ab_cdef;
const ID_TEXT: &str = "01234567-89ab-4def-8123-456789abcdef";

fn row(id: &str, last_active: &str) -> EntityRow {
    EntityRow {
        id: id.to_string(),
        label: "oak".to_string(),
        kind: "Stream".to_string(),
        embedding: "[1.0]".to_string(),
        activity_vec: None,
        last_active: last_active.to_string(),
        expires_at: Some("never".to_string()),
    }
}

#[test]
fn kinds_are_named() {
    let all = [
        (EntityKind::Human, "Human"),
        (EntityKind::AI, "AI"),
        (EntityKind::Service, "Service"),
        (EntityKind::Stream, "Stream"),
        (EntityKind::Event, "Event"),
        (EntityKind::Data, "Data"),
    ];
    for (kind, name) in all {
        assert_eq!(kind_name(kind), name);
    }
}

#[test]
fn stored_kinds_settle() {
    assert_eq!(kind_from_name("Human"), EntityKind::Human);
    assert_eq!(kind_from_name("AI"), EntityKind::AI);
    assert_eq!(kind_from_name("Event"), EntityKind::Event);
    assert_eq!(kind_from_name("Service"), EntityKind::Service);
    assert_eq!(kind_from_name("Stream"), EntityKind::Service);
    assert_eq!(kind_from_name("Data"), EntityKind::Service);
    assert_eq!(kind_from_name("ghost"), EntityKind::Service);
}

#[test]
fn a_stored_entity_comes_back() {
    let mut e = Entity::new_at(EntityKind::Event, "fair", ID, Timestamp { secs: 12, nanos: 345 });
    e.embedding = Some(vec![1, 2]);
    e.activity_vec = Some(vec![3, 4]);
    e.expires_at = Some(at(86_400));
    let r = entity_row(&e, "[..]".to_string(), Some("[.]".to_string()));
    assert_eq!(r.id, ID_TEXT);
    assert_eq!(r.label, "fair");
    assert_eq!(r.kind, "Event");
    assert_eq!(r.embedding, "[..]");
    assert_eq!(r.activity_vec, Some("[.]".to_string()));
    assert_eq!(r.last_active, "1970-01-01T00:00:12.000000345+00:00");
    assert_eq!(r.expires_at, Some("1970-01-02T00:00:00+00:00".to_string()));
    let back = entity_from_row(&r, Some(vec![1, 2]), Some(vec![3, 4]), at(7)).unwrap();
    assert_eq!(back.id, ID);
    assert_eq!(back.kind, EntityKind::Event);
    assert_eq!(back.label, "fair");
    assert_eq!(back.embedding, Some(vec![1, 2]));
    assert_eq!(back.activity_vec, Some(vec![3, 4]));
    assert_eq!(back.last_active, e.last_active);
    assert_eq!(back.expires_at, e.expires_at);
}

#[test]
fn unreadable_parts_of_a_row_are_made_up_for() {
    let e = entity_from_row(&row(ID_TEXT, "yesterday"), None, None, at(7)).unwrap();
    assert_eq!(e.kind, EntityKind::Service);
    assert_eq!(e.last_active, at(7));
    assert_eq!(e.expires_at, None);
    assert!(entity_from_row(&row("nobody", "yesterday"), None, None, at(7)).is_none());
}

#[test]
fn rows_without_an_identifier_are_left_out() {
    let rows = vec![
        StoredEntity { row: row("nobody", "x"), embedding: None, activity_vec: None },
        StoredEntity {
            row: row(ID_TEXT, "1970-01-01T00:00:09+00:00"),
            embedding: Some(vec![1]),
            activity_vec: None,
        },
    ];
    let all = entities_from_rows(&rows, at(7));
    assert_eq!(all.len(), 1);
    assert_eq!(all[0].id, ID);
    assert_eq!(all[0].last_active, at(9));
    assert_eq!(all[0].embedding, Some(vec![1]));
    let unread = vec![StoredEntity { row: row(ID_TEXT, "x"), embedding: None, activity_vec: None }];
    assert!(load_all_entities(&unread)[0].last_active.secs > 1_600_000_000);
}

#[test]
fn peers_come_back_from_rows() {
    let (url, id) = peer_row("https://a.example", ID);
    assert_eq!(url, "https://a.example");
    assert_eq!(id, ID_TEXT);
    let rows = vec![(url, id), ("https://b.example".to_string(), "?".to_string())];
    assert_eq!(peers_from_rows(&rows), vec![("https://a.example".to_string(), ID)]);
}

#[test]
fn a_node_keeps_its_identifier() {
    assert_eq!(settle_node_id(Some(ID_TEXT), 5), (ID, false));
    assert_eq!(settle_node_id(Some("?"), 5), (5, false));
    assert_eq!(settle_node_id(None, 5), (5, true));
    assert_eq!(node_id(Some(ID_TEXT)), (ID, false));
    assert!(node_id(None).1);
    assert_ne!(node_id(None).0, node_id(None).0);
}

#[test]
fn a_stored_message_comes_back() {
    let r = message_row("oak", "hello", "ann", ID, at(60));
    assert_eq!(r.id, ID_TEXT);
    assert_eq!(r.created_at, "1970-01-01T00:01:00+00:00");
    let m = message_from_row(&r, 1, at(2));
    assert_eq!(m.id, ID);
    assert_eq!(m.entity_label, "oak");
    assert_eq!(m.text, "hello");
    assert_eq!(m.author, "ann");
    assert_eq!(m.created_at, at(60));
}

#[test]
fn unreadable_parts_of_a_message_are_made_up_for() {
    let r = MessageRow {
        id: "?".to_string(),
        entity_label: "oak".to_string(),
        text: "t".to_string(),
        author: "a".to_string(),
        created_at: "?".to_string(),
    };
    let m = message_from_row(&r, 77, at(2));
    assert_eq!(m.id, 77);
    assert_eq!(m.created_at, at(2));
}

#[test]
fn messages_come_oldest_first() {
    let rows = vec![
        message_row("oak", "third", "a", 3, at(30)),
        message_row("oak", "first", "a", 1, at(10)),
        message_row("elm", "second", "a", 2, at(20)),
        message_row("elm", "second too", "a", 4, at(20)),
    ];
    let texts: Vec<String> = load_messages(&rows).into_iter().map(|m| m.text).collect();
    assert_eq!(texts, vec!["first", "second", "second too", "third"]);
    assert!(sort_messages(&vec![]).is_empty());
}

#[test]
fn a_new_message_has_its_own_identifier_and_time() {
    let a = new_message_row("oak", "t", "ann");
    let b = new_message_row("oak", "t", "ann");
    assert_ne!(a.id, b.id);
    let m = message_from_row(&a, 0, at(0));
    assert_ne!(m.id, 0);
    assert!(m.created_at.secs > 1_600_000_000);
    assert_eq!(a.text, "t");
    assert_eq!(a.author, "ann");
    assert_eq!(a.entity_label, "oak");
}

#[test]
fn old_things_are_cut_off_by_the_hour() {
    assert_eq!(cutoff_at(at(86_400), 24), "1970-01-01T00:00:00+00:00");
    assert_eq!(cutoff_at(at(7_200), 1), "1970-01-01T01:00:00+00:00");
    assert!(cutoff(2).is_some());
    assert!(cutoff(i64::MAX).is_none());
    assert_eq!(cutoff_on(at(7_200), 1), Some("1970-01-01T01:00:00+00:00".to_string()));
    let first = at(FIRST_SECOND + 3600);
    assert_eq!(cutoff_on(first, 1), Some("-262143-01-01T00:00:00+00:00".to_string()));
    assert_eq!(cutoff_on(first, 2), None);
    let last = at(LAST_SECOND - 3600);
    assert_eq!(cutoff_on(last, -1), Some("+262142-12-31T23:59:59+00:00".to_string()));
    assert_eq!(cutoff_on(last, -2), None);
}

#[test]
fn times_come_back_from_both_ends_of_the_calendar() {
    let leap = Timestamp { secs: 59, nanos: 1_500_000_000 };
    let fine = Timestamp { secs: -62_167_219_201, nanos: 1 };
    for t in [at(FIRST_SECOND), at(LAST_SECOND), leap, fine, at(253_402_300_800)] {
        assert!(t.is_valid());
        let mut e = Entity::new_at(EntityKind::AI, "x", ID, t);
        e.expires_at = Some(t);
        let back = entity_from_row(&entity_row(&e, String::new(), None), None, None, at(7)).unwrap();
        assert_eq!(back.last_active, t);
        assert_eq!(back.expires_at, Some(t));
        let m = message_from_row(&message_row("oak", "t", "a", ID, t), 0, at(7));
        assert_eq!(m.created_at, t);
    }
    assert!(!at(FIRST_SECOND - 1).is_valid());
    assert!(!at(LAST_SECOND + 1).is_valid());
    let end = Timestamp { secs: LAST_SECOND, nanos: 1_999_999_999 };
    let m = message_from_row(&message_row("oak", "t", "a", ID, end), 0, at(7));
    assert_eq!(m.created_at, end);
}

#[test]
fn chrono_knows_the_same_calendar() {
    let date = |secs: i64| chrono::DateTime::<chrono::Utc>::from_timestamp(secs, 0);
    assert!(date(FIRST_SECOND).is_some() && date(FIRST_SECOND - 1).is_none());
    assert!(date(LAST_SECOND).is_some() && date(LAST_SECOND + 1).is_none());
}

#[test]
fn a_saved_entity_is_loaded_once() {
    let e = Entity::new_at(EntityKind::Stream, "oak", ID, at(5));
    let f = Entity::new_at(EntityKind::AI, "elm", 7, at(6));
    let rows = vec![
        StoredEntity { row: entity_row(&f, String::new(), None), embedding: None, activity_vec: None },
        StoredEntity { row: entity_row(&e, String::new(), None), embedding: None, activity_vec: None },
    ];
    let all = entities_from_rows(&rows, at(9));
    let found: Vec<&Entity> = all.iter().filter(|x| x.id == ID || x.label == "oak").collect();
    assert_eq!(found.len(), 1);
    assert_eq!(found[0].kind, EntityKind::Service);
    assert_eq!(found[0].last_active, at(5));
}
