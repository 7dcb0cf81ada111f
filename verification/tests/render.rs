use golden_core::distance::Visibility;
use golden_core::field::{DriftSignal, FieldState, ObservedEntity};
use golden_core::fixed::UNIT;
use golden_core::render::{is_renderable, render_field_text};
use golden_core::stamp::{Timestamp, FIRST_SECOND, LAST_SECOND};
use golden_core::store::MessageRecord;

const FRAME: &str = "━━━━━━━━━━━━━━━━━━━━━━━━━━━━━━━━━━━━━━━━━━━━";
const LINE: &str = "  ─────────────────────────────────────────";

fn field() -> FieldState {
    FieldState::new_at("oak, elm", Timestamp { secs: 1_000_000_000, nanos: 5 })
}

fn seen(label: &str, distance: i64, components: Option<[i64; 5]>) -> ObservedEntity {
    ObservedEntity {
        id: 1,
        label: label.to_string(),
        distance,
        visibility: Visibility::Near,
        components,
        moving_toward: None,
    }
}

fn said(text: &str) -> MessageRecord {
    MessageRecord {
        id: 1,
        entity_label: "oak".to_string(),
        text: text.to_string(),
        author: "ann".to_string(),
        created_at: Timestamp { secs: 0, nanos: 0 },
    }
}

fn wrapped(body: &str) -> String {
    format!(
        "{}\n  GOLDEN PROTOCOL  ·  field state\n{}\n\n{}{}\n  s=semantic r=relational a=activity \
         t=temporal u=attention\n  curl \"https://space.gold3112.online/field?interest=YOUR_THOUGHT\
         &format=text\"\n{}\n",
        FRAME, FRAME, body, FRAME, FRAME
    )
}

const HEAD: &str = "  position  ·  oak, elm\n  presence  ·  0\n  density   ·  0.00\n  time      \
                    ·  2001-09-09T01:46:40Z\n\n";

#[test]
fn an_empty_field_has_only_its_frame() {
    let f = field();
    assert!(is_renderable(&f));
    assert_eq!(render_field_text(&f), wrapped(HEAD));
}

#[test]
fn every_date_of_the_calendar_can_be_written() {
    let mut f = field();
    for (secs, text) in [(FIRST_SECOND, "-262143-01-01T00:00:00Z"), (LAST_SECOND, "+262142-12-31T23:59:59Z")] {
        f.timestamp = Timestamp { secs, nanos: 0 };
        assert!(is_renderable(&f));
        assert!(render_field_text(&f).contains(text));
        let beyond = if secs < 0 { secs - 1 } else { secs + 1 };
        f.timestamp = Timestamp { secs: beyond, nanos: 0 };
        assert!(!is_renderable(&f));
    }
}

#[test]
fn what_is_near_is_listed_with_its_components() {
    let mut f = field();
    let half = UNIT / 2;
    f.near = vec![
        seen("oak", UNIT / 4, Some([0, half, half, UNIT / 8, UNIT])),
        seen("an entity with quite a long label indeed", half, None),
    ];
    let oak = format!(
        "  ● {:<34} {:.2}  s:{:.2} r:{:.2} a:{:.2} t:{:.2} u:{:.2}\n",
        "oak", 0.25, 0.0, 0.5, 0.5, 0.125, 1.0
    );
    let long = format!("  ● {:<34} {:.2}\n", "an entity with quite a long lab…", 0.5);
    let body = format!("{}  NEAR\n{}\n{}{}\n", HEAD, LINE, oak, long);
    assert_eq!(render_field_text(&f), wrapped(&body));
}

#[test]
fn a_label_of_full_width_is_not_cut() {
    let mut f = field();
    let label = "x".repeat(32);
    f.near = vec![seen(&label, 0, None)];
    let line = format!("  ● {:<34} 0.00\n", label);
    let body = format!("{}  NEAR\n{}\n{}\n", HEAD, LINE, line);
    assert_eq!(render_field_text(&f), wrapped(&body));
}

#[test]
fn only_the_beginning_of_the_horizon_is_listed() {
    let mut f = field();
    f.horizon = (0..8).map(|i| seen(&format!("e{}", i), UNIT / 2, None)).collect();
    let mut body = format!("{}  HORIZON\n{}\n", HEAD, LINE);
    for i in 0..6 {
        body.push_str(&format!("  · {:<34} 0.50\n", format!("e{}", i)));
    }
    body.push_str("  … and 2 more beyond\n\n");
    assert_eq!(render_field_text(&f), wrapped(&body));
    f.horizon.truncate(6);
    assert!(!render_field_text(&f).contains("more beyond"));
}

#[test]
fn the_strongest_current_is_named() {
    let mut f = field();
    f.presence = 12;
    f.density = UNIT / 3;
    f.drift = vec![
        DriftSignal { toward: "elm".to_string(), strength: UNIT },
        DriftSignal { toward: "oak".to_string(), strength: UNIT / 2 },
    ];
    let text = render_field_text(&f);
    assert!(text.contains("  presence  ·  12\n  density   ·  0.33\n"));
    assert!(text.contains("\n  drift  →  elm (1.00)\n\n"));
    assert!(!text.contains("oak ("));
}

#[test]
fn long_messages_are_cut_by_bytes() {
    let mut f = field();
    f.messages = vec![said("hello"), said(&"y".repeat(52)), said(&"z".repeat(53))];
    let body = format!(
        "{}  VOICES\n{}\n  ann  ·  \"hello\"\n  ann  ·  \"{}\"\n  ann  ·  \"{}…\"\n\n",
        HEAD,
        LINE,
        "y".repeat(52),
        "z".repeat(51)
    );
    assert!(is_renderable(&f));
    assert_eq!(render_field_text(&f), wrapped(&body));
}

#[test]
fn a_message_is_never_cut_within_a_character() {
    let mut f = field();
    f.messages = vec![said(&"ä".repeat(30))];
    assert!(!is_renderable(&f));
    f.messages = vec![said(&format!("x{}", "ä".repeat(30)))];
    assert!(is_renderable(&f));
    assert!(render_field_text(&f).contains(&format!("\"x{}…\"", "ä".repeat(25))));
    f.messages = vec![];
    f.timestamp.secs = i64::MAX;
    assert!(!is_renderable(&f));
}
