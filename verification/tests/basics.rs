use golden_core::fixed::{digit_char, push_decimal, push_two_places, UNIT};
use golden_core::order::stable_order;
use golden_core::text::{
    contains_part, contains_text, count_bytes, ends_with, joined, same_text, starts_with,
    take_before, take_bytes, take_chars, trim_end,
};

fn two_places(v: i64) -> String {
    let mut s = String::from("=");
    push_two_places(&mut s, v);
    s
}

#[test]
fn numbers_are_written_in_decimal() {
    let mut s = String::new();
    push_decimal(&mut s, 0);
    push_decimal(&mut s, 90);
    push_decimal(&mut s, u128::MAX);
    assert_eq!(s, "090340282366920938463463374607431768211455");
    let digits: String = (0..10).map(digit_char).collect();
    assert_eq!(digits, "0123456789");
}

#[test]
fn two_places_are_rounded() {
    assert_eq!(two_places(0), "=0.00");
    assert_eq!(two_places(UNIT), "=1.00");
    assert_eq!(two_places(UNIT / 1000 * 285), "=0.28");
    assert_eq!(two_places(UNIT / 1000 * 375), "=0.38");
    assert_eq!(two_places(UNIT / 1000 * 286), "=0.29");
    assert_eq!(two_places(UNIT / 1000 * 999), "=1.00");
    assert_eq!(two_places(-UNIT / 4), "=-0.25");
    assert_eq!(two_places(12 * UNIT + UNIT / 2), "=12.50");
}

#[test]
fn two_places_agree_with_floats() {
    for k in 0..=1000i64 {
        let x = k as f64 / 1024.0;
        let v = (x * UNIT as f64).round() as i64;
        assert_eq!(two_places(v), format!("={:.2}", x));
    }
}

#[test]
fn a_stable_order_keeps_ties() {
    assert_eq!(stable_order(&vec![3, 1, 2, 1, 3]), vec![1, 3, 2, 0, 4]);
    assert!(stable_order(&vec![]).is_empty());
}

#[test]
fn texts_are_taken_apart_by_characters() {
    assert_eq!(take_chars("größe", 3), "grö");
    assert_eq!(take_chars("ab", 3), "ab");
    assert_eq!(count_bytes("größe"), 7);
    assert_eq!(take_bytes("größe", 4), "grö");
    assert_eq!(take_before("a,b,c", ','), "a");
    assert_eq!(take_before("abc", ','), "abc");
    assert_eq!(take_before(",abc", ','), "");
    assert_eq!(trim_end("http://a//", '/'), "http://a");
    assert_eq!(trim_end("///", '/'), "");
    assert_eq!(trim_end("/a", '/'), "/a");
}

#[test]
fn texts_are_compared_by_characters() {
    assert!(same_text("ä", "ä"));
    assert!(!same_text("a", "ab"));
    assert!(starts_with("wanderer_1", "wanderer_"));
    assert!(!starts_with("wander", "wanderer_"));
    assert!(ends_with("oak·convergence", "·convergence"));
    assert!(!ends_with("oak", "·convergence"));
    assert!(contains_part("https://x.example/", "x.ex"));
    assert!(contains_part("abc", ""));
    assert!(contains_part("abc", "c"));
    assert!(!contains_part("abc", "ca"));
    assert!(!contains_part("a", "ab"));
    assert!(contains_text(&vec!["a".to_string(), "b".to_string()], "b"));
    assert!(!contains_text(&vec![], "b"));
    assert_eq!(joined("a", "b"), "ab");
}
