use pcb_kit::json::{put, Json};
use pcb_kit::number::{greatest_of, least_of, Real};
use pcb_kit::order::{in_order, rank_order};
use pcb_kit::sorted_map::{entry, put_entry};
use pcb_kit::text::{
    decimal_text, ends_with, headline, int_text, is_empty_text, join, quote_all, size_text, starts_with, text_le,
    white,
};
use pcb_kit::union_find::UnionFind;

fn num(x: f64) -> Real {
    Real::from_bits(x.to_bits())
}

#[test]
fn nums_are_ordered_by_value() {
    let values = [f64::NEG_INFINITY, -2.5, -0.0, 0.0, 1e-300, 1.0, f64::INFINITY];
    for a in values {
        for b in values {
            assert_eq!(num(a).less(&num(b)), a < b, "{a} {b}");
        }
        assert!(!num(a).less(&num(f64::NAN)));
        assert!(!num(f64::NAN).less(&num(a)));
        assert_eq!(num(a).is_finite(), a.is_finite());
    }
    assert!(num(f64::NAN).is_missing());
}

#[test]
fn extremes_skip_missing_numbers() {
    let list = vec![num(3.0), num(f64::NAN), num(-1.0), num(7.0)];
    assert_eq!(f64::from_bits(least_of(num(f64::INFINITY), &list).bits), -1.0);
    assert_eq!(f64::from_bits(greatest_of(num(f64::NEG_INFINITY), &list).bits), 7.0);
    assert_eq!(f64::from_bits(num(f64::NAN).lesser(&num(2.0)).bits), 2.0);
    assert_eq!(f64::from_bits(num(2.0).larger(&num(f64::NAN)).bits), 2.0);
}

#[test]
fn ranking_is_stable_and_total() {
    let list = vec!["b".to_string(), "a".to_string(), "b".to_string(), "".to_string()];
    assert_eq!(rank_order(&list), vec![3, 1, 0, 2]);
    assert_eq!(in_order(&list), vec!["".to_string(), "a".to_string(), "b".to_string(), "b".to_string()]);
}

#[test]
fn maps_keep_their_keys_in_order() {
    let mut m: Vec<(String, usize)> = Vec::new();
    put_entry(&mut m, "b".to_string(), 1);
    put_entry(&mut m, "a".to_string(), 2);
    put_entry(&mut m, "b".to_string(), 3);
    assert_eq!(m, vec![("a".to_string(), 2), ("b".to_string(), 3)]);
    assert_eq!(entry(&m, &"b".to_string()), Some(&3));
    assert_eq!(entry(&m, &"c".to_string()), None);
}

#[test]
fn sets_are_joined() {
    let mut sets = UnionFind::new(5);
    sets.union(0, 1);
    sets.union(3, 4);
    sets.union(1, 4);
    let root = sets.find(0);
    assert_eq!(sets.find(3), root);
    assert_eq!(sets.find(4), root);
    assert_ne!(sets.find(2), root);
}

#[test]
fn objects_replace_members_in_place() {
    let mut members = Vec::new();
    put(&mut members, "x".to_string(), Json::Int(1));
    put(&mut members, "y".to_string(), Json::Bool(true));
    put(&mut members, "x".to_string(), Json::Int(2));
    let object = Json::Object(members);
    assert!(matches!(object.get("x"), Some(Json::Int(2))));
    assert!(matches!(object.get("y"), Some(Json::Bool(true))));
    assert!(object.get("z").is_none());
    assert!(matches!(object.copy().get("x"), Some(Json::Int(2))));
    assert!(Json::Null.get("x").is_none());
}

#[test]
fn texts_are_made() {
    assert_eq!(decimal_text(0), "0");
    assert_eq!(decimal_text(u64::MAX), "18446744073709551615");
    assert_eq!(size_text(42), "42");
    assert_eq!(int_text(-7), "-7");
    assert_eq!(int_text(i64::MIN), "-9223372036854775808");
    let list = vec!["a".to_string(), "b".to_string()];
    assert_eq!(join(&list, ", "), "a, b");
    assert_eq!(join(&Vec::new(), ", "), "");
    assert_eq!(quote_all(&list), "`a`, `b`");
    assert!(ends_with("F.Cu", ".Cu") && !ends_with("Cu", ".Cu"));
    assert!(starts_with("micro via", "micro") && !starts_with("mi", "micro"));
    assert!(text_le("a", "a") && text_le("a", "b") && !text_le("b", "a"));
}

#[test]
fn white_space_is_known() {
    assert_eq!(headline(" \t\u{a0}first\u{3000}\nsecond"), "first");
    assert_eq!(headline("one two"), "one two");
    assert_eq!(headline("\nsecond"), "");
    assert!(is_empty_text("") && !is_empty_text(" "));
}

#[test]
fn white_characters_are_those_of_unicode() {
    let mut count = 0;
    for c in '\u{0}'..=char::MAX {
        assert_eq!(white(c), c.is_whitespace(), "{:x}", c as u32);
        if white(c) {
            count += 1;
        }
    }
    assert_eq!(count, 25);
}
