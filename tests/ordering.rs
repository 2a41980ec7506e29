use form_pairs::fraction::{BoundingBox, Fraction};
use form_pairs::order::{reading_key_of, sort_key_value_pairs};
use form_pairs::pairs::KeyValuePair;

fn bbox(left: f32, top: f32) -> BoundingBox {
    let f = |x: f32| Fraction { bits: x.to_bits() };
    BoundingBox { width: f(0.1), height: f(0.05), left: f(left), top: f(top) }
}

fn pair(name: &str, key_box: Option<BoundingBox>, value_box: Option<BoundingBox>) -> KeyValuePair {
    KeyValuePair {
        key: name.to_string(),
        value: String::new(),
        key_bounding_box: key_box,
        value_bounding_box: value_box,
    }
}

fn names(pairs: &[KeyValuePair]) -> Vec<String> {
    pairs.iter().map(|p| p.key.clone()).collect()
}

#[test]
fn smaller_top_comes_first() {
    let mut pairs = vec![pair("low", Some(bbox(0.1, 0.50)), None), pair("high", Some(bbox(0.9, 0.10)), None)];
    sort_key_value_pairs(&mut pairs);
    assert_eq!(names(&pairs), vec!["high", "low"]);
}

#[test]
fn equal_top_goes_by_left() {
    let mut pairs = vec![
        pair("right", Some(bbox(0.7, 0.3)), None),
        pair("left", Some(bbox(0.2, 0.3)), None),
        pair("middle", Some(bbox(0.4, 0.3)), None),
    ];
    sort_key_value_pairs(&mut pairs);
    assert_eq!(names(&pairs), vec!["left", "middle", "right"]);
}

#[test]
fn value_box_stands_in_for_missing_key_box() {
    let mut pairs = vec![
        pair("second", Some(bbox(0.0, 0.6)), Some(bbox(0.0, 0.0))),
        pair("first", None, Some(bbox(0.5, 0.2))),
    ];
    sort_key_value_pairs(&mut pairs);
    assert_eq!(names(&pairs), vec!["first", "second"]);
}

#[test]
fn positioned_records_come_before_unplaced_ones() {
    let mut pairs = vec![
        pair("none", None, None),
        pair("bottom", Some(bbox(1.0, 1.0)), None),
        pair("top", Some(bbox(0.0, 0.0)), None),
    ];
    sort_key_value_pairs(&mut pairs);
    assert_eq!(names(&pairs), vec!["top", "bottom", "none"]);
}

#[test]
fn unplaced_records_keep_their_order() {
    let mut pairs = vec![
        pair("u1", None, None),
        pair("p", Some(bbox(0.5, 0.5)), None),
        pair("u2", None, None),
        pair("u3", None, None),
    ];
    sort_key_value_pairs(&mut pairs);
    assert_eq!(names(&pairs), vec!["p", "u1", "u2", "u3"]);
}

#[test]
fn equal_positions_keep_their_order() {
    let mut pairs = vec![
        pair("b1", Some(bbox(0.5, 0.5)), None),
        pair("a", Some(bbox(0.1, 0.1)), None),
        pair("b2", Some(bbox(0.5, 0.5)), None),
    ];
    sort_key_value_pairs(&mut pairs);
    assert_eq!(names(&pairs), vec!["a", "b1", "b2"]);
}

#[test]
fn sorting_an_empty_list_is_a_no_op() {
    let mut pairs: Vec<KeyValuePair> = vec![];
    sort_key_value_pairs(&mut pairs);
    assert!(pairs.is_empty());
}

#[test]
fn reading_key_orders_top_then_left() {
    let a = reading_key_of(&pair("a", Some(bbox(0.9, 0.1)), None));
    let b = reading_key_of(&pair("b", Some(bbox(0.1, 0.5)), None));
    let c = reading_key_of(&pair("c", None, None));
    assert!(a < b);
    assert!(b < c);
    assert_eq!(c, 1u128 << 64);
    assert_eq!(a, ((0.1f32.to_bits() as u128) << 32) + 0.9f32.to_bits() as u128);
}

#[test]
fn negative_zero_top_counts_as_zero() {
    let mut pairs = vec![
        pair("half", Some(bbox(0.0, 0.5)), None),
        pair("zero", Some(bbox(0.3, -0.0)), None),
        pair("plus_zero", Some(bbox(0.4, 0.0)), None),
    ];
    sort_key_value_pairs(&mut pairs);
    assert_eq!(names(&pairs), vec!["zero", "plus_zero", "half"]);
}

#[test]
fn negative_zero_left_counts_as_zero() {
    let mut pairs = vec![
        pair("right", Some(bbox(0.2, 0.5)), None),
        pair("edge", Some(bbox(-0.0, 0.5)), None),
    ];
    sort_key_value_pairs(&mut pairs);
    assert_eq!(names(&pairs), vec!["edge", "right"]);
    assert_eq!(
        reading_key_of(&pair("a", Some(bbox(-0.0, -0.0)), None)),
        reading_key_of(&pair("b", Some(bbox(0.0, 0.0)), None))
    );
}
