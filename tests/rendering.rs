use form_pairs::fraction::{BoundingBox, Fraction, ONE_BITS};
use form_pairs::pairs::KeyValuePair;
use form_pairs::render::{
    Color, Half, Mark, PixelRect, annotation_marks, label_color, outline_color, to_pixel_rect,
};

fn f(x: f32) -> Fraction {
    Fraction { bits: x.to_bits() }
}

fn bbox(left: f32, top: f32, width: f32, height: f32) -> BoundingBox {
    BoundingBox { width: f(width), height: f(height), left: f(left), top: f(top) }
}

fn outlines(marks: &[Mark]) -> Vec<(PixelRect, Color)> {
    marks
        .iter()
        .filter_map(|m| match m {
            Mark::Outline { rect, color } => Some((*rect, *color)),
            Mark::Label { .. } => None,
        })
        .collect()
}

fn labels(marks: &[Mark]) -> Vec<(i32, i32, String, Color)> {
    marks
        .iter()
        .filter_map(|m| match m {
            Mark::Label { x, y, text, color } => Some((*x, *y, text.clone(), *color)),
            Mark::Outline { .. } => None,
        })
        .collect()
}

const BLUE: Color = Color { red: 0, green: 0, blue: 255 };
const RED: Color = Color { red: 255, green: 0, blue: 0 };
const BLACK: Color = Color { red: 0, green: 0, blue: 0 };

#[test]
fn pixel_rect_of_key_box_on_1000_by_800() {
    let r = to_pixel_rect(&bbox(0.1, 0.2, 0.3, 0.05), 1000, 800);
    assert_eq!(r, PixelRect { left: 100, top: 160, width: 300, height: 40 });
}

#[test]
fn scale_floor_truncates() {
    assert_eq!(f(0.5).scale_floor(7), 3);
    assert_eq!(f(0.999).scale_floor(1000), 999);
    // 0.7 is held as 0.699999988..., so a thousandth of it stays below 700.
    assert_eq!(f(0.7).scale_floor(1000), 699);
    assert_eq!(Fraction { bits: ONE_BITS }.scale_floor(640), 640);
    assert_eq!(f(0.0).scale_floor(640), 0);
    assert_eq!(Fraction { bits: 1 }.scale_floor(u32::MAX), 0);
    assert_eq!(f(0.25).scale_floor(0), 0);
    assert_eq!(f(-0.0).scale_floor(640), 0);
}

#[test]
fn normalized_means_within_zero_and_one() {
    assert!(bbox(0.0, 1.0, 0.5, 0.5).is_normalized());
    assert!(!bbox(0.0, 1.5, 0.5, 0.5).is_normalized());
    assert!(!bbox(-0.1, 0.5, 0.5, 0.5).is_normalized());
    assert!(bbox(-0.0, -0.0, 0.5, 0.5).is_normalized());
}

#[test]
fn colors_of_each_half() {
    assert_eq!(outline_color(Half::Key), BLUE);
    assert_eq!(label_color(Half::Key), BLACK);
    assert_eq!(outline_color(Half::Value), RED);
    assert_eq!(label_color(Half::Value), RED);
}

#[test]
fn key_box_outline_and_label() {
    let pairs = vec![KeyValuePair {
        key: "Name".to_string(),
        value: "John".to_string(),
        key_bounding_box: Some(bbox(0.1, 0.2, 0.3, 0.05)),
        value_bounding_box: None,
    }];
    let marks = annotation_marks(&pairs, 1000, 800);
    assert_eq!(
        outlines(&marks),
        vec![
            (PixelRect { left: 100, top: 160, width: 300, height: 40 }, BLUE),
            (PixelRect { left: 99, top: 159, width: 302, height: 42 }, BLUE),
            (PixelRect { left: 98, top: 158, width: 304, height: 44 }, BLUE),
        ]
    );
    assert_eq!(labels(&marks), vec![(100, 160, "Name".to_string(), BLACK)]);
    assert_eq!(marks.len(), 4);
}

#[test]
fn key_marks_come_before_value_marks() {
    let pairs = vec![KeyValuePair {
        key: "K".to_string(),
        value: "V".to_string(),
        key_bounding_box: Some(bbox(0.0, 0.0, 0.5, 0.5)),
        value_bounding_box: Some(bbox(0.5, 0.5, 0.25, 0.25)),
    }];
    let marks = annotation_marks(&pairs, 100, 200);
    assert_eq!(marks.len(), 8);
    assert_eq!(
        labels(&marks),
        vec![(0, 0, "K".to_string(), BLACK), (50, 100, "V".to_string(), RED)]
    );
    let o = outlines(&marks);
    assert_eq!(o[3], (PixelRect { left: 50, top: 100, width: 25, height: 50 }, RED));
}

#[test]
fn records_without_boxes_draw_nothing() {
    let pairs = vec![KeyValuePair {
        key: "K".to_string(),
        value: "V".to_string(),
        key_bounding_box: None,
        value_bounding_box: None,
    }];
    assert!(annotation_marks(&pairs, 100, 100).is_empty());
    assert!(annotation_marks(&vec![], 100, 100).is_empty());
}

#[test]
fn degenerate_box_has_only_the_outer_outlines() {
    let pairs = vec![KeyValuePair {
        key: "K".to_string(),
        value: String::new(),
        key_bounding_box: Some(bbox(0.5, 0.5, 0.0, 0.1)),
        value_bounding_box: None,
    }];
    let marks = annotation_marks(&pairs, 100, 100);
    assert_eq!(
        outlines(&marks),
        vec![
            (PixelRect { left: 49, top: 49, width: 2, height: 12 }, BLUE),
            (PixelRect { left: 48, top: 48, width: 4, height: 14 }, BLUE),
        ]
    );
}

#[test]
fn box_outside_the_page_draws_nothing() {
    let pairs = vec![KeyValuePair {
        key: "K".to_string(),
        value: String::new(),
        key_bounding_box: Some(bbox(1.5, 0.5, 0.1, 0.1)),
        value_bounding_box: None,
    }];
    assert!(annotation_marks(&pairs, 100, 100).is_empty());
}

#[test]
fn negative_zero_corner_is_drawn_at_the_origin() {
    let pairs = vec![KeyValuePair {
        key: "K".to_string(),
        value: String::new(),
        key_bounding_box: Some(bbox(-0.0, -0.0, 0.5, 0.25)),
        value_bounding_box: None,
    }];
    let marks = annotation_marks(&pairs, 200, 400);
    assert_eq!(outlines(&marks)[0], (PixelRect { left: 0, top: 0, width: 100, height: 100 }, BLUE));
    assert_eq!(labels(&marks), vec![(0, 0, "K".to_string(), BLACK)]);
}
