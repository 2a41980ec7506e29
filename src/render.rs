//! The marks that show the records on the page image: outlines of their
//! boxes, in pixels, and their texts beside them.

use vstd::prelude::*;
use crate::fraction::BoundingBox;
use crate::pairs::{KeyValuePair, PairView, pairs_view};

verus! {

/// Largest image side accepted: every coordinate and extent of a mark, and
/// the far edges that a drawing routine derives from them, then fit an `i32`.
pub const MAX_SIDE: u32 = 0x3FFF_FFF0;

/// Number of nested one-pixel outlines that make a thick outline.
pub const OUTLINE_THICKNESS: u32 = 3;

/// Height, in pixels, of the labels' font.
pub const LABEL_SIZE: u32 = 12;

/// A colour by its red, green and blue intensities.
#[derive(Clone, Copy, Debug, PartialEq, Eq, Structural)]
pub struct Color {
    pub red: u8,
    pub green: u8,
    pub blue: u8,
}

/// Which half of a record a mark shows.
#[derive(Clone, Copy, Debug, PartialEq, Eq, Structural)]
pub enum Half {
    Key,
    Value,
}

/// Colour of the outlines of a half: blue for keys, red for values.
pub open spec fn outline_color_of(half: Half) -> Color {
    match half {
        Half::Key => Color { red: 0, green: 0, blue: 255 },
        Half::Value => Color { red: 255, green: 0, blue: 0 },
    }
}

/// Colour of the labels of a half: black for keys, red for values.
pub open spec fn label_color_of(half: Half) -> Color {
    match half {
        Half::Key => Color { red: 0, green: 0, blue: 0 },
        Half::Value => Color { red: 255, green: 0, blue: 0 },
    }
}

/// The outline colour of a half.
pub fn outline_color(half: Half) -> (c: Color)
    ensures
        c == outline_color_of(half),
{
    match half {
        Half::Key => Color { red: 0, green: 0, blue: 255 },
        Half::Value => Color { red: 255, green: 0, blue: 0 },
    }
}

/// The label colour of a half.
pub fn label_color(half: Half) -> (c: Color)
    ensures
        c == label_color_of(half),
{
    match half {
        Half::Key => Color { red: 0, green: 0, blue: 0 },
        Half::Value => Color { red: 255, green: 0, blue: 0 },
    }
}

/// A rectangle in pixels: top-left corner and size.
#[derive(Clone, Copy, Debug, PartialEq, Eq, Structural)]
pub struct PixelRect {
    pub left: i32,
    pub top: i32,
    pub width: u32,
    pub height: u32,
}

/// The pixel rectangle of a normalized box on an image of `w` by `h` pixels:
/// each coordinate scaled by the side it runs along, and truncated.
pub open spec fn pixel_rect_of(b: BoundingBox, w: nat, h: nat) -> PixelRect {
    PixelRect {
        left: b.left.scaled_floor(w) as i32,
        top: b.top.scaled_floor(h) as i32,
        width: b.width.scaled_floor(w) as u32,
        height: b.height.scaled_floor(h) as u32,
    }
}

/// The pixel rectangle of `b` on an image of `width` by `height` pixels.
pub fn to_pixel_rect(b: &BoundingBox, width: u32, height: u32) -> (r: PixelRect)
    requires
        b.wf(),
        width <= MAX_SIDE,
        height <= MAX_SIDE,
    ensures
        r == pixel_rect_of(*b, width as nat, height as nat),
        r.left as int == b.left.scaled_floor(width as nat),
        r.top as int == b.top.scaled_floor(height as nat),
        r.width as int == b.width.scaled_floor(width as nat),
        r.height as int == b.height.scaled_floor(height as nat),
        0 <= r.left <= width,
        0 <= r.top <= height,
        r.width <= width,
        r.height <= height,
{
    let left = b.left.scale_floor(width);
    let top = b.top.scale_floor(height);
    let w = b.width.scale_floor(width);
    let h = b.height.scale_floor(height);
    PixelRect { left: left as i32, top: top as i32, width: w, height: h }
}

/// The `i`-th outline around `r`: `i` pixels larger on every side.
pub open spec fn ring(r: PixelRect, i: int) -> PixelRect {
    PixelRect {
        left: (r.left - i) as i32,
        top: (r.top - i) as i32,
        width: (r.width + 2 * i) as u32,
        height: (r.height + 2 * i) as u32,
    }
}

/// The outlines that draw `r` with a thick stroke: `r` itself and the
/// `OUTLINE_THICKNESS - 1` rectangles around it, inner first. A rectangle of
/// no width or height has no outline of its own, so `r` is then left out.
pub open spec fn rings_of(r: PixelRect) -> Seq<PixelRect> {
    let first: int = if r.width > 0 && r.height > 0 { 0 } else { 1 };
    Seq::new((OUTLINE_THICKNESS - first) as nat, |k: int| ring(r, k + first))
}

/// One drawing step.
pub enum Mark {
    /// A one-pixel outline of a rectangle.
    Outline { rect: PixelRect, color: Color },
    /// A text whose top-left corner stands at `(x, y)`.
    Label { x: i32, y: i32, text: String, color: Color },
}

/// What a `Mark` holds.
pub enum MarkView {
    Outline { rect: PixelRect, color: Color },
    Label { x: i32, y: i32, text: Seq<char>, color: Color },
}

impl View for Mark {
    type V = MarkView;

    open spec fn view(&self) -> MarkView {
        match self {
            Mark::Outline { rect, color } => MarkView::Outline { rect: *rect, color: *color },
            Mark::Label { x, y, text, color } => MarkView::Label { x: *x, y: *y, text: text@, color: *color },
        }
    }
}

/// The views of a list of marks.
pub open spec fn marks_view(marks: Seq<Mark>) -> Seq<MarkView> {
    marks.map_values(|m: Mark| m@)
}

/// The marks of one half of a record: the outlines of its box, then its text
/// at the box's top-left corner. A box outside `[0, 1]` gives no mark.
pub open spec fn half_marks(b: BoundingBox, text: Seq<char>, half: Half, w: nat, h: nat) -> Seq<MarkView> {
    if b.wf() {
        let r = pixel_rect_of(b, w, h);
        rings_of(r).map_values(|q: PixelRect| MarkView::Outline { rect: q, color: outline_color_of(half) })
            .push(MarkView::Label { x: r.left, y: r.top, text: text, color: label_color_of(half) })
    } else {
        Seq::empty()
    }
}

/// The marks of a record: those of its key, if it has a box, then those of
/// its value, if it has one.
pub open spec fn pair_marks(p: PairView, w: nat, h: nat) -> Seq<MarkView> {
    let key_marks = match p.key_box {
        Some(b) => half_marks(b, p.key, Half::Key, w, h),
        None => Seq::empty(),
    };
    let value_marks = match p.value_box {
        Some(b) => half_marks(b, p.value, Half::Value, w, h),
        None => Seq::empty(),
    };
    key_marks + value_marks
}

/// The marks of the records `pairs`, record after record.
pub open spec fn all_marks(pairs: Seq<PairView>, w: nat, h: nat) -> Seq<MarkView>
    decreases pairs.len(),
{
    if pairs.len() == 0 {
        Seq::empty()
    } else {
        all_marks(pairs.drop_last(), w, h) + pair_marks(pairs.last(), w, h)
    }
}

/// Appends to `marks` the marks of one half of a record.
fn push_half_marks(marks: &mut Vec<Mark>, b: &BoundingBox, text: &String, half: Half, width: u32, height: u32)
    requires
        width <= MAX_SIDE,
        height <= MAX_SIDE,
    ensures
        marks_view(final(marks)@) == marks_view(old(marks)@) + half_marks(*b, text@, half, width as nat, height as nat),
{
    let ghost start = marks_view(marks@);
    if !b.is_normalized() {
        proof {
            assert(marks_view(marks@) =~= start + Seq::<MarkView>::empty());
        }
        return;
    }
    let r = to_pixel_rect(b, width, height);
    let color = outline_color(half);
    let first: u32 = if r.width > 0 && r.height > 0 { 0 } else { 1 };
    let ghost rings = rings_of(r).map_values(|q: PixelRect| MarkView::Outline { rect: q, color: outline_color_of(half) });
    let mut i: u32 = first;
    while i < OUTLINE_THICKNESS
        invariant
            first <= i <= OUTLINE_THICKNESS,
            first == if r.width > 0 && r.height > 0 { 0u32 } else { 1u32 },
            0 <= r.left <= MAX_SIDE,
            0 <= r.top <= MAX_SIDE,
            r.width <= MAX_SIDE,
            r.height <= MAX_SIDE,
            r == pixel_rect_of(*b, width as nat, height as nat),
            color == outline_color_of(half),
            rings == rings_of(r).map_values(|q: PixelRect| MarkView::Outline { rect: q, color: outline_color_of(half) }),
            marks_view(marks@) == start + rings.take((i - first) as int),
        decreases OUTLINE_THICKNESS - i,
    {
        let ghost before = marks@;
        let offset: i32 = i as i32;
        let q = PixelRect {
            left: r.left - offset,
            top: r.top - offset,
            width: r.width + 2 * i,
            height: r.height + 2 * i,
        };
        marks.push(Mark::Outline { rect: q, color });
        proof {
            assert(q == ring(r, i as int));
            assert(rings[(i - first) as int] == MarkView::Outline { rect: q, color: color });
            assert(marks_view(marks@) =~= marks_view(before).push(MarkView::Outline { rect: q, color: color }));
            assert(rings.take((i + 1 - first) as int) =~= rings.take((i - first) as int).push(rings[(i - first) as int]));
        }
        i = i + 1;
    }
    let ghost before = marks@;
    marks.push(Mark::Label { x: r.left, y: r.top, text: text.clone(), color: label_color(half) });
    proof {
        assert(rings.take((i - first) as int) =~= rings);
        assert(marks_view(marks@) =~= marks_view(before).push(
            MarkView::Label { x: r.left, y: r.top, text: text@, color: label_color_of(half) },
        ));
    }
}

/// The marks that show `pairs` on an image of `width` by `height` pixels:
/// for each record, the outlines and the text of its key, where the key has
/// a box, and then those of its value, where the value has one.
pub fn annotation_marks(pairs: &Vec<KeyValuePair>, width: u32, height: u32) -> (r: Vec<Mark>)
    requires
        width <= MAX_SIDE,
        height <= MAX_SIDE,
    ensures
        marks_view(r@) == all_marks(pairs_view(pairs@), width as nat, height as nat),
{
    let ghost v = pairs_view(pairs@);
    let mut marks: Vec<Mark> = Vec::new();
    let mut n: usize = 0;
    while n < pairs.len()
        invariant
            n <= pairs@.len(),
            width <= MAX_SIDE,
            height <= MAX_SIDE,
            v == pairs_view(pairs@),
            marks_view(marks@) == all_marks(v.take(n as int), width as nat, height as nat),
        decreases pairs.len() - n,
    {
        proof {
            assert(v.take(n + 1).drop_last() =~= v.take(n as int));
            assert(v.take(n + 1).last() == pairs@[n as int]@);
        }
        let ghost start = marks_view(marks@);
        let p = &pairs[n];
        if let Some(b) = &p.key_bounding_box {
            push_half_marks(&mut marks, b, &p.key, Half::Key, width, height);
        }
        let ghost mid = marks_view(marks@);
        if let Some(b) = &p.value_bounding_box {
            push_half_marks(&mut marks, b, &p.value, Half::Value, width, height);
        }
        proof {
            assert(marks_view(marks@) =~= start + pair_marks(pairs@[n as int]@, width as nat, height as nat));
        }
        n = n + 1;
    }
    proof {
        assert(v.take(n as int) =~= v);
    }
    marks
}

} // verus!
