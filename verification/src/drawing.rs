//! Drawings: what is drawn where, in millionths of a pixel, from which the renderer makes its
//! geometry.

use vstd::prelude::*;

use crate::config::Rgb8;
use crate::fixed::{div_nearest, magnitude, nearest};
use crate::words::SpeedMark;

verus! {

/// Where text stands about its anchor.
#[derive(Debug, Clone, Copy, PartialEq, Eq, Structural)]
pub enum Align {
    Left,
    Center,
    Right,
}

/// A colour and its opacity in millionths.
#[derive(Debug, Clone, Copy, PartialEq, Eq, Structural)]
pub struct Paint {
    pub color: Rgb8,
    pub alpha: i128,
}

/// What is drawn. Lengths are in millionths of a pixel, `y` runs down.
#[derive(Debug, Clone, Copy, PartialEq, Eq, Structural)]
pub enum Shape {
    /// The text of the operation on a baseline, `px` high, shrunk to `widest` where that is not 0.
    Text { x: i128, y: i128, px: i128, align: Align, paint: Paint, widest: i128 },
    /// A filled rectangle.
    Rect { x: i128, y: i128, w: i128, h: i128, paint: Paint },
    /// A line.
    Line { ax: i128, ay: i128, bx: i128, by: i128, thick: i128, paint: Paint },
    /// A cross about a point.
    Cross { x: i128, y: i128, half: i128, paint: Paint },
    /// The combo ring: so many sides, filled and turned by shares in millionths, about the text
    /// of the operation.
    Ring { x: i128, y: i128, radius: i128, sides: u32, fill: i128, wobble: Option<i128>, paint: Paint },
    /// The mark of a playback speed, `px` high.
    Speed { x: i128, y: i128, px: i128, mark: SpeedMark, paint: Paint },
    /// A leader between the last two texts, a label and its value: from `gap` behind the one to
    /// `gap` before the other.
    Leader { y: i128, gap: i128, thick: i128, paint: Paint },
    /// A red edge all around, of this opacity.
    Vignette { alpha: i128 },
}

/// One operation.
#[derive(Debug, Clone)]
pub struct Op {
    pub shape: Shape,
    /// The text of the operation, empty where it has none.
    pub text: String,
}

impl View for Op {
    type V = (Shape, Seq<char>);

    open spec fn view(&self) -> (Shape, Seq<char>) {
        (self.shape, self.text@)
    }
}

/// Operations as plain values.
pub open spec fn drawn(ops: Seq<Op>) -> Seq<(Shape, Seq<char>)> {
    Seq::new(ops.len(), |i: int| ops[i]@)
}

/// An operation without text.
pub open spec fn bare(shape: Shape) -> (Shape, Seq<char>) {
    (shape, Seq::empty())
}

/// Text at a place.
pub open spec fn words_at(
    text: Seq<char>,
    x: int,
    y: int,
    px: int,
    align: Align,
    paint: Paint,
) -> (Shape, Seq<char>) {
    (
        Shape::Text { x: x as i128, y: y as i128, px: px as i128, align, paint, widest: 0 },
        text,
    )
}

/// Text at a place, shrunk to a width.
pub open spec fn fitted_at(
    text: Seq<char>,
    x: int,
    y: int,
    px: int,
    align: Align,
    paint: Paint,
    widest: int,
) -> (Shape, Seq<char>) {
    (
        Shape::Text {
            x: x as i128,
            y: y as i128,
            px: px as i128,
            align,
            paint,
            widest: widest as i128,
        },
        text,
    )
}

/// A rectangle at a place.
pub open spec fn rect_at(x: int, y: int, w: int, h: int, paint: Paint) -> (Shape, Seq<char>) {
    bare(Shape::Rect { x: x as i128, y: y as i128, w: w as i128, h: h as i128, paint })
}

/// A line.
pub open spec fn line_at(
    ax: int,
    ay: int,
    bx: int,
    by: int,
    thick: int,
    paint: Paint,
) -> (Shape, Seq<char>) {
    bare(
        Shape::Line {
            ax: ax as i128,
            ay: ay as i128,
            bx: bx as i128,
            by: by as i128,
            thick: thick as i128,
            paint,
        },
    )
}

/// A colour and its opacity.
pub open spec fn inked(r: u8, g: u8, b: u8, alpha: int) -> Paint {
    Paint { color: Rgb8 { r, g, b }, alpha: alpha as i128 }
}

/// A colour and its opacity.
pub fn paint(r: u8, g: u8, b: u8, alpha: i128) -> (p: Paint)
    ensures
        p == inked(r, g, b, alpha as int),
{
    Paint { color: Rgb8 { r, g, b }, alpha }
}

/// Draws an operation without text.
pub fn draw(ops: &mut Vec<Op>, shape: Shape)
    ensures
        drawn(final(ops)@) == drawn(old(ops)@).push(bare(shape)),
{
    ops.push(Op { shape, text: String::new() });
    assert(drawn(ops@) =~= drawn(old(ops)@).push(bare(shape)));
}

/// Draws an operation with text.
pub fn draw_with(ops: &mut Vec<Op>, shape: Shape, text: String)
    ensures
        drawn(final(ops)@) == drawn(old(ops)@).push((shape, text@)),
{
    ops.push(Op { shape, text });
    assert(drawn(ops@) =~= drawn(old(ops)@).push((shape, text@)));
}

/// Draws text.
pub fn write_text(ops: &mut Vec<Op>, text: String, x: i128, y: i128, px: i128, align: Align, paint: Paint)
    ensures
        drawn(final(ops)@) == drawn(old(ops)@).push(
            words_at(text@, x as int, y as int, px as int, align, paint),
        ),
{
    draw_with(ops, Shape::Text { x, y, px, align, paint, widest: 0 }, text);
}

/// Draws text, shrunk to a width.
pub fn fit_text(
    ops: &mut Vec<Op>,
    text: String,
    x: i128,
    y: i128,
    px: i128,
    align: Align,
    paint: Paint,
    widest: i128,
)
    ensures
        drawn(final(ops)@) == drawn(old(ops)@).push(
            fitted_at(text@, x as int, y as int, px as int, align, paint, widest as int),
        ),
{
    draw_with(ops, Shape::Text { x, y, px, align, paint, widest }, text);
}

/// Draws a rectangle.
pub fn fill_rect(ops: &mut Vec<Op>, x: i128, y: i128, w: i128, h: i128, paint: Paint)
    ensures
        drawn(final(ops)@) == drawn(old(ops)@).push(
            rect_at(x as int, y as int, w as int, h as int, paint),
        ),
{
    draw(ops, Shape::Rect { x, y, w, h, paint });
}

/// Draws a line.
pub fn stroke(ops: &mut Vec<Op>, ax: i128, ay: i128, bx: i128, by: i128, thick: i128, paint: Paint)
    ensures
        drawn(final(ops)@) == drawn(old(ops)@).push(
            line_at(ax as int, ay as int, bx as int, by as int, thick as int, paint),
        ),
{
    draw(ops, Shape::Line { ax, ay, bx, by, thick, paint });
}

/// A turn about a point, by an angle in millionths of a radian.
#[derive(Debug, Clone, Copy, PartialEq, Eq, Structural)]
pub struct Tilt {
    pub x: i128,
    pub y: i128,
    pub angle: i128,
}

/// A movable part of the overlay.
#[derive(Debug, Clone)]
pub struct Element {
    /// Name of the part; empty for what stays where it is.
    pub key: &'static str,
    pub ops: Vec<Op>,
    /// How the part is tilted, where it is.
    pub tilt: Option<Tilt>,
}

/// A part of the overlay as plain values.
pub struct ElementModel {
    pub key: Seq<char>,
    pub ops: Seq<(Shape, Seq<char>)>,
    pub tilt: Option<Tilt>,
}

impl View for Element {
    type V = ElementModel;

    open spec fn view(&self) -> ElementModel {
        ElementModel { key: self.key@, ops: drawn(self.ops@), tilt: self.tilt }
    }
}

/// Parts of the overlay as plain values.
pub open spec fn parts_of(list: Seq<Element>) -> Seq<ElementModel> {
    Seq::new(list.len(), |i: int| list[i]@)
}

/// Adds a part.
pub fn add_part(
    list: &mut Vec<Element>,
    key: &'static str,
    ops: Vec<Op>,
    tilt: Option<Tilt>,
)
    ensures
        parts_of(final(list)@) == parts_of(old(list)@).push(
            ElementModel { key: key@, ops: drawn(ops@), tilt },
        ),
{
    list.push(Element { key, ops, tilt });
    assert(parts_of(list@) =~= parts_of(old(list)@).push(
        ElementModel { key: key@, ops: drawn(ops@), tilt },
    ));
}

/// A size scaled by `num / den`, to the nearest.
pub fn scaled(v: i128, num: i128, den: i128) -> (r: i128)
    requires
        0 < den <= 1_000_000_000_000_000_000,
        magnitude(v as int) <= 1_000_000_000_000_000_000_000_000,
        magnitude(num as int) <= 10_000_000_000_000,
    ensures
        r == nearest(v * num, den as int),
        magnitude(r as int) <= magnitude(v as int) * magnitude(num as int),
{
    assert(magnitude(v * num) == magnitude(v as int) * magnitude(num as int)) by (nonlinear_arith);
    let ghost a = magnitude(v as int);
    let ghost b = magnitude(num as int);
    assert(0 <= a * b <= 10_000_000_000_000_000_000_000_000_000_000_000_000) by (nonlinear_arith)
        requires
            0 <= a <= 1_000_000_000_000_000_000_000_000,
            0 <= b <= 10_000_000_000_000,
    ;
    div_nearest(v * num, den)
}

} // verus!
