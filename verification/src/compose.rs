//! The background of a skin: its layers in one picture, from the bottom up.

use vstd::prelude::*;

use crate::config::{BackgroundLayer, SkinConfig};
use crate::fixed::{
    div_nearest, law_rounding_is_closest, law_rounding_is_monotone, law_rounding_keeps_whole_numbers,
    lemma_part_is_smaller, magnitude, nearest, within,
};
use crate::pictures::{channel, decode_image_rgba, has_pixels, is_decoded, picture_of, Picture};

verus! {

/// The longest side of a frame that layers are put together for.
pub const FRAME_LIMIT: u32 = 1_048_576;

/// Two opposite corners on the screen, in millionths of a pixel.
#[derive(Debug, Clone, Copy, PartialEq, Eq, Structural)]
pub struct Corners {
    pub x0: i64,
    pub y0: i64,
    pub x1: i64,
    pub y1: i64,
}

/// Where a layer lies on the screen: its middle and half its sides, in millionths of a pixel.
#[derive(Debug, Clone, Copy, PartialEq, Eq, Structural)]
pub struct Area {
    pub cx: i128,
    pub cy: i128,
    pub half_w: i128,
    pub half_h: i128,
}

/// Whether a layer is small enough to be put in place.
pub open spec fn layer_fits(l: BackgroundLayer) -> bool {
    &&& magnitude(l.center_x as int) <= 1_000_000_000_000
    &&& magnitude(l.center_y as int) <= 1_000_000_000_000
    &&& magnitude(l.scale_x as int) <= 1_000_000_000_000
    &&& magnitude(l.scale_y as int) <= 1_000_000_000_000
    &&& magnitude(l.tint.r as int) <= 1_000_000_000_000
    &&& magnitude(l.tint.g as int) <= 1_000_000_000_000
    &&& magnitude(l.tint.b as int) <= 1_000_000_000_000
    &&& magnitude(l.tint_opacity as int) <= 1_000_000_000_000
}

/// Whether layers are small enough to be put in place.
pub open spec fn layers_fit(layers: Seq<BackgroundLayer>) -> bool {
    forall|i: int| 0 <= i < layers.len() ==> layer_fits(#[trigger] layers[i])
}

fn small(v: i64) -> (r: bool)
    ensures
        r == (magnitude(v as int) <= 1_000_000_000_000),
{
    -1_000_000_000_000 <= v && v <= 1_000_000_000_000
}

/// Whether layers are small enough to be put in place.
pub fn fits_layers(layers: &[BackgroundLayer]) -> (r: bool)
    ensures
        r == layers_fit(layers@),
{
    let mut i: usize = 0;
    while i < layers.len()
        invariant
            i <= layers@.len(),
            forall|k: int| 0 <= k < i ==> layer_fits(#[trigger] layers@[k]),
        decreases layers@.len() - i,
    {
        let l: &BackgroundLayer = &layers[i];
        if !(small(l.center_x) && small(l.center_y) && small(l.scale_x) && small(l.scale_y)
            && small(l.tint.r) && small(l.tint.g) && small(l.tint.b) && small(l.tint_opacity)) {
            assert(!layer_fits(layers@[i as int]));
            return false;
        }
        i = i + 1;
    }
    true
}

/// The size of a picture on the screen before its own scale: 0 stretches it over the frame, 1
/// fits it in, anything else covers the frame.
pub open spec fn base_size(fit: int, sw: int, sh: int, w: int, h: int) -> (int, int) {
    if fit == 0 {
        (w * 1_000_000, h * 1_000_000)
    } else if (fit == 1) == (w * sh <= h * sw) {
        (w * 1_000_000, nearest(sh * (w * 1_000_000), sw))
    } else {
        (nearest(sw * (h * 1_000_000), sh), h * 1_000_000)
    }
}

/// Where a layer lies: about its own place on the frame, or between corners on the field.
pub open spec fn area_of(
    l: BackgroundLayer,
    on_field: Corners,
    sw: int,
    sh: int,
    w: int,
    h: int,
) -> Area {
    if l.placement == 1 {
        Area {
            cx: nearest(on_field.x0 + on_field.x1, 2) as i128,
            cy: nearest(on_field.y0 + on_field.y1, 2) as i128,
            half_w: nearest(magnitude(on_field.x1 - on_field.x0) * l.scale_x, 2_000_000) as i128,
            half_h: nearest(magnitude(on_field.y1 - on_field.y0) * l.scale_y, 2_000_000) as i128,
        }
    } else {
        let (bw, bh) = base_size(l.fit as int, sw, sh, w, h);
        Area {
            cx: (l.center_x * w) as i128,
            cy: (l.center_y * h) as i128,
            half_w: nearest(bw * l.scale_x, 2_000_000) as i128,
            half_h: nearest(bh * l.scale_y, 2_000_000) as i128,
        }
    }
}

/// The first pixel of a span that lies on a frame.
pub open spec fn first_pixel(center: int, half: int, side: int) -> int {
    within((center - half) / 1_000_000, 0, side)
}

/// The pixel behind a span on a frame.
pub open spec fn end_pixel(center: int, half: int, side: int) -> int {
    within((center + half) / 1_000_000, 0, side)
}

/// Where a pixel falls on a picture: the texel before it, and how far behind that in millionths.
pub open spec fn texel(pixel: int, center: int, half: int, flip: bool, size: int) -> (int, int) {
    let whole = 2 * half;
    let in_from = within(pixel * 1_000_000 - (center - half), 0, whole);
    let along = (if flip {
        whole - in_from
    } else {
        in_from
    }) * (size - 1);
    (along / whole, (along % whole) * 1_000_000 / whole)
}

/// The texel behind another one, or itself at the edge.
pub open spec fn next_texel(x: int, size: int) -> int {
    if x + 1 < size {
        x + 1
    } else {
        size - 1
    }
}

/// A channel of a picture between four texels, in millionths of millionths.
pub open spec fn sampled(p: Picture, tx: (int, int), ty: (int, int), c: int) -> int {
    let w = p.width as int;
    let x1 = next_texel(tx.0, w);
    let y1 = next_texel(ty.0, p.height as int);
    let top = channel(p.rgba@, w, tx.0, ty.0, c) * (1_000_000 - tx.1) + channel(
        p.rgba@,
        w,
        x1,
        ty.0,
        c,
    ) * tx.1;
    let low = channel(p.rgba@, w, tx.0, y1, c) * (1_000_000 - tx.1) + channel(
        p.rgba@,
        w,
        x1,
        y1,
        c,
    ) * tx.1;
    top * (1_000_000 - ty.1) + low * ty.1
}

/// A sample by a tint: in millionths of a step, or of full opacity.
pub open spec fn tinted(sample: int, tint: int) -> int {
    nearest(tint * sample, 255_000_000_000_000)
}

/// A byte with a colour laid over it.
pub open spec fn mixed_in(d: u8, s: int, a: int) -> u8 {
    within((s * a + d * (1_000_000 * (1_000_000 - a))) / 1_000_000_000_000, 0, 255) as u8
}

/// An alpha with another one laid over it.
pub open spec fn covered(d: u8, a: int) -> u8 {
    within((255 * a + d * (1_000_000 - a)) / 1_000_000, 0, 255) as u8
}

/// A frame after pixel `k` of a layer was laid over it; pixels that are all but clear change
/// nothing.
pub open spec fn laid(
    out: Seq<u8>,
    w: int,
    h: int,
    l: BackgroundLayer,
    p: Picture,
    area: Area,
    k: int,
) -> Seq<u8> {
    let x_min = first_pixel(area.cx as int, area.half_w as int, w);
    let y_min = first_pixel(area.cy as int, area.half_h as int, h);
    let cols = end_pixel(area.cx as int, area.half_w as int, w) - x_min;
    let px = x_min + k % cols;
    let py = y_min + k / cols;
    let tx = texel(
        px,
        area.cx as int,
        area.half_w as int,
        l.flip_horizontal,
        p.width as int,
    );
    let ty = texel(py, area.cy as int, area.half_h as int, false, p.height as int);
    let a = tinted(sampled(p, tx, ty, 3), l.tint_opacity as int);
    let at = 4 * (py * w + px);
    if a <= 3_000 {
        out
    } else {
        out.update(at, mixed_in(out[at], tinted(sampled(p, tx, ty, 0), l.tint.r as int), a)).update(
            at + 1,
            mixed_in(out[at + 1], tinted(sampled(p, tx, ty, 1), l.tint.g as int), a),
        ).update(
            at + 2,
            mixed_in(out[at + 2], tinted(sampled(p, tx, ty, 2), l.tint.b as int), a),
        ).update(at + 3, covered(out[at + 3], a))
    }
}

/// A frame after the first `n` pixels of a layer were laid over it.
pub open spec fn painted(
    out: Seq<u8>,
    w: int,
    h: int,
    l: BackgroundLayer,
    p: Picture,
    area: Area,
    n: int,
) -> Seq<u8>
    decreases n,
{
    if n <= 0 {
        out
    } else {
        laid(painted(out, w, h, l, p, area, n - 1), w, h, l, p, area, n - 1)
    }
}

/// How many pixels of a frame an area covers.
pub open spec fn area_pixels(area: Area, w: int, h: int) -> int {
    let cols = end_pixel(area.cx as int, area.half_w as int, w) - first_pixel(
        area.cx as int,
        area.half_w as int,
        w,
    );
    let rows = end_pixel(area.cy as int, area.half_h as int, h) - first_pixel(
        area.cy as int,
        area.half_h as int,
        h,
    );
    if cols <= 0 || rows <= 0 {
        0
    } else {
        cols * rows
    }
}

/// Whether a picture can be drawn at all: it has pixels and is not smaller than two pixels.
pub open spec fn shows(p: Picture, area: Area) -> bool {
    p.width > 0 && p.height > 0 && area.half_w >= 1_000_000 && area.half_h >= 1_000_000
}

/// A frame with the first `n` layers that have a picture, from the bottom up.
pub open spec fn composed(
    layers: Seq<BackgroundLayer>,
    pictures: Seq<Option<Picture>>,
    on_field: Seq<Corners>,
    w: int,
    h: int,
    n: int,
) -> Seq<u8>
    decreases n,
{
    if n <= 0 {
        Seq::new((4 * (w * h)) as nat, |i: int| 0u8)
    } else {
        let below = composed(layers, pictures, on_field, w, h, n - 1);
        match pictures[n - 1] {
            Some(p) => {
                let area = area_of(
                    layers[n - 1],
                    on_field[n - 1],
                    p.width as int,
                    p.height as int,
                    w,
                    h,
                );
                if shows(p, area) {
                    painted(below, w, h, layers[n - 1], p, area, area_pixels(area, w, h))
                } else {
                    below
                }
            },
            None => below,
        }
    }
}

fn clip(v: i128, hi: i128) -> (r: i128)
    requires
        0 <= hi,
    ensures
        r == within(v as int, 0, hi as int),
        0 <= r <= hi,
{
    if v < 0 {
        0
    } else if v > hi {
        hi
    } else {
        v
    }
}

fn half_of(base: i128, scale: i64) -> (r: i128)
    requires
        0 <= base <= 10_000_000_000_000_000_000_000,
        magnitude(scale as int) <= 1_000_000_000_000,
    ensures
        r == nearest(base * scale, 2_000_000),
        magnitude(r as int) <= 6_000_000_000_000_000_000_000_000_000,
{
    let s: i128 = scale as i128;
    assert(magnitude(base * s) <= 10_000_000_000_000_000_000_000_000_000_000_000)
        by (nonlinear_arith)
        requires
            0 <= base <= 10_000_000_000_000_000_000_000,
            -1_000_000_000_000 <= s <= 1_000_000_000_000,
    ;
    let r: i128 = div_nearest(base * s, 2_000_000);
    let ghost m = magnitude(base * s);
    assert(magnitude(r as int) == (2 * m + 2_000_000) / 4_000_000);
    r
}

fn fitted(a: u32, b: u32, side: u32) -> (r: i128)
    requires
        b > 0,
        side <= FRAME_LIMIT,
    ensures
        r == nearest(a * (side * 1_000_000), b as int),
        0 <= r <= 10_000_000_000_000_000_000_000,
{
    let x: i128 = a as i128;
    let y: i128 = side as i128 * 1_000_000;
    assert(0 <= x * y <= 10_000_000_000_000_000_000_000) by (nonlinear_arith)
        requires
            0 <= x <= 0xffff_ffff,
            0 <= y <= 1_048_576_000_000,
    ;
    proof {
        crate::fixed::lemma_nearest_bound(x * y, b as int);
    }
    div_nearest(x * y, b as i128)
}

fn base_of(fit: i64, sw: u32, sh: u32, w: u32, h: u32) -> (r: (i128, i128))
    requires
        sw > 0,
        sh > 0,
        w <= FRAME_LIMIT,
        h <= FRAME_LIMIT,
    ensures
        (r.0 as int, r.1 as int) == base_size(fit as int, sw as int, sh as int, w as int, h as int),
        0 <= r.0 <= 10_000_000_000_000_000_000_000,
        0 <= r.1 <= 10_000_000_000_000_000_000_000,
{
    if fit == 0 {
        return (w as i128 * 1_000_000, h as i128 * 1_000_000);
    }
    assert(0 <= w * sh <= 1_048_576 * 0xffff_ffff) by (nonlinear_arith)
        requires
            0 <= w <= 1_048_576,
            0 <= sh <= 0xffff_ffff,
    ;
    assert(0 <= h * sw <= 1_048_576 * 0xffff_ffff) by (nonlinear_arith)
        requires
            0 <= h <= 1_048_576,
            0 <= sw <= 0xffff_ffff,
    ;
    let flatter: bool = w as u64 * sh as u64 <= h as u64 * sw as u64;
    if (fit == 1) == flatter {
        (w as i128 * 1_000_000, fitted(sh, sw, w))
    } else {
        (fitted(sw, sh, h), h as i128 * 1_000_000)
    }
}

fn place_layer(l: &BackgroundLayer, on_field: Corners, sw: u32, sh: u32, w: u32, h: u32) -> (a: Area)
    requires
        layer_fits(*l),
        sw > 0,
        sh > 0,
        w <= FRAME_LIMIT,
        h <= FRAME_LIMIT,
    ensures
        a == area_of(*l, on_field, sw as int, sh as int, w as int, h as int),
        magnitude(a.cx as int) <= 20_000_000_000_000_000_000,
        magnitude(a.cy as int) <= 20_000_000_000_000_000_000,
        magnitude(a.half_w as int) <= 6_000_000_000_000_000_000_000_000_000,
        magnitude(a.half_h as int) <= 6_000_000_000_000_000_000_000_000_000,
{
    if l.placement == 1 {
        let dx: i128 = on_field.x1 as i128 - on_field.x0 as i128;
        let dy: i128 = on_field.y1 as i128 - on_field.y0 as i128;
        let wide: i128 = if dx < 0 {
            -dx
        } else {
            dx
        };
        let tall: i128 = if dy < 0 {
            -dy
        } else {
            dy
        };
        Area {
            cx: div_nearest(on_field.x0 as i128 + on_field.x1 as i128, 2),
            cy: div_nearest(on_field.y0 as i128 + on_field.y1 as i128, 2),
            half_w: half_of(wide, l.scale_x),
            half_h: half_of(tall, l.scale_y),
        }
    } else {
        let (bw, bh) = base_of(l.fit, sw, sh, w, h);
        let x: i128 = l.center_x as i128;
        let y: i128 = l.center_y as i128;
        assert(magnitude(x * w) <= 2_000_000_000_000_000_000) by (nonlinear_arith)
            requires
                -1_000_000_000_000 <= x <= 1_000_000_000_000,
                0 <= w <= 1_048_576,
        ;
        assert(magnitude(y * h) <= 2_000_000_000_000_000_000) by (nonlinear_arith)
            requires
                -1_000_000_000_000 <= y <= 1_000_000_000_000,
                0 <= h <= 1_048_576,
        ;
        Area {
            cx: x * w as i128,
            cy: y * h as i128,
            half_w: half_of(bw, l.scale_x),
            half_h: half_of(bh, l.scale_y),
        }
    }
}

fn floor_pixel(v: i128, side: u32) -> (r: u32)
    ensures
        r == within(v as int / 1_000_000, 0, side as int),
        r <= side,
{
    if v < 0 {
        0
    } else if v / 1_000_000 > side as i128 {
        side
    } else {
        (v / 1_000_000) as u32
    }
}

fn texel_at(pixel: u32, center: i128, half: i128, flip: bool, size: u32) -> (t: (u32, i128))
    requires
        size > 0,
        magnitude(center as int) <= 20_000_000_000_000_000_000,
        1_000_000 <= half <= 6_000_000_000_000_000_000_000_000_000,
    ensures
        (t.0 as int, t.1 as int) == texel(
            pixel as int,
            center as int,
            half as int,
            flip,
            size as int,
        ),
        t.0 < size,
        0 <= t.1 <= 1_000_000,
{
    let whole: i128 = 2 * half;
    let in_from: i128 = clip(pixel as i128 * 1_000_000 - (center - half), whole);
    let kept: i128 = if flip {
        whole - in_from
    } else {
        in_from
    };
    let n: i128 = size as i128 - 1;
    assert(0 <= kept * n <= whole * n && whole * n
        <= 12_000_000_000_000_000_000_000_000_000 * 0xffff_ffff) by (nonlinear_arith)
        requires
            0 <= kept <= whole,
            0 <= whole <= 12_000_000_000_000_000_000_000_000_000,
            0 <= n <= 0xffff_ffff,
    ;
    let along: i128 = kept * n;
    assert(0 <= along / whole <= n) by (nonlinear_arith)
        requires
            0 <= along <= whole * n,
            whole > 0,
    ;
    let rest: i128 = along % whole;
    assert(0 <= rest * 1_000_000 / (whole as int) <= 1_000_000) by (nonlinear_arith)
        requires
            0 <= rest < whole,
            whole > 0,
    ;
    ((along / whole) as u32, rest * 1_000_000 / whole)
}

fn byte_at(p: &Picture, x: u32, y: u32, c: usize) -> (v: i128)
    requires
        has_pixels(p.rgba@, p.width as int, p.height as int),
        x < p.width,
        y < p.height,
        c < 4,
    ensures
        v == channel(p.rgba@, p.width as int, x as int, y as int, c as int),
        0 <= v <= 255,
{
    let len: usize = p.rgba.len();
    assert(0 <= y * p.width && y * p.width + p.width <= p.width * p.height) by (nonlinear_arith)
        requires
            0 <= y,
            y + 1 <= p.height,
            0 <= p.width,
    ;
    p.rgba[4 * (y as usize * p.width as usize + x as usize) + c] as i128
}

fn blend(a: i128, b: i128, t: i128, most: i128) -> (r: i128)
    requires
        0 <= a <= most,
        0 <= b <= most,
        most <= 1_000_000_000,
        0 <= t <= 1_000_000,
    ensures
        r == a * (1_000_000 - t) + b * t,
        0 <= r <= most * 1_000_000,
{
    assert(0 <= a * (1_000_000 - t) <= most * (1_000_000 - t)) by (nonlinear_arith)
        requires
            0 <= a <= most,
            0 <= t <= 1_000_000,
    ;
    assert(0 <= b * t <= most * t) by (nonlinear_arith)
        requires
            0 <= b <= most,
            0 <= t,
    ;
    assert(most * (1_000_000 - t) + most * t == most * 1_000_000) by (nonlinear_arith);
    a * (1_000_000 - t) + b * t
}

fn sample(p: &Picture, tx: (u32, i128), ty: (u32, i128), c: usize) -> (v: i128)
    requires
        has_pixels(p.rgba@, p.width as int, p.height as int),
        tx.0 < p.width,
        ty.0 < p.height,
        0 <= tx.1 <= 1_000_000,
        0 <= ty.1 <= 1_000_000,
        c < 4,
    ensures
        v == sampled(*p, (tx.0 as int, tx.1 as int), (ty.0 as int, ty.1 as int), c as int),
        0 <= v <= 255_000_000_000_000,
{
    let x1: u32 = if tx.0 < p.width - 1 {
        tx.0 + 1
    } else {
        p.width - 1
    };
    let y1: u32 = if ty.0 < p.height - 1 {
        ty.0 + 1
    } else {
        p.height - 1
    };
    let top: i128 = blend(byte_at(p, tx.0, ty.0, c), byte_at(p, x1, ty.0, c), tx.1, 255);
    let low: i128 = blend(byte_at(p, tx.0, y1, c), byte_at(p, x1, y1, c), tx.1, 255);
    blend(top, low, ty.1, 255_000_000)
}

fn by_tint(v: i128, tint: i64) -> (r: i128)
    requires
        0 <= v <= 255_000_000_000_000,
        magnitude(tint as int) <= 1_000_000_000_000,
    ensures
        r == tinted(v as int, tint as int),
        magnitude(r as int) <= 1_000_000_000_000,
{
    let t: i128 = tint as i128;
    assert(magnitude(t * v) <= 1_000_000_000_000 * 255_000_000_000_000) by (nonlinear_arith)
        requires
            -1_000_000_000_000 <= t <= 1_000_000_000_000,
            0 <= v <= 255_000_000_000_000,
    ;
    proof {
        lemma_part_is_smaller(t as int, v as int, 255_000_000_000_000);
    }
    div_nearest(t * v, 255_000_000_000_000)
}

fn mix_in(d: u8, s: i128, a: i128) -> (r: u8)
    requires
        magnitude(s as int) <= 1_000_000_000_000,
        magnitude(a as int) <= 1_000_000_000_000,
    ensures
        r == mixed_in(d, s as int, a as int),
{
    assert(magnitude(s * a) <= 1_000_000_000_000_000_000_000_000) by (nonlinear_arith)
        requires
            -1_000_000_000_000 <= s <= 1_000_000_000_000,
            -1_000_000_000_000 <= a <= 1_000_000_000_000,
    ;
    let rest: i128 = 1_000_000 * (1_000_000 - a);
    assert(magnitude(d * rest) <= 255 * 2_000_000_000_000_000_000) by (nonlinear_arith)
        requires
            0 <= d <= 255,
            -2_000_000_000_000_000_000 <= rest <= 2_000_000_000_000_000_000,
    ;
    let sum: i128 = s * a + d as i128 * rest;
    if sum < 0 {
        0
    } else if sum / 1_000_000_000_000 > 255 {
        255
    } else {
        (sum / 1_000_000_000_000) as u8
    }
}

fn cover(d: u8, a: i128) -> (r: u8)
    requires
        magnitude(a as int) <= 1_000_000_000_000,
    ensures
        r == covered(d, a as int),
{
    let rest: i128 = 1_000_000 - a;
    assert(magnitude(d * rest) <= 255 * 2_000_000_000_000) by (nonlinear_arith)
        requires
            0 <= d <= 255,
            -2_000_000_000_000 <= rest <= 2_000_000_000_000,
    ;
    let sum: i128 = 255 * a + d as i128 * rest;
    if sum < 0 {
        0
    } else if sum / 1_000_000 > 255 {
        255
    } else {
        (sum / 1_000_000) as u8
    }
}

fn lay_pixel(
    out: &mut Vec<u8>,
    l: &BackgroundLayer,
    p: &Picture,
    tx: (u32, i128),
    ty: (u32, i128),
    at: usize,
)
    requires
        layer_fits(*l),
        has_pixels(p.rgba@, p.width as int, p.height as int),
        tx.0 < p.width,
        ty.0 < p.height,
        0 <= tx.1 <= 1_000_000,
        0 <= ty.1 <= 1_000_000,
        at + 3 < old(out)@.len(),
    ensures
        ({
            let x = (tx.0 as int, tx.1 as int);
            let y = (ty.0 as int, ty.1 as int);
            let a = tinted(sampled(*p, x, y, 3), l.tint_opacity as int);
            let o = old(out)@;
            let i = at as int;
            final(out)@ == if a <= 3_000 {
                o
            } else {
                o.update(i, mixed_in(o[i], tinted(sampled(*p, x, y, 0), l.tint.r as int), a)).update(
                    i + 1,
                    mixed_in(o[i + 1], tinted(sampled(*p, x, y, 1), l.tint.g as int), a),
                ).update(
                    i + 2,
                    mixed_in(o[i + 2], tinted(sampled(*p, x, y, 2), l.tint.b as int), a),
                ).update(i + 3, covered(o[i + 3], a))
            }
        }),
{
    let len: usize = out.len();
    assert(at + 3 < len);
    let a: i128 = by_tint(sample(p, tx, ty, 3), l.tint_opacity);
    if a > 3_000 {
        let r: u8 = mix_in(out[at], by_tint(sample(p, tx, ty, 0), l.tint.r), a);
        let g: u8 = mix_in(out[at + 1], by_tint(sample(p, tx, ty, 1), l.tint.g), a);
        let b: u8 = mix_in(out[at + 2], by_tint(sample(p, tx, ty, 2), l.tint.b), a);
        let o: u8 = cover(out[at + 3], a);
        out.set(at, r);
        out.set(at + 1, g);
        out.set(at + 2, b);
        out.set(at + 3, o);
    }
}

/// Lays a layer over a frame.
fn lay_over(out: &mut Vec<u8>, w: u32, h: u32, l: &BackgroundLayer, p: &Picture, area: Area)
    requires
        layer_fits(*l),
        has_pixels(p.rgba@, p.width as int, p.height as int),
        shows(*p, area),
        magnitude(area.cx as int) <= 20_000_000_000_000_000_000,
        magnitude(area.cy as int) <= 20_000_000_000_000_000_000,
        area.half_w <= 6_000_000_000_000_000_000_000_000_000,
        area.half_h <= 6_000_000_000_000_000_000_000_000_000,
        old(out)@.len() == 4 * (w * h),
    ensures
        final(out)@ == painted(
            old(out)@,
            w as int,
            h as int,
            *l,
            *p,
            area,
            area_pixels(area, w as int, h as int),
        ),
        final(out)@.len() == old(out)@.len(),
{
    let ghost begun = out@;
    let len: usize = out.len();
    let x_min: u32 = floor_pixel(area.cx - area.half_w, w);
    let x_max: u32 = floor_pixel(area.cx + area.half_w, w);
    let y_min: u32 = floor_pixel(area.cy - area.half_h, h);
    let y_max: u32 = floor_pixel(area.cy + area.half_h, h);
    if x_max <= x_min || y_max <= y_min {
        return;
    }
    let ghost cols = x_max - x_min;
    let mut py: u32 = y_min;
    while py < y_max
        invariant
            y_min <= py <= y_max <= h,
            x_min < x_max <= w,
            cols == x_max - x_min,
            x_min == first_pixel(area.cx as int, area.half_w as int, w as int),
            x_max == end_pixel(area.cx as int, area.half_w as int, w as int),
            y_min == first_pixel(area.cy as int, area.half_h as int, h as int),
            layer_fits(*l),
            has_pixels(p.rgba@, p.width as int, p.height as int),
            shows(*p, area),
            magnitude(area.cx as int) <= 20_000_000_000_000_000_000,
            magnitude(area.cy as int) <= 20_000_000_000_000_000_000,
            area.half_w <= 6_000_000_000_000_000_000_000_000_000,
            area.half_h <= 6_000_000_000_000_000_000_000_000_000,
            len == out@.len() == 4 * (w * h),
            out@ == painted(begun, w as int, h as int, *l, *p, area, (py - y_min) * cols),
        decreases y_max - py,
    {
        let ty: (u32, i128) = texel_at(py, area.cy, area.half_h, false, p.height);
        let mut px: u32 = x_min;
        while px < x_max
            invariant
                y_min <= py < y_max <= h,
                x_min <= px <= x_max <= w,
                cols == x_max - x_min,
                cols > 0,
                x_min == first_pixel(area.cx as int, area.half_w as int, w as int),
                x_max == end_pixel(area.cx as int, area.half_w as int, w as int),
                y_min == first_pixel(area.cy as int, area.half_h as int, h as int),
                layer_fits(*l),
                has_pixels(p.rgba@, p.width as int, p.height as int),
                shows(*p, area),
                magnitude(area.cx as int) <= 20_000_000_000_000_000_000,
                area.half_w <= 6_000_000_000_000_000_000_000_000_000,
                (ty.0 as int, ty.1 as int) == texel(
                    py as int,
                    area.cy as int,
                    area.half_h as int,
                    false,
                    p.height as int,
                ),
                ty.0 < p.height,
                0 <= ty.1 <= 1_000_000,
                len == out@.len() == 4 * (w * h),
                out@ == painted(
                    begun,
                    w as int,
                    h as int,
                    *l,
                    *p,
                    area,
                    (py - y_min) * cols + (px - x_min),
                ),
            decreases x_max - px,
        {
            let ghost k = (py - y_min) * cols + (px - x_min);
            proof {
                vstd::arithmetic::div_mod::lemma_fundamental_div_mod_converse(
                    k,
                    cols,
                    py - y_min,
                    px - x_min,
                );
                assert(0 <= py * w && py * w + w <= w * h) by (nonlinear_arith)
                    requires
                        0 <= py,
                        py + 1 <= h,
                        0 <= w,
                ;
                assert(k >= 0) by (nonlinear_arith)
                    requires
                        k == (py - y_min) * cols + (px - x_min),
                        py >= y_min,
                        px >= x_min,
                        cols > 0,
                ;
            }
            let tx: (u32, i128) = texel_at(
                px,
                area.cx,
                area.half_w,
                l.flip_horizontal,
                p.width,
            );
            let at: usize = 4 * (py as usize * w as usize + px as usize);
            lay_pixel(out, l, p, tx, ty, at);
            assert(out@ == painted(begun, w as int, h as int, *l, *p, area, k + 1));
            px = px + 1;
        }
        assert((py + 1 - y_min) * cols == (py - y_min) * cols + cols) by (nonlinear_arith);
        py = py + 1;
    }
    assert((y_max - y_min) * cols == cols * (y_max - y_min)) by (nonlinear_arith);
}

fn blank(w: u32, h: u32) -> (out: Vec<u8>)
    requires
        4 * (w * h) <= usize::MAX,
    ensures
        out@ == Seq::new((4 * (w * h)) as nat, |i: int| 0u8),
{
    assert(0 <= w * h) by (nonlinear_arith)
        requires
            0 <= w,
            0 <= h,
    ;
    let n: usize = 4 * (w as usize * h as usize);
    let mut out: Vec<u8> = Vec::new();
    let mut i: usize = 0;
    while i < n
        invariant
            i <= n,
            out@.len() == i,
            forall|k: int| 0 <= k < i ==> out@[k] == 0,
        decreases n - i,
    {
        out.push(0);
        i = i + 1;
    }
    assert(out@ =~= Seq::new((4 * (w * h)) as nat, |i: int| 0u8));
    out
}

/// Whether decoded pictures have their pixels.
pub open spec fn all_have_pixels(pictures: Seq<Option<Picture>>) -> bool {
    forall|i: int|
        0 <= i < pictures.len() ==> ((#[trigger] pictures[i]) matches Some(p) ==> has_pixels(
            p.rgba@,
            p.width as int,
            p.height as int,
        ))
}

/// Puts the layers of a background together, from the bottom up: each with its picture, none
/// where that could not be decoded, and its corners, which count where it stands on the field.
pub fn compose_layers(
    layers: &[BackgroundLayer],
    pictures: &[Option<Picture>],
    on_field: &[Corners],
    width: u32,
    height: u32,
) -> (out: Vec<u8>)
    requires
        layers_fit(layers@),
        pictures@.len() == layers@.len(),
        on_field@.len() == layers@.len(),
        all_have_pixels(pictures@),
        width <= FRAME_LIMIT,
        height <= FRAME_LIMIT,
        4 * (width * height) <= usize::MAX,
    ensures
        out@ == composed(
            layers@,
            pictures@,
            on_field@,
            width as int,
            height as int,
            layers@.len() as int,
        ),
        out@.len() == 4 * (width * height),
{
    assert(0 <= width * height) by (nonlinear_arith)
        requires
            0 <= width,
            0 <= height,
    ;
    let mut out: Vec<u8> = blank(width, height);
    let mut i: usize = 0;
    while i < layers.len()
        invariant
            i <= layers@.len(),
            layers_fit(layers@),
            pictures@.len() == layers@.len(),
            on_field@.len() == layers@.len(),
            all_have_pixels(pictures@),
            width <= FRAME_LIMIT,
            height <= FRAME_LIMIT,
            out@.len() == 4 * (width * height),
            out@ == composed(
                layers@,
                pictures@,
                on_field@,
                width as int,
                height as int,
                i as int,
            ),
        decreases layers@.len() - i,
    {
        assert(layer_fits(layers@[i as int]));
        if let Some(p) = &pictures[i] {
            assert(has_pixels(p.rgba@, p.width as int, p.height as int));
            if p.width > 0 && p.height > 0 {
                let area: Area = place_layer(
                    &layers[i],
                    on_field[i],
                    p.width,
                    p.height,
                    width,
                    height,
                );
                if area.half_w >= 1_000_000 && area.half_h >= 1_000_000 {
                    lay_over(&mut out, width, height, &layers[i], p, area);
                }
            }
        }
        i = i + 1;
    }
    out
}

/// Whether pictures are those that the layers hold, as far as their bytes can be decoded.
pub open spec fn are_decoded(layers: Seq<BackgroundLayer>, pictures: Seq<Option<Picture>>) -> bool {
    &&& pictures.len() == layers.len()
    &&& all_have_pixels(pictures)
    &&& forall|i: int|
        0 <= i < layers.len() ==> match #[trigger] pictures[i] {
            Some(p) => is_decoded(p, layers[i].bytes@),
            None => picture_of(layers[i].bytes@) is None,
        }
}

/// Puts the background of a skin together; none where it has no layers.
pub fn compose_background(config: &SkinConfig, on_field: &[Corners], width: u32, height: u32) -> (r:
    Option<Vec<u8>>)
    requires
        layers_fit(config.background_images@),
        on_field@.len() == config.background_images@.len(),
        width <= FRAME_LIMIT,
        height <= FRAME_LIMIT,
        4 * (width * height) <= usize::MAX,
    ensures
        match r {
            Some(out) => config.background_images@.len() > 0 && exists|pictures:
                Seq<Option<Picture>>| #[trigger]
                are_decoded(config.background_images@, pictures) && out@ == composed(
                    config.background_images@,
                    pictures,
                    on_field@,
                    width as int,
                    height as int,
                    config.background_images@.len() as int,
                ),
            None => config.background_images@.len() == 0,
        },
{
    let layers: &[BackgroundLayer] = config.background_images.as_slice();
    if layers.len() == 0 {
        return None;
    }
    let mut pictures: Vec<Option<Picture>> = Vec::new();
    let mut i: usize = 0;
    while i < layers.len()
        invariant
            i <= layers@.len(),
            pictures@.len() == i,
            all_have_pixels(pictures@),
            forall|k: int|
                0 <= k < i ==> match #[trigger] pictures@[k] {
                    Some(p) => is_decoded(p, layers@[k].bytes@),
                    None => picture_of(layers@[k].bytes@) is None,
                },
        decreases layers@.len() - i,
    {
        let p: Option<Picture> = decode_image_rgba(layers[i].bytes.as_slice());
        pictures.push(p);
        i = i + 1;
    }
    let out: Vec<u8> = compose_layers(layers, pictures.as_slice(), on_field, width, height);
    assert(are_decoded(config.background_images@, pictures@));
    Some(out)
}

/// A stretched picture has the frame's size; one that is fitted in is as large as it can be without
/// leaving the frame, one that covers it as small as it can be without leaving it open. Neither
/// changes its proportions.
pub proof fn law_pictures_fit_or_cover(sw: int, sh: int, w: int, h: int)
    requires
        sw > 0,
        sh > 0,
        w > 0,
        h > 0,
    ensures
        base_size(0, sw, sh, w, h) == (w * 1_000_000, h * 1_000_000),
        ({
            let (a, b) = base_size(1, sw, sh, w, h);
            &&& a <= w * 1_000_000 && b <= h * 1_000_000
            &&& a == w * 1_000_000 || b == h * 1_000_000
            &&& 2 * magnitude(a * sh - b * sw) <= greater_of(sw, sh)
        }),
        ({
            let (a, b) = base_size(2, sw, sh, w, h);
            &&& a >= w * 1_000_000 && b >= h * 1_000_000
            &&& a == w * 1_000_000 || b == h * 1_000_000
            &&& 2 * magnitude(a * sh - b * sw) <= greater_of(sw, sh)
        }),
{
    let (x, y) = (w * 1_000_000, h * 1_000_000);
    let (p, q) = (nearest(sh * x, sw), nearest(sw * y, sh));
    law_rounding_is_closest(sh * x, sw);
    law_rounding_is_closest(sw * y, sh);
    law_rounding_keeps_whole_numbers(y, 0, sw);
    law_rounding_keeps_whole_numbers(x, 0, sh);
    assert(p * sw == sw * p && x * sh == sh * x && q * sh == sh * q && y * sw == sw * y)
        by (nonlinear_arith);
    if w * sh <= h * sw {
        assert(sh * x <= sw * y) by (nonlinear_arith)
            requires
                w * sh <= h * sw,
                x == w * 1_000_000,
                y == h * 1_000_000,
        ;
        law_rounding_is_monotone(sh * x, sw * y, sw);
        law_rounding_is_monotone(sh * x, sw * y, sh);
    } else {
        assert(sh * x >= sw * y) by (nonlinear_arith)
            requires
                w * sh >= h * sw,
                x == w * 1_000_000,
                y == h * 1_000_000,
        ;
        law_rounding_is_monotone(sw * y, sh * x, sw);
        law_rounding_is_monotone(sw * y, sh * x, sh);
    }
}

/// The longer of two sides.
pub open spec fn greater_of(a: int, b: int) -> int {
    if a > b {
        a
    } else {
        b
    }
}

/// A picture's first column stands at the left edge of its area and its last at the right one, the
/// other way round where it is flipped, and the way between them is even.
pub proof fn law_texels_run_across_the_area(pixel: int, center: int, half: int, size: int)
    requires
        half > 0,
        size > 0,
    ensures
        pixel * 1_000_000 <= center - half ==> texel(pixel, center, half, false, size) == (0int, 0int)
            && texel(pixel, center, half, true, size) == (size - 1, 0int),
        pixel * 1_000_000 >= center + half ==> texel(pixel, center, half, false, size) == (
            size - 1,
            0int,
        ) && texel(pixel, center, half, true, size) == (0int, 0int),
        ({
            let (x, part) = texel(pixel, center, half, false, size);
            &&& 0 <= x < size
            &&& 0 <= part < 1_000_000
            &&& x == size - 1 ==> part == 0
            &&& center - half <= pixel * 1_000_000 <= center + half ==> {
                let at = (pixel * 1_000_000 - (center - half)) * (size - 1);
                &&& 2 * half * x <= at < 2 * half * (x + 1)
                &&& 2 * half * part <= (at - 2 * half * x) * 1_000_000 < 2 * half * (part + 1)
            }
        }),
{
    let whole = 2 * half;
    let inn = within(pixel * 1_000_000 - (center - half), 0, whole);
    let at = inn * (size - 1);
    let (x, rest) = (at / whole, at % whole);
    vstd::arithmetic::div_mod::lemma_fundamental_div_mod(at, whole);
    vstd::arithmetic::div_mod::lemma_mod_bound(at, whole);
    let part = rest * 1_000_000 / whole;
    vstd::arithmetic::div_mod::lemma_fundamental_div_mod(rest * 1_000_000, whole);
    vstd::arithmetic::div_mod::lemma_mod_bound(rest * 1_000_000, whole);
    assert(whole * (x + 1) == whole * x + whole) by (nonlinear_arith);
    assert(whole * (part + 1) == whole * part + whole) by (nonlinear_arith);
    assert(0 <= at <= whole * (size - 1)) by (nonlinear_arith)
        requires
            at == inn * (size - 1),
            0 <= inn <= whole,
            size >= 1,
    ;
    assert(0 <= x <= size - 1) by (nonlinear_arith)
        requires
            whole * x <= at < whole * x + whole,
            0 <= at <= whole * (size - 1),
            whole > 0,
    ;
    assert(0 <= part < 1_000_000) by (nonlinear_arith)
        requires
            whole * part <= rest * 1_000_000 < whole * part + whole,
            0 <= rest < whole,
    ;
    assert(x == size - 1 ==> rest == 0) by (nonlinear_arith)
        requires
            at == whole * x + rest,
            0 <= rest,
            at <= whole * (size - 1),
    ;
    assert(0int / whole == 0 && 0int % whole == 0) by (nonlinear_arith)
        requires
            whole > 0,
    ;
    assert(whole * (size - 1) / whole == size - 1 && whole * (size - 1) % whole == 0) by {
        vstd::arithmetic::div_mod::lemma_div_multiples_vanish(size - 1, whole);
        vstd::arithmetic::div_mod::lemma_mod_multiples_basic(size - 1, whole);
        assert(whole * (size - 1) == (size - 1) * whole) by (nonlinear_arith);
    }
    assert(0 * (size - 1) == 0) by (nonlinear_arith);
    assert((whole - 0) * (size - 1) == whole * (size - 1));
    assert((whole - whole) * (size - 1) == 0) by (nonlinear_arith);
}

/// A sample lies between the least and the greatest of the four pixels around it, so that an even
/// picture stays even; on a pixel it is that pixel.
pub proof fn law_samples_lie_between_pixels(
    p: Picture,
    tx: (int, int),
    ty: (int, int),
    c: int,
    lo: int,
    hi: int,
)
    requires
        0 <= tx.1 <= 1_000_000,
        0 <= ty.1 <= 1_000_000,
        ({
            let w = p.width as int;
            let (x1, y1) = (next_texel(tx.0, w), next_texel(ty.0, p.height as int));
            &&& lo <= channel(p.rgba@, w, tx.0, ty.0, c) <= hi
            &&& lo <= channel(p.rgba@, w, x1, ty.0, c) <= hi
            &&& lo <= channel(p.rgba@, w, tx.0, y1, c) <= hi
            &&& lo <= channel(p.rgba@, w, x1, y1, c) <= hi
        }),
    ensures
        lo * 1_000_000_000_000 <= sampled(p, tx, ty, c) <= hi * 1_000_000_000_000,
        tx.1 == 0 && ty.1 == 0 ==> sampled(p, tx, ty, c) == channel(
            p.rgba@,
            p.width as int,
            tx.0,
            ty.0,
            c,
        ) * 1_000_000_000_000,
{
    let w = p.width as int;
    let (x1, y1) = (next_texel(tx.0, w), next_texel(ty.0, p.height as int));
    let (a, b) = (channel(p.rgba@, w, tx.0, ty.0, c), channel(p.rgba@, w, x1, ty.0, c));
    let (d, e) = (channel(p.rgba@, w, tx.0, y1, c), channel(p.rgba@, w, x1, y1, c));
    let (u, v) = (tx.1, ty.1);
    let top = a * (1_000_000 - u) + b * u;
    let low = d * (1_000_000 - u) + e * u;
    assert(lo * 1_000_000 <= top <= hi * 1_000_000) by (nonlinear_arith)
        requires
            top == a * (1_000_000 - u) + b * u,
            lo <= a <= hi,
            lo <= b <= hi,
            0 <= u <= 1_000_000,
    ;
    assert(lo * 1_000_000 <= low <= hi * 1_000_000) by (nonlinear_arith)
        requires
            low == d * (1_000_000 - u) + e * u,
            lo <= d <= hi,
            lo <= e <= hi,
            0 <= u <= 1_000_000,
    ;
    let s = top * (1_000_000 - v) + low * v;
    let (l, h) = (lo * 1_000_000, hi * 1_000_000);
    assert(l * 1_000_000 <= s <= h * 1_000_000) by (nonlinear_arith)
        requires
            s == top * (1_000_000 - v) + low * v,
            l <= top <= h,
            l <= low <= h,
            0 <= v <= 1_000_000,
    ;
    if u == 0 && v == 0 {
        assert(s == a * 1_000_000_000_000) by (nonlinear_arith)
            requires
                s == top * (1_000_000 - v) + low * v,
                top == a * (1_000_000 - u) + b * u,
                u == 0,
                v == 0,
        ;
    }
}

/// What is opaque hides what is below it and what is clear leaves it; in between the result lies
/// between the two. White light keeps a picture's colours.
pub proof fn law_layers_hide_what_is_below(d: u8, s: u8, a: int)
    requires
        0 <= a <= 1_000_000,
    ensures
        mixed_in(d, 1_000_000 * s, 1_000_000) == s,
        mixed_in(d, 1_000_000 * s, 0) == d,
        s <= d ==> s <= mixed_in(d, 1_000_000 * s, a) <= d,
        d <= s ==> d <= mixed_in(d, 1_000_000 * s, a) <= s,
        covered(d, 1_000_000) == 255,
        covered(d, 0) == d,
        d <= covered(d, a) <= 255,
        tinted(s * 1_000_000_000_000, 255_000_000) == 1_000_000 * s,
        tinted(s * 1_000_000_000_000, 0) == 0,
{
    assert(d * (1_000_000 * (1_000_000 - 1_000_000)) == 0) by (nonlinear_arith);
    assert((1_000_000 * s) * 1_000_000 == s * 1_000_000_000_000) by (nonlinear_arith);
    assert((1_000_000 * s) * 0 == 0) by (nonlinear_arith);
    assert(d * (1_000_000 * (1_000_000 - 0)) == d * 1_000_000_000_000) by (nonlinear_arith);
    let n = 1_000_000 * s * a + d * (1_000_000 * (1_000_000 - a));
    assert(n == 1_000_000 * (s * a + d * (1_000_000 - a))) by (nonlinear_arith)
        requires
            n == 1_000_000 * s * a + d * (1_000_000 * (1_000_000 - a)),
    ;
    let m = s * a + d * (1_000_000 - a);
    assert(s <= d ==> s * 1_000_000 <= m <= d * 1_000_000) by (nonlinear_arith)
        requires
            m == s * a + d * (1_000_000 - a),
            0 <= a <= 1_000_000,
    ;
    assert(d <= s ==> d * 1_000_000 <= m <= s * 1_000_000) by (nonlinear_arith)
        requires
            m == s * a + d * (1_000_000 - a),
            0 <= a <= 1_000_000,
    ;
    let c = 255 * a + d * (1_000_000 - a);
    assert(d * 1_000_000 <= c <= 255_000_000) by (nonlinear_arith)
        requires
            c == 255 * a + d * (1_000_000 - a),
            0 <= a <= 1_000_000,
            d <= 255,
    ;
    law_rounding_keeps_whole_numbers(1_000_000 * s, 0, 255_000_000_000_000);
    law_rounding_keeps_whole_numbers(0, 0, 255_000_000_000_000);
    assert(0 * (s * 1_000_000_000_000) == 0);
}

/// A picture on the frame has its middle where its layer says, and one on the field that of the
/// field; sizes are taken times the scales, in both directions alike.
pub proof fn law_areas_lie_around_their_middle(
    l: BackgroundLayer,
    on_field: Corners,
    sw: int,
    sh: int,
    w: int,
    h: int,
)
    requires
        layer_fits(l),
        0 < sw <= 1_048_576,
        0 < sh <= 1_048_576,
        0 < w <= FRAME_LIMIT,
        0 < h <= FRAME_LIMIT,
    ensures
        l.placement != 1 ==> {
            let a = area_of(l, on_field, sw, sh, w, h);
            let (bw, bh) = base_size(l.fit as int, sw, sh, w, h);
            &&& a.cx == l.center_x * w
            &&& a.cy == l.center_y * h
            &&& 2 * magnitude(2_000_000 * a.half_w - bw * l.scale_x) <= 2_000_000
            &&& 2 * magnitude(2_000_000 * a.half_h - bh * l.scale_y) <= 2_000_000
        },
        l.placement == 1 ==> {
            let a = area_of(l, on_field, sw, sh, w, h);
            &&& 0 <= magnitude(2 * a.cx - on_field.x0 - on_field.x1) <= 1
            &&& 0 <= magnitude(2 * a.cy - on_field.y0 - on_field.y1) <= 1
            &&& 2 * magnitude(
                2_000_000 * a.half_w - magnitude(on_field.x1 - on_field.x0) * l.scale_x,
            ) <= 2_000_000
            &&& 2 * magnitude(
                2_000_000 * a.half_h - magnitude(on_field.y1 - on_field.y0) * l.scale_y,
            ) <= 2_000_000
        },
{
    if l.placement == 1 {
        let (x, y) = (magnitude(on_field.x1 - on_field.x0), magnitude(on_field.y1 - on_field.y0));
        law_rounding_is_closest(on_field.x0 + on_field.x1, 2);
        law_rounding_is_closest(on_field.y0 + on_field.y1, 2);
        law_rounding_is_closest(x * l.scale_x, 2_000_000);
        law_rounding_is_closest(y * l.scale_y, 2_000_000);
        lemma_product_fits(x, l.scale_x as int);
        lemma_product_fits(y, l.scale_y as int);
    } else {
        let (bw, bh) = base_size(l.fit as int, sw, sh, w, h);
        law_rounding_is_closest(bw * l.scale_x, 2_000_000);
        law_rounding_is_closest(bh * l.scale_y, 2_000_000);
        lemma_base_fits(l.fit as int, sw, sh, w, h);
        lemma_product_fits(bw, l.scale_x as int);
        lemma_product_fits(bh, l.scale_y as int);
        assert(magnitude(l.center_x * w) <= 1_000_000_000_000 * 1_048_576) by (nonlinear_arith)
            requires
                magnitude(l.center_x as int) <= 1_000_000_000_000,
                0 < w <= 1_048_576,
        ;
        assert(magnitude(l.center_y * h) <= 1_000_000_000_000 * 1_048_576) by (nonlinear_arith)
            requires
                magnitude(l.center_y as int) <= 1_000_000_000_000,
                0 < h <= 1_048_576,
        ;
    }
}

proof fn lemma_product_fits(x: int, scale: int)
    requires
        0 <= x <= 0x4_0000_0000_0000_0000,
        magnitude(scale) <= 1_000_000_000_000,
    ensures
        magnitude(nearest(x * scale, 2_000_000)) <= i128::MAX,
{
    assert(magnitude(x * scale) <= 0x4_0000_0000_0000_0000 * 1_000_000_000_000) by (nonlinear_arith)
        requires
            0 <= x <= 0x4_0000_0000_0000_0000,
            magnitude(scale) <= 1_000_000_000_000,
    ;
    law_rounding_is_closest(x * scale, 2_000_000);
}

proof fn lemma_base_fits(fit: int, sw: int, sh: int, w: int, h: int)
    requires
        0 < sw <= 1_048_576,
        0 < sh <= 1_048_576,
        0 < w <= FRAME_LIMIT,
        0 < h <= FRAME_LIMIT,
    ensures
        0 <= base_size(fit, sw, sh, w, h).0 <= 0x4_0000_0000_0000_0000,
        0 <= base_size(fit, sw, sh, w, h).1 <= 0x4_0000_0000_0000_0000,
{
    assert(0 <= sh * (w * 1_000_000) <= 1_048_576 * 1_048_576_000_000) by (nonlinear_arith)
        requires
            0 < sh <= 1_048_576,
            0 < w <= 1_048_576,
    ;
    assert(0 <= sw * (h * 1_000_000) <= 1_048_576 * 1_048_576_000_000) by (nonlinear_arith)
        requires
            0 < sw <= 1_048_576,
            0 < h <= 1_048_576,
    ;
    crate::fixed::lemma_nearest_bound(sh * (w * 1_000_000), sw);
    crate::fixed::lemma_nearest_bound(sw * (h * 1_000_000), sh);
}

/// Whether a pixel of the frame lies in an area.
pub open spec fn lies_in_area(area: Area, w: int, h: int, px: int, py: int) -> bool {
    &&& first_pixel(area.cx as int, area.half_w as int, w) <= px
    &&& px < end_pixel(area.cx as int, area.half_w as int, w)
    &&& first_pixel(area.cy as int, area.half_h as int, h) <= py
    &&& py < end_pixel(area.cy as int, area.half_h as int, h)
}

/// What a layer makes of byte `c` of the pixel at a place, given what is below it.
pub open spec fn seen_through(
    below: u8,
    l: BackgroundLayer,
    p: Picture,
    area: Area,
    px: int,
    py: int,
    c: int,
) -> u8 {
    let tx = texel(px, area.cx as int, area.half_w as int, l.flip_horizontal, p.width as int);
    let ty = texel(py, area.cy as int, area.half_h as int, false, p.height as int);
    let a = tinted(sampled(p, tx, ty, 3), l.tint_opacity as int);
    let light = if c == 0 {
        l.tint.r as int
    } else if c == 1 {
        l.tint.g as int
    } else {
        l.tint.b as int
    };
    if a <= 3_000 {
        below
    } else if c == 3 {
        covered(below, a)
    } else {
        mixed_in(below, tinted(sampled(p, tx, ty, c), light), a)
    }
}

/// A layer changes only the pixels in its area, and there each by itself: what shows is the picture
/// at the pixel's place, in the layer's light, over what was below.
pub proof fn law_layers_paint_their_area(
    out: Seq<u8>,
    w: int,
    h: int,
    l: BackgroundLayer,
    p: Picture,
    area: Area,
    px: int,
    py: int,
    c: int,
)
    requires
        0 <= px < w,
        0 <= py < h,
        0 <= c < 4,
        out.len() == 4 * (w * h),
    ensures
        ({
            let at = 4 * (py * w + px) + c;
            let end = painted(out, w, h, l, p, area, area_pixels(area, w, h));
            &&& 0 <= at < out.len()
            &&& end.len() == out.len()
            &&& lies_in_area(area, w, h, px, py) ==> end[at] == seen_through(
                out[at],
                l,
                p,
                area,
                px,
                py,
                c,
            )
            &&& !lies_in_area(area, w, h, px, py) ==> end[at] == out[at]
        }),
{
    let x = first_pixel(area.cx as int, area.half_w as int, w);
    let y = first_pixel(area.cy as int, area.half_h as int, h);
    let cols = end_pixel(area.cx as int, area.half_w as int, w) - x;
    let rows = end_pixel(area.cy as int, area.half_h as int, h) - y;
    let n = area_pixels(area, w, h);
    assert(0 <= 4 * (py * w + px) && 4 * (py * w + px) + 3 < 4 * (w * h)) by (nonlinear_arith)
        requires
            0 <= px < w,
            0 <= py < h,
    ;
    if cols > 0 && rows > 0 {
        assert(n >= 0) by (nonlinear_arith)
            requires
                n == cols * rows,
                cols > 0,
                rows > 0,
        ;
        lemma_painted(out, w, h, l, p, area, px, py, c, n);
        if lies_in_area(area, w, h, px, py) {
            let r = py - y;
            assert(r * cols + (px - x) < cols * rows) by (nonlinear_arith)
                requires
                    0 <= r < rows,
                    0 <= px - x < cols,
            ;
        }
    }
}

#[verifier::spinoff_prover]
#[verifier::rlimit(60)]
proof fn lemma_painted(
    out: Seq<u8>,
    w: int,
    h: int,
    l: BackgroundLayer,
    p: Picture,
    area: Area,
    px: int,
    py: int,
    c: int,
    n: int,
)
    requires
        0 <= px < w,
        0 <= py < h,
        0 <= c < 4,
        out.len() == 4 * (w * h),
        first_pixel(area.cx as int, area.half_w as int, w) < end_pixel(
            area.cx as int,
            area.half_w as int,
            w,
        ),
        first_pixel(area.cy as int, area.half_h as int, h) < end_pixel(
            area.cy as int,
            area.half_h as int,
            h,
        ),
        0 <= n <= area_pixels(area, w, h),
    ensures
        ({
            let at = 4 * (py * w + px) + c;
            let x = first_pixel(area.cx as int, area.half_w as int, w);
            let y = first_pixel(area.cy as int, area.half_h as int, h);
            let cols = end_pixel(area.cx as int, area.half_w as int, w) - x;
            let k = (py - y) * cols + (px - x);
            let end = painted(out, w, h, l, p, area, n);
            &&& end.len() == out.len()
            &&& end[at] == (if lies_in_area(area, w, h, px, py) && k < n {
                seen_through(out[at], l, p, area, px, py, c)
            } else {
                out[at]
            })
        }),
    decreases n,
{
    let at = 4 * (py * w + px) + c;
    let x = first_pixel(area.cx as int, area.half_w as int, w);
    let y = first_pixel(area.cy as int, area.half_h as int, h);
    let cols = end_pixel(area.cx as int, area.half_w as int, w) - x;
    let rows = end_pixel(area.cy as int, area.half_h as int, h) - y;
    let k = (py - y) * cols + (px - x);
    assert(0 <= 4 * (py * w + px) && 4 * (py * w + px) + 3 < 4 * (w * h)) by (nonlinear_arith)
        requires
            0 <= px < w,
            0 <= py < h,
    ;
    if n > 0 {
        let m = n - 1;
        lemma_painted(out, w, h, l, p, area, px, py, c, m);
        let before = painted(out, w, h, l, p, area, m);
        let (row, col) = (m / cols, m % cols);
        vstd::arithmetic::div_mod::lemma_fundamental_div_mod(m, cols);
        vstd::arithmetic::div_mod::lemma_mod_bound(m, cols);
        vstd::arithmetic::div_mod::lemma_div_pos_is_pos(m, cols);
        assert(cols * row == row * cols) by (nonlinear_arith);
        assert(row < rows) by (nonlinear_arith)
            requires
                row * cols + col == m,
                m < cols * rows,
                0 <= col,
                cols > 0,
        ;
        let (qx, qy) = (x + col, y + row);
        let to = 4 * (qy * w + qx);
        assert(0 <= to && to + 3 < 4 * (w * h)) by (nonlinear_arith)
            requires
                to == 4 * (qy * w + qx),
                0 <= qx < w,
                0 <= qy < h,
        ;
        if qx == px && qy == py {
            assert(k == m);
            assert(lies_in_area(area, w, h, px, py));
            assert(before[at] == out[at]);
            assert(to == 4 * (py * w + px));
        } else {
            assert(qy * w + qx != py * w + px) by (nonlinear_arith)
                requires
                    0 <= qx < w,
                    0 <= px < w,
                    qx != px || qy != py,
            ;
            if lies_in_area(area, w, h, px, py) {
                assert(k != m) by {
                    if k == m {
                        vstd::arithmetic::div_mod::lemma_fundamental_div_mod_converse(
                            m,
                            cols,
                            py - y,
                            px - x,
                        );
                    }
                }
            }
            assert(painted(out, w, h, l, p, area, n)[at] == before[at]);
        }
    }
}

} // verus!
