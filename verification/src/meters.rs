//! The meters of the overlay: a bar of how late the hits are, and a square of where they land.

use vstd::prelude::*;

use crate::config::{ErrorMeter, Rgb, Rgb8, SkinConfig};
use crate::drawing::{drawn, fill_rect, rect_at, Op, Paint, Shape};
use crate::fixed::{
    div_nearest, greater, law_rounding_is_closest, law_rounding_is_monotone,
    law_rounding_keeps_whole_numbers, lesser, magnitude, nearest, within,
};
use crate::hud::{in_time_order, HitDetail};
use crate::mods::{root, whole_root};

verus! {

/// How long a hit stays on the meters, in millionths of a millisecond.
pub const METER_FADE_MS: i64 = 3_000_000_000;

/// How many hits the average runs over.
pub const AVERAGED: usize = 20;

/// Whether a meter can be laid out.
pub open spec fn meter_fits(m: ErrorMeter) -> bool {
    &&& magnitude(m.x as int) <= 1_000_000_000_000
    &&& magnitude(m.y as int) <= 1_000_000_000_000
    &&& magnitude(m.scale as int) <= 1_000_000_000_000
    &&& magnitude(m.alpha as int) <= 1_000_000_000_000
}

/// How many of the last hits are still shown.
pub open spec fn fresh(hits: Seq<HitDetail>, t: int) -> int
    decreases hits.len(),
{
    if hits.len() > 0 && t - hits.last().hit_ms < METER_FADE_MS {
        1 + fresh(hits.drop_last(), t)
    } else {
        0
    }
}

/// A share in millionths eased at both ends.
pub open spec fn eased(k: int) -> int {
    nearest(k * k * (3_000_000 - 2 * k), 1_000_000_000_000)
}

/// How far a hit of an age has come in: over 130 ms.
pub open spec fn popped(age: int) -> int {
    within(nearest(age, 130), 0, 1_000_000)
}

/// How visible a hit of an age is: a quick eased rise, a gentle quadratic fall.
pub open spec fn envelope(age: int) -> int {
    let fall = 1_000_000 - within(nearest(age, 3000), 0, 1_000_000);
    nearest(eased(popped(age)) * (fall * fall), 1_000_000_000_000)
}

/// The colour of an error: green over yellow to red.
pub open spec fn error_ink(frac: int) -> Rgb8 {
    let f = within(frac, 0, 1_000_000);
    if f < 500_000 {
        Rgb8 {
            r: ((80_000_000 + 320 * f) / 1_000_000) as u8,
            g: ((230_000_000 - 40 * f) / 1_000_000) as u8,
            b: ((120_000_000 - 80 * f) / 1_000_000) as u8,
        }
    } else {
        Rgb8 {
            r: 240,
            g: ((210_000_000 - 260 * (f - 500_000)) / 1_000_000) as u8,
            b: 80,
        }
    }
}

/// A colour in whole steps, rounded down.
pub open spec fn stepped(c: Rgb) -> Rgb8 {
    Rgb8 {
        r: within(c.r as int / 1_000_000, 0, 255) as u8,
        g: within(c.g as int / 1_000_000, 0, 255) as u8,
        b: within(c.b as int / 1_000_000, 0, 255) as u8,
    }
}

/// Whether a background is bright.
pub open spec fn is_light(c: Rgb) -> bool {
    299 * c.r + 587 * c.g + 114 * c.b > 140_250_000_000
}

/// The colour of tracks and frames: one that shows on the background.
pub open spec fn chrome(bg: Rgb) -> Rgb8 {
    if is_light(bg) {
        Rgb8 { r: 12, g: 13, b: 16 }
    } else {
        Rgb8 { r: 225, g: 228, b: 235 }
    }
}

/// A length that goes with the height of the frame and the size of a meter.
pub open spec fn meter_size(h: int, share: int, m: ErrorMeter) -> int {
    nearest(h * share * m.scale, 1_000_000)
}

/// The bar: its left end, length, height and the size of a tick.
pub struct BarSizes {
    pub x0: i128,
    pub cy: i128,
    pub length: i128,
    pub tick_h: i128,
    pub tick_w: i128,
}

/// The sizes of the bar.
pub open spec fn bar_sizes(m: ErrorMeter, w: int, h: int) -> BarSizes {
    let half = meter_size(h, 160_000, m);
    BarSizes {
        x0: (m.x * w - half) as i128,
        cy: (m.y * h) as i128,
        length: (2 * half) as i128,
        tick_h: greater(meter_size(h, 16_000, m), 6_000_000) as i128,
        tick_w: greater(meter_size(h, 5_500, m), 4_000_000) as i128,
    }
}

/// The accent: the colour of the cursor.
pub open spec fn accent(cfg: SkinConfig, m: ErrorMeter) -> Paint {
    Paint {
        color: stepped(cfg.cursor_color),
        alpha: nearest(900_000 * m.alpha, 1_000_000) as i128,
    }
}

/// The place of an error on the bar.
pub open spec fn bar_x(s: BarSizes, frac: int) -> int {
    s.x0 + nearest(s.length * within(frac, 0, 1_000_000), 1_000_000)
}

/// The share of the hit window that an error takes, in millionths.
pub open spec fn error_share(err_ms: int) -> int {
    nearest(err_ms, 80)
}

/// A tick on the bar.
pub open spec fn tick(m: ErrorMeter, s: BarSizes, d: HitDetail, t: int) -> (Shape, Seq<char>) {
    let age = t - d.hit_ms;
    let frac = error_share(d.err_ms as int);
    let th = nearest(s.tick_h * (11_000_000 + 9 * popped(age)), 40_000_000);
    rect_at(
        bar_x(s, frac) - nearest(s.tick_w as int, 2),
        s.cy - nearest(th, 2),
        s.tick_w as int,
        th,
        Paint {
            color: error_ink(frac),
            alpha: nearest(envelope(age) * m.alpha, 1_000_000) as i128,
        },
    )
}

/// The errors of the last `n` hits of a list added up.
pub open spec fn error_sum(hits: Seq<HitDetail>, n: int) -> int
    decreases n,
{
    if n <= 0 {
        0
    } else {
        hits[hits.len() - n].err_ms + error_sum(hits, n - 1)
    }
}

/// The average error of the last hits as a share of the hit window, in millionths.
pub open spec fn average(hits: Seq<HitDetail>) -> int {
    let n = lesser(hits.len() as int, AVERAGED as int);
    nearest(error_sum(hits, n), n * 80)
}

/// The average that the marker shows: it glides to a new value over 250 ms.
pub open spec fn shown_average(hits: Seq<HitDetail>, t: int) -> int {
    let now = average(hits);
    let prev = if hits.len() > 1 {
        average(hits.drop_last())
    } else {
        now
    };
    let k = eased(within(nearest(t - hits.last().hit_ms, 250), 0, 1_000_000));
    prev + nearest((now - prev) * k, 1_000_000)
}

/// The marker of the average.
pub open spec fn average_mark(
    cfg: SkinConfig,
    m: ErrorMeter,
    s: BarSizes,
    h: int,
    hits: Seq<HitDetail>,
    t: int,
) -> Seq<(Shape, Seq<char>)> {
    if hits.len() > 0 {
        seq![
            rect_at(
                bar_x(s, shown_average(hits, t)) - 1_500_000,
                s.cy + nearest(s.tick_h * 3, 4),
                3_000_000,
                greater(meter_size(h, 6_000, m), 3_000_000),
                accent(cfg, m),
            ),
        ]
    } else {
        Seq::empty()
    }
}

/// The timing bar: its track, the mark of an exact hit, a tick per fresh hit from the newest on,
/// and the average.
pub open spec fn bar_ops(cfg: SkinConfig, hits: Seq<HitDetail>, t: int, w: int, h: int) -> Seq<
    (Shape, Seq<char>),
> {
    let m = cfg.hud.error_meter;
    let s = bar_sizes(m, w, h);
    let thick = greater(meter_size(h, 2_800, m), 1_500_000);
    let track: int = if is_light(cfg.background_color) {
        550_000
    } else {
        140_000
    };
    if !m.enabled {
        Seq::empty()
    } else {
        seq![
            rect_at(
                s.x0 as int,
                s.cy - nearest(thick, 2),
                s.length as int,
                thick,
                Paint {
                    color: chrome(cfg.background_color),
                    alpha: nearest(track * m.alpha, 1_000_000) as i128,
                },
            ),
            rect_at(
                s.x0 - 1_000_000,
                s.cy - nearest(s.tick_h * 3, 4),
                2_000_000,
                nearest(s.tick_h * 3, 2),
                accent(cfg, m),
            ),
        ] + Seq::new(fresh(hits, t) as nat, |i: int| tick(m, s, hits[hits.len() - 1 - i], t))
            + average_mark(cfg, m, s, h, hits, t)
    }
}

/// The square of the aim: its centre, half its side and how thick its frame is.
pub struct AimSizes {
    pub cx: i128,
    pub cy: i128,
    pub half: i128,
    pub thick: i128,
    pub dot: i128,
}

/// The sizes of the aim square.
pub open spec fn aim_sizes(m: ErrorMeter, w: int, h: int) -> AimSizes {
    AimSizes {
        cx: (m.x * w) as i128,
        cy: (m.y * h) as i128,
        half: meter_size(h, 65_000, m) as i128,
        thick: greater(meter_size(h, 4_200, m), 3_500_000) as i128,
        dot: greater(meter_size(h, 4_000, m), 2_500_000) as i128,
    }
}

/// The frame of the aim square and its crosshair.
pub open spec fn aim_frame(s: AimSizes, line: Paint) -> Seq<(Shape, Seq<char>)> {
    let side = 2 * s.half;
    let cross = greater(nearest(s.thick * 7, 10), 1_500_000);
    seq![
        rect_at(s.cx - s.half, s.cy - s.half, side, s.thick as int, line),
        rect_at(s.cx - s.half, s.cy + s.half - s.thick, side, s.thick as int, line),
        rect_at(s.cx - s.half, s.cy - s.half, s.thick as int, side, line),
        rect_at(s.cx + s.half - s.thick, s.cy - s.half, s.thick as int, side, line),
        rect_at(s.cx - s.half, s.cy - nearest(cross, 2), side, cross, line),
        rect_at(s.cx - nearest(cross, 2), s.cy - s.half, cross, side, line),
    ]
}

/// How far out an offset lies on the aim square: its edge is at 0.6.
pub open spec fn aim_share(off: int) -> int {
    within(nearest(off * 10, 6), -1_000_000, 1_000_000)
}

/// A dot on the aim square; up is up.
pub open spec fn dot(m: ErrorMeter, s: AimSizes, d: HitDetail, t: int) -> (Shape, Seq<char>) {
    let age = t - d.hit_ms;
    let size = nearest(s.dot * (6_000_000 + 4 * popped(age)), 10_000_000);
    rect_at(
        s.cx + nearest(s.half * aim_share(d.off_x as int), 1_000_000) - nearest(size, 2),
        s.cy - nearest(s.half * aim_share(d.off_y as int), 1_000_000) - nearest(size, 2),
        size,
        size,
        Paint {
            color: error_ink(2 * root(d.off_x * d.off_x + d.off_y * d.off_y)),
            alpha: nearest(envelope(age) * m.alpha, 1_000_000) as i128,
        },
    )
}

/// The aim square: its frame, and a dot per fresh hit from the newest on.
pub open spec fn aim_ops(cfg: SkinConfig, hits: Seq<HitDetail>, t: int, w: int, h: int) -> Seq<
    (Shape, Seq<char>),
> {
    let m = cfg.hud.aim_meter;
    let s = aim_sizes(m, w, h);
    let frame: int = if is_light(cfg.background_color) {
        800_000
    } else {
        280_000
    };
    if !m.enabled {
        Seq::empty()
    } else {
        aim_frame(
            s,
            Paint {
                color: chrome(cfg.background_color),
                alpha: nearest(frame * m.alpha, 1_000_000) as i128,
            },
        ) + Seq::new(fresh(hits, t) as nat, |i: int| dot(m, s, hits[hits.len() - 1 - i], t))
    }
}

/// The meters that are on.
pub open spec fn meter_ops(cfg: SkinConfig, hits: Seq<HitDetail>, t: int, w: int, h: int) -> Seq<
    (Shape, Seq<char>),
> {
    bar_ops(cfg, hits, t, w, h) + aim_ops(cfg, hits, t, w, h)
}

/// A length times a fraction, to the nearest.
fn portion(v: i128, num: i128, den: i128) -> (r: i128)
    requires
        magnitude(v as int) <= 10_000_000_000_000_000_000_000_000_000,
        0 <= num <= 100_000_000,
        0 < den <= 100_000_000,
    ensures
        r == nearest(v * num, den as int),
        magnitude(r as int) <= 1_000_000_000_000_000_000_000_000_000_000_000_000,
        num <= den ==> magnitude(r as int) <= magnitude(v as int),
        v >= 0 ==> r >= 0,
{
    let ghost a = magnitude(v as int);
    assert(magnitude(v * num) == a * num) by (nonlinear_arith)
        requires
            a == magnitude(v as int),
            0 <= num,
    ;
    assert(0 <= a * num <= 1_000_000_000_000_000_000_000_000_000_000_000_000) by (nonlinear_arith)
        requires
            0 <= a <= 10_000_000_000_000_000_000_000_000_000,
            0 <= num <= 100_000_000,
    ;
    if v >= 0 {
        assert(v * num >= 0) by (nonlinear_arith)
            requires
                v >= 0,
                num >= 0,
        ;
    }
    let r: i128 = div_nearest(v * num, den);
    proof {
        crate::fixed::lemma_nearest_bound(v * num, den as int);
        if num <= den {
            let p = a * num;
            assert((2 * p + den) / (2 * den) <= a) by (nonlinear_arith)
                requires
                    p == a * num,
                    0 <= num <= den,
                    a >= 0,
                    den > 0,
            {
                assert(2 * p + den < 2 * den * (a + 1)) by (nonlinear_arith)
                    requires
                        p == a * num,
                        0 <= num <= den,
                        a >= 0,
                        den > 0,
                ;
                assert((2 * p + den) / (2 * den) < a + 1) by (nonlinear_arith)
                    requires
                        2 * p + den < 2 * den * (a + 1),
                        den > 0,
                ;
            }
        }
    }
    r
}

fn clip(v: i128, lo: i128, hi: i128) -> (r: i128)
    requires
        lo <= hi,
    ensures
        r == within(v as int, lo as int, hi as int),
        lo <= r <= hi,
{
    if v < lo {
        lo
    } else if v > hi {
        hi
    } else {
        v
    }
}

fn at_least(v: i128, floor: i128) -> (r: i128)
    ensures
        r == greater(v as int, floor as int),
{
    if v > floor {
        v
    } else {
        floor
    }
}

fn size_for(height: u32, share: i128, m: &ErrorMeter) -> (r: i128)
    requires
        meter_fits(*m),
        0 <= share <= 160_000,
    ensures
        r == meter_size(height as int, share as int, *m),
        magnitude(r as int) <= 1_000_000_000_000_000_000_000_000_000,
{
    let h: i128 = height as i128;
    let scale: i128 = m.scale as i128;
    assert(0 <= h * share <= 0xffff_ffff * 160_000) by (nonlinear_arith)
        requires
            0 <= h <= 0xffff_ffff,
            0 <= share <= 160_000,
    ;
    let base: i128 = h * share;
    assert(magnitude(base * scale) <= 1_000_000_000_000_000_000_000_000_000) by (nonlinear_arith)
        requires
            0 <= base <= 0xffff_ffff * 160_000,
            -1_000_000_000_000 <= scale <= 1_000_000_000_000,
    ;
    div_nearest(base * scale, 1_000_000)
}

fn times(share: i64, side: u32) -> (r: i128)
    requires
        magnitude(share as int) <= 1_000_000_000_000,
    ensures
        r == share * side,
        magnitude(r as int) <= 5_000_000_000_000_000_000_000,
{
    let a: i128 = share as i128;
    let b: i128 = side as i128;
    assert(magnitude(a * b) <= 5_000_000_000_000_000_000_000) by (nonlinear_arith)
        requires
            -1_000_000_000_000 <= a <= 1_000_000_000_000,
            0 <= b <= 0xffff_ffff,
    ;
    a * b
}

fn faded(share: i128, m: &ErrorMeter) -> (r: i128)
    requires
        meter_fits(*m),
        0 <= share <= 1_000_000,
    ensures
        r == nearest(share * m.alpha, 1_000_000),
{
    let a: i128 = m.alpha as i128;
    assert(magnitude(share * a) <= 1_000_000_000_000_000_000) by (nonlinear_arith)
        requires
            0 <= share <= 1_000_000,
            -1_000_000_000_000 <= a <= 1_000_000_000_000,
    ;
    div_nearest(share * a, 1_000_000)
}

fn ease(k: i128) -> (r: i128)
    requires
        0 <= k <= 1_000_000,
    ensures
        r == eased(k as int),
        0 <= r <= 1_000_000,
{
    assert(0 <= k * k <= 1_000_000_000_000) by (nonlinear_arith)
        requires
            0 <= k <= 1_000_000,
    ;
    let sq: i128 = k * k;
    assert(0 <= sq * (3_000_000 - 2 * k) <= 1_000_000_000_000_000_000) by (nonlinear_arith)
        requires
            sq == k * k,
            0 <= k <= 1_000_000,
    {
        let m = 1_000_000 - k;
        assert(k == 1_000_000 - m);
        assert(m * m * (3_000_000 - 2 * m) >= 0) by (nonlinear_arith)
            requires
                0 <= m <= 1_000_000,
        ;
        assert(k * k * (3_000_000 - 2 * k) + m * m * (3_000_000 - 2 * m)
            == 1_000_000_000_000_000_000) by (nonlinear_arith)
            requires
                k == 1_000_000 - m,
        ;
        assert(k * k * (3_000_000 - 2 * k) >= 0) by (nonlinear_arith)
            requires
                0 <= k <= 1_000_000,
        ;
    }
    let r: i128 = div_nearest(sq * (3_000_000 - 2 * k), 1_000_000_000_000);
    assert(r == (2 * (sq * (3_000_000 - 2 * k)) + 1_000_000_000_000) / 2_000_000_000_000);
    r
}

fn pop(age: i128) -> (r: i128)
    requires
        magnitude(age as int) <= 0x1_0000_0000_0000_0000,
    ensures
        r == popped(age as int),
        0 <= r <= 1_000_000,
{
    clip(div_nearest(age, 130), 0, 1_000_000)
}

/// How visible a hit of an age is, in millionths.
pub fn meter_envelope(age_ms: i128) -> (r: i128)
    requires
        magnitude(age_ms as int) <= 0x1_0000_0000_0000_0000,
    ensures
        r == envelope(age_ms as int),
        0 <= r <= 1_000_000,
{
    let rise: i128 = ease(pop(age_ms));
    let fall: i128 = 1_000_000 - clip(div_nearest(age_ms, 3000), 0, 1_000_000);
    assert(0 <= fall * fall <= 1_000_000_000_000) by (nonlinear_arith)
        requires
            0 <= fall <= 1_000_000,
    ;
    let sq: i128 = fall * fall;
    assert(0 <= rise * sq <= 1_000_000_000_000_000_000) by (nonlinear_arith)
        requires
            0 <= rise <= 1_000_000,
            0 <= sq <= 1_000_000_000_000,
    ;
    div_nearest(rise * sq, 1_000_000_000_000)
}

/// The colour of an error in millionths.
pub fn meter_color(frac: i128) -> (c: Rgb8)
    ensures
        c == error_ink(frac as int),
{
    let f: i128 = clip(frac, 0, 1_000_000);
    if f < 500_000 {
        Rgb8 {
            r: ((80_000_000 + 320 * f) / 1_000_000) as u8,
            g: ((230_000_000 - 40 * f) / 1_000_000) as u8,
            b: ((120_000_000 - 80 * f) / 1_000_000) as u8,
        }
    } else {
        Rgb8 { r: 240, g: ((210_000_000 - 260 * (f - 500_000)) / 1_000_000) as u8, b: 80 }
    }
}

fn step(v: i64) -> (r: u8)
    ensures
        r == within(v as int / 1_000_000, 0, 255),
{
    if v < 0 {
        0
    } else if v / 1_000_000 > 255 {
        255
    } else {
        (v / 1_000_000) as u8
    }
}

fn accent_paint(cfg: &SkinConfig, m: &ErrorMeter) -> (p: Paint)
    requires
        meter_fits(*m),
    ensures
        p == accent(*cfg, *m),
{
    let c: Rgb = cfg.cursor_color;
    Paint {
        color: Rgb8 { r: step(c.r), g: step(c.g), b: step(c.b) },
        alpha: faded(900_000, m),
    }
}

fn light(c: Rgb) -> (r: bool)
    ensures
        r == is_light(c),
{
    299 * c.r as i128 + 587 * c.g as i128 + 114 * c.b as i128 > 140_250_000_000
}

fn chrome_color(bg: Rgb) -> (c: Rgb8)
    ensures
        c == chrome(bg),
{
    if light(bg) {
        Rgb8 { r: 12, g: 13, b: 16 }
    } else {
        Rgb8 { r: 225, g: 228, b: 235 }
    }
}

/// How many of the last hits are still shown.
fn count_fresh(hits: &[HitDetail], t: i64) -> (n: usize)
    ensures
        n == fresh(hits@, t as int),
        n <= hits@.len(),
{
    let len: usize = hits.len();
    let mut n: usize = 0;
    assert(hits@.take(len as int) =~= hits@);
    while n < len && t as i128 - (hits[len - 1 - n].hit_ms as i128) < METER_FADE_MS as i128
        invariant
            n <= len == hits@.len(),
            fresh(hits@, t as int) == n + fresh(hits@.take(len - n), t as int),
        decreases len - n,
    {
        assert(hits@.take(len - n).drop_last() =~= hits@.take(len - n - 1));
        n = n + 1;
    }
    n
}

fn sizes_of_bar(m: &ErrorMeter, width: u32, height: u32) -> (s: BarSizes)
    requires
        meter_fits(*m),
    ensures
        s == bar_sizes(*m, width as int, height as int),
        magnitude(s.x0 as int) <= 2_000_000_000_000_000_000_000_000_000,
        magnitude(s.cy as int) <= 5_000_000_000_000_000_000_000,
        magnitude(s.length as int) <= 2_000_000_000_000_000_000_000_000_000,
        0 <= s.tick_h <= 1_000_000_000_000_000_000_000_000_000,
        0 <= s.tick_w <= 1_000_000_000_000_000_000_000_000_000,
{
    let half: i128 = size_for(height, 160_000, m);
    BarSizes {
        x0: times(m.x, width) - half,
        cy: times(m.y, height),
        length: 2 * half,
        tick_h: at_least(size_for(height, 16_000, m), 6_000_000),
        tick_w: at_least(size_for(height, 5_500, m), 4_000_000),
    }
}

fn place_on_bar(s: &BarSizes, frac: i128) -> (x: i128)
    requires
        magnitude(s.x0 as int) <= 2_000_000_000_000_000_000_000_000_000,
        magnitude(s.length as int) <= 2_000_000_000_000_000_000_000_000_000,
    ensures
        x == bar_x(*s, frac as int),
        magnitude(x as int) <= 4_000_000_000_000_000_000_000_000_000,
{
    s.x0 + portion(s.length, clip(frac, 0, 1_000_000), 1_000_000)
}

fn push_tick(ops: &mut Vec<Op>, m: &ErrorMeter, s: &BarSizes, d: HitDetail, t: i64)
    requires
        meter_fits(*m),
        magnitude(s.x0 as int) <= 2_000_000_000_000_000_000_000_000_000,
        magnitude(s.cy as int) <= 5_000_000_000_000_000_000_000,
        magnitude(s.length as int) <= 2_000_000_000_000_000_000_000_000_000,
        0 <= s.tick_h <= 1_000_000_000_000_000_000_000_000_000,
        0 <= s.tick_w <= 1_000_000_000_000_000_000_000_000_000,
    ensures
        drawn(final(ops)@) == drawn(old(ops)@).push(tick(*m, *s, d, t as int)),
{
    let age: i128 = t as i128 - d.hit_ms as i128;
    let frac: i128 = div_nearest(d.err_ms as i128, 80);
    let th: i128 = portion(s.tick_h, 11_000_000 + 9 * pop(age), 40_000_000);
    let paint: Paint = Paint {
        color: meter_color(frac),
        alpha: faded(meter_envelope(age), m),
    };
    fill_rect(
        ops,
        place_on_bar(s, frac) - div_nearest(s.tick_w, 2),
        s.cy - div_nearest(th, 2),
        s.tick_w,
        th,
        paint,
    );
}

fn average_of(hits: &[HitDetail]) -> (a: i128)
    requires
        hits@.len() > 0,
    ensures
        a == average(hits@),
        magnitude(a as int) <= 200_000_000_000_000_000_000,
{
    let len: usize = hits.len();
    let n: usize = if len < AVERAGED {
        len
    } else {
        AVERAGED
    };
    let mut sum: i128 = 0;
    let mut i: usize = 0;
    while i < n
        invariant
            i <= n <= len == hits@.len(),
            n <= 20,
            sum == error_sum(hits@, i as int),
            magnitude(sum as int) <= i * 0x8000_0000_0000_0000,
        decreases n - i,
    {
        sum = sum + hits[len - 1 - i].err_ms as i128;
        i = i + 1;
    }
    proof {
        crate::fixed::lemma_nearest_bound(sum as int, n * 80);
    }
    div_nearest(sum, n as i128 * 80)
}

fn gliding_average(hits: &[HitDetail], t: i64) -> (a: i128)
    requires
        hits@.len() > 0,
    ensures
        a == shown_average(hits@, t as int),
{
    let len: usize = hits.len();
    let now: i128 = average_of(hits);
    let prev: i128 = if len > 1 {
        let before: &[HitDetail] = vstd::slice::slice_subrange(hits, 0, len - 1);
        assert(before@ =~= hits@.drop_last());
        average_of(before)
    } else {
        now
    };
    let since: i128 = t as i128 - hits[len - 1].hit_ms as i128;
    let k: i128 = ease(clip(div_nearest(since, 250), 0, 1_000_000));
    let d: i128 = now - prev;
    assert(magnitude(d * k) <= 400_000_000_000_000_000_000_000_000) by (nonlinear_arith)
        requires
            -400_000_000_000_000_000_000 <= d <= 400_000_000_000_000_000_000,
            0 <= k <= 1_000_000,
    ;
    prev + div_nearest(d * k, 1_000_000)
}

fn push_average(
    ops: &mut Vec<Op>,
    cfg: &SkinConfig,
    m: &ErrorMeter,
    s: &BarSizes,
    height: u32,
    hits: &[HitDetail],
    t: i64,
)
    requires
        meter_fits(*m),
        magnitude(s.x0 as int) <= 2_000_000_000_000_000_000_000_000_000,
        magnitude(s.cy as int) <= 5_000_000_000_000_000_000_000,
        magnitude(s.length as int) <= 2_000_000_000_000_000_000_000_000_000,
        0 <= s.tick_h <= 1_000_000_000_000_000_000_000_000_000,
    ensures
        drawn(final(ops)@) == drawn(old(ops)@) + average_mark(
            *cfg,
            *m,
            *s,
            height as int,
            hits@,
            t as int,
        ),
{
    if hits.len() > 0 {
        let at: i128 = place_on_bar(s, gliding_average(hits, t));
        fill_rect(
            ops,
            at - 1_500_000,
            s.cy + portion(s.tick_h, 3, 4),
            3_000_000,
            at_least(size_for(height, 6_000, m), 3_000_000),
            accent_paint(cfg, m),
        );
    }
    assert(drawn(ops@) =~= drawn(old(ops)@) + average_mark(
        *cfg,
        *m,
        *s,
        height as int,
        hits@,
        t as int,
    ));
}

fn push_bar(
    ops: &mut Vec<Op>,
    cfg: &SkinConfig,
    hits: &[HitDetail],
    t: i64,
    width: u32,
    height: u32,
)
    requires
        meter_fits(cfg.hud.error_meter),
    ensures
        drawn(final(ops)@) == drawn(old(ops)@) + bar_ops(
            *cfg,
            hits@,
            t as int,
            width as int,
            height as int,
        ),
{
    let m: ErrorMeter = cfg.hud.error_meter;
    if !m.enabled {
        assert(drawn(ops@) =~= drawn(old(ops)@) + bar_ops(
            *cfg,
            hits@,
            t as int,
            width as int,
            height as int,
        ));
        return;
    }
    let s: BarSizes = sizes_of_bar(&m, width, height);
    let thick: i128 = at_least(size_for(height, 2_800, &m), 1_500_000);
    let track: i128 = if light(cfg.background_color) {
        550_000
    } else {
        140_000
    };
    let track_paint: Paint = Paint {
        color: chrome_color(cfg.background_color),
        alpha: faded(track, &m),
    };
    fill_rect(ops, s.x0, s.cy - div_nearest(thick, 2), s.length, thick, track_paint);
    fill_rect(
        ops,
        s.x0 - 1_000_000,
        s.cy - portion(s.tick_h, 3, 4),
        2_000_000,
        portion(s.tick_h, 3, 2),
        accent_paint(cfg, &m),
    );
    let ghost begun = drawn(ops@);
    let n: usize = count_fresh(hits, t);
    let ghost all = Seq::new(n as nat, |i: int| tick(m, s, hits@[hits@.len() - 1 - i], t as int));
    let mut i: usize = 0;
    assert(drawn(ops@) =~= begun + all.take(0));
    while i < n
        invariant
            i <= n <= hits@.len(),
            meter_fits(m),
            s == bar_sizes(m, width as int, height as int),
            magnitude(s.x0 as int) <= 2_000_000_000_000_000_000_000_000_000,
            magnitude(s.cy as int) <= 5_000_000_000_000_000_000_000,
            magnitude(s.length as int) <= 2_000_000_000_000_000_000_000_000_000,
            0 <= s.tick_h <= 1_000_000_000_000_000_000_000_000_000,
            0 <= s.tick_w <= 1_000_000_000_000_000_000_000_000_000,
            all == Seq::new(
                n as nat,
                |i: int| tick(m, s, hits@[hits@.len() - 1 - i], t as int),
            ),
            drawn(ops@) == begun + all.take(i as int),
        decreases n - i,
    {
        push_tick(ops, &m, &s, hits[hits.len() - 1 - i], t);
        assert(all.take(i + 1) =~= all.take(i as int).push(all[i as int]));
        assert(drawn(ops@) =~= begun + all.take(i + 1));
        i = i + 1;
    }
    assert(all.take(i as int) =~= all);
    push_average(ops, cfg, &m, &s, height, hits, t);
    assert(drawn(ops@) =~= drawn(old(ops)@) + bar_ops(
        *cfg,
        hits@,
        t as int,
        width as int,
        height as int,
    ));
}

fn sizes_of_aim(m: &ErrorMeter, width: u32, height: u32) -> (s: AimSizes)
    requires
        meter_fits(*m),
    ensures
        s == aim_sizes(*m, width as int, height as int),
        magnitude(s.cx as int) <= 5_000_000_000_000_000_000_000,
        magnitude(s.cy as int) <= 5_000_000_000_000_000_000_000,
        magnitude(s.half as int) <= 1_000_000_000_000_000_000_000_000_000,
        0 <= s.thick <= 1_000_000_000_000_000_000_000_000_000,
        0 <= s.dot <= 1_000_000_000_000_000_000_000_000_000,
{
    AimSizes {
        cx: times(m.x, width),
        cy: times(m.y, height),
        half: size_for(height, 65_000, m),
        thick: at_least(size_for(height, 4_200, m), 3_500_000),
        dot: at_least(size_for(height, 4_000, m), 2_500_000),
    }
}

fn push_frame(ops: &mut Vec<Op>, s: &AimSizes, line: Paint)
    requires
        magnitude(s.cx as int) <= 5_000_000_000_000_000_000_000,
        magnitude(s.cy as int) <= 5_000_000_000_000_000_000_000,
        magnitude(s.half as int) <= 1_000_000_000_000_000_000_000_000_000,
        0 <= s.thick <= 1_000_000_000_000_000_000_000_000_000,
    ensures
        drawn(final(ops)@) == drawn(old(ops)@) + aim_frame(*s, line),
{
    let side: i128 = 2 * s.half;
    let cross: i128 = at_least(portion(s.thick, 7, 10), 1_500_000);
    let left: i128 = s.cx - s.half;
    let top: i128 = s.cy - s.half;
    fill_rect(ops, left, top, side, s.thick, line);
    fill_rect(ops, left, s.cy + s.half - s.thick, side, s.thick, line);
    fill_rect(ops, left, top, s.thick, side, line);
    fill_rect(ops, s.cx + s.half - s.thick, top, s.thick, side, line);
    fill_rect(ops, left, s.cy - div_nearest(cross, 2), side, cross, line);
    fill_rect(ops, s.cx - div_nearest(cross, 2), top, cross, side, line);
    assert(drawn(ops@) =~= drawn(old(ops)@) + aim_frame(*s, line));
}

fn aim_at(half: i128, off: i64) -> (r: i128)
    requires
        magnitude(half as int) <= 1_000_000_000_000_000_000_000_000_000,
    ensures
        r == nearest(half * aim_share(off as int), 1_000_000),
        magnitude(r as int) <= 1_000_000_000_000_000_000_000_000_000_000_000,
{
    let share: i128 = clip(div_nearest(off as i128 * 10, 6), -1_000_000, 1_000_000);
    assert(magnitude(half * share) <= 1_000_000_000_000_000_000_000_000_000_000_000)
        by (nonlinear_arith)
        requires
            -1_000_000_000_000_000_000_000_000_000 <= half
                <= 1_000_000_000_000_000_000_000_000_000,
            -1_000_000 <= share <= 1_000_000,
    ;
    div_nearest(half * share, 1_000_000)
}

fn distance_of(d: HitDetail) -> (r: i128)
    ensures
        r == root(d.off_x * d.off_x + d.off_y * d.off_y),
        0 <= r <= 0xffff_ffff_ffff_ffff,
{
    let x: i128 = d.off_x as i128;
    let y: i128 = d.off_y as i128;
    assert(0 <= x * x <= 0x4000_0000_0000_0000_0000_0000_0000_0000) by (nonlinear_arith)
        requires
            -0x8000_0000_0000_0000 <= x <= 0x7fff_ffff_ffff_ffff,
    ;
    assert(0 <= y * y <= 0x4000_0000_0000_0000_0000_0000_0000_0000) by (nonlinear_arith)
        requires
            -0x8000_0000_0000_0000 <= y <= 0x7fff_ffff_ffff_ffff,
    ;
    whole_root((x * x) as u128 + (y * y) as u128) as i128
}

fn push_dot(ops: &mut Vec<Op>, m: &ErrorMeter, s: &AimSizes, d: HitDetail, t: i64)
    requires
        meter_fits(*m),
        magnitude(s.cx as int) <= 5_000_000_000_000_000_000_000,
        magnitude(s.cy as int) <= 5_000_000_000_000_000_000_000,
        magnitude(s.half as int) <= 1_000_000_000_000_000_000_000_000_000,
        0 <= s.dot <= 1_000_000_000_000_000_000_000_000_000,
    ensures
        drawn(final(ops)@) == drawn(old(ops)@).push(dot(*m, *s, d, t as int)),
{
    let age: i128 = t as i128 - d.hit_ms as i128;
    let size: i128 = portion(s.dot, 6_000_000 + 4 * pop(age), 10_000_000);
    let paint: Paint = Paint {
        color: meter_color(2 * distance_of(d)),
        alpha: faded(meter_envelope(age), m),
    };
    fill_rect(
        ops,
        s.cx + aim_at(s.half, d.off_x) - div_nearest(size, 2),
        s.cy - aim_at(s.half, d.off_y) - div_nearest(size, 2),
        size,
        size,
        paint,
    );
}

fn push_aim(
    ops: &mut Vec<Op>,
    cfg: &SkinConfig,
    hits: &[HitDetail],
    t: i64,
    width: u32,
    height: u32,
)
    requires
        meter_fits(cfg.hud.aim_meter),
    ensures
        drawn(final(ops)@) == drawn(old(ops)@) + aim_ops(
            *cfg,
            hits@,
            t as int,
            width as int,
            height as int,
        ),
{
    let m: ErrorMeter = cfg.hud.aim_meter;
    if !m.enabled {
        assert(drawn(ops@) =~= drawn(old(ops)@) + aim_ops(
            *cfg,
            hits@,
            t as int,
            width as int,
            height as int,
        ));
        return;
    }
    let s: AimSizes = sizes_of_aim(&m, width, height);
    let frame: i128 = if light(cfg.background_color) {
        800_000
    } else {
        280_000
    };
    let line: Paint = Paint {
        color: chrome_color(cfg.background_color),
        alpha: faded(frame, &m),
    };
    push_frame(ops, &s, line);
    let ghost begun = drawn(ops@);
    let n: usize = count_fresh(hits, t);
    let ghost all = Seq::new(n as nat, |i: int| dot(m, s, hits@[hits@.len() - 1 - i], t as int));
    let mut i: usize = 0;
    assert(drawn(ops@) =~= begun + all.take(0));
    while i < n
        invariant
            i <= n <= hits@.len(),
            meter_fits(m),
            magnitude(s.cx as int) <= 5_000_000_000_000_000_000_000,
            magnitude(s.cy as int) <= 5_000_000_000_000_000_000_000,
            magnitude(s.half as int) <= 1_000_000_000_000_000_000_000_000_000,
            0 <= s.dot <= 1_000_000_000_000_000_000_000_000_000,
            all == Seq::new(
                n as nat,
                |i: int| dot(m, s, hits@[hits@.len() - 1 - i], t as int),
            ),
            drawn(ops@) == begun + all.take(i as int),
        decreases n - i,
    {
        push_dot(ops, &m, &s, hits[hits.len() - 1 - i], t);
        assert(all.take(i + 1) =~= all.take(i as int).push(all[i as int]));
        assert(drawn(ops@) =~= begun + all.take(i + 1));
        i = i + 1;
    }
    assert(all.take(i as int) =~= all);
    assert(drawn(ops@) =~= drawn(old(ops)@) + aim_ops(
        *cfg,
        hits@,
        t as int,
        width as int,
        height as int,
    ));
}

/// Lays out the meters that are on, from the hits up to a song time.
pub fn draw_error_meters(
    cfg: &SkinConfig,
    hits: &[HitDetail],
    t: i64,
    width: u32,
    height: u32,
) -> (ops: Vec<Op>)
    requires
        meter_fits(cfg.hud.error_meter),
        meter_fits(cfg.hud.aim_meter),
    ensures
        drawn(ops@) == meter_ops(*cfg, hits@, t as int, width as int, height as int),
{
    let mut ops: Vec<Op> = Vec::new();
    assert(drawn(ops@) =~= Seq::empty());
    push_bar(&mut ops, cfg, hits, t, width, height);
    push_aim(&mut ops, cfg, hits, t, width, height);
    assert(drawn(ops@) =~= meter_ops(*cfg, hits@, t as int, width as int, height as int));
    ops
}

/// A hit fades away: one of 3 seconds and more is no longer seen.
pub proof fn law_hits_fade(age: int)
    requires
        age >= METER_FADE_MS,
    ensures
        envelope(age) == 0,
{
    assert(nearest(age, 3000) == (2 * age + 3000) / 6000);
    assert(nearest(age, 3000) >= 1_000_000);
    let rise = eased(popped(age));
    assert(rise * (0 * 0) == 0) by (nonlinear_arith);
    crate::fixed::lemma_nearest_bound(0, 1_000_000_000_000);
}

/// The hits shown are the last ones, those younger than three seconds.
pub proof fn law_fresh_hits_are_shown(hits: Seq<HitDetail>, t: int)
    requires
        in_time_order(hits),
    ensures
        ({
            let n = fresh(hits, t);
            &&& 0 <= n <= hits.len()
            &&& forall|i: int|
                0 <= i < hits.len() ==> (i >= hits.len() - n <==> t - (#[trigger] hits[i]).hit_ms
                    < 3_000_000_000)
        }),
    decreases hits.len(),
{
    if hits.len() > 0 {
        let last = hits.len() - 1;
        assert(hits.last() == hits[last]);
        if t - hits[last].hit_ms < 3_000_000_000 {
            let rest = hits.drop_last();
            assert forall|i: int, j: int| 0 <= i <= j < rest.len() implies (#[trigger] rest[i]).hit_ms
                <= (#[trigger] rest[j]).hit_ms by {
                assert(rest[i] == hits[i] && rest[j] == hits[j]);
            }
            law_fresh_hits_are_shown(rest, t);
            let n = fresh(rest, t);
            assert forall|i: int| 0 <= i < hits.len() implies (i >= last - n <==> t - (
            #[trigger] hits[i]).hit_ms < 3_000_000_000) by {
                if i < last {
                    assert(rest[i] == hits[i]);
                }
            }
        } else {
            assert forall|i: int| 0 <= i < hits.len() implies t - (#[trigger] hits[i]).hit_ms
                >= 3_000_000_000 by {
                assert(hits[i].hit_ms <= hits[last].hit_ms);
            }
        }
    }
}

/// An early or punctual hit stands at the left end of the bar, one that is 80 ms late at the right
/// end, and a later one never to the left of an earlier one.
pub proof fn law_late_hits_stand_to_the_right(s: BarSizes, err: int, later: int)
    requires
        s.length >= 0,
        err <= later,
    ensures
        err <= 0 ==> bar_x(s, error_share(err)) == s.x0,
        err >= 80_000_000 ==> bar_x(s, error_share(err)) == s.x0 + s.length,
        s.x0 <= bar_x(s, error_share(err)) <= bar_x(s, error_share(later)) <= s.x0 + s.length,
{
    law_rounding_is_monotone(err, later, 80);
    law_rounding_keeps_whole_numbers(0, 0, 80);
    law_rounding_keeps_whole_numbers(1_000_000, 0, 80);
    if err <= 0 {
        law_rounding_is_monotone(err, 0, 80);
    }
    if err >= 80_000_000 {
        law_rounding_is_monotone(80_000_000, err, 80);
    }
    let (a, b) = (
        within(error_share(err), 0, 1_000_000),
        within(error_share(later), 0, 1_000_000),
    );
    let l = s.length as int;
    assert(0 <= l * a <= l * b <= l * 1_000_000) by (nonlinear_arith)
        requires
            l >= 0,
            0 <= a <= b <= 1_000_000,
    ;
    law_rounding_is_monotone(0, l * a, 1_000_000);
    law_rounding_is_monotone(l * a, l * b, 1_000_000);
    law_rounding_is_monotone(l * b, 1_000_000 * l, 1_000_000);
    law_rounding_keeps_whole_numbers(0, 0, 1_000_000);
    law_rounding_keeps_whole_numbers(l, 0, 1_000_000);
    assert(l * 0 == 0) by (nonlinear_arith);
    assert(l * 1_000_000 == 1_000_000 * l) by (nonlinear_arith);
}

/// The larger an error, the more red and the less green it is shown; the best is green, the worst
/// red.
pub proof fn law_errors_turn_red(frac: int, worse: int)
    requires
        frac <= worse,
    ensures
        error_ink(frac).r <= error_ink(worse).r,
        error_ink(frac).g >= error_ink(worse).g,
        error_ink(frac).b >= error_ink(worse).b,
        frac <= 0 ==> error_ink(frac) == (Rgb8 { r: 80, g: 230, b: 120 }),
        frac >= 1_000_000 ==> error_ink(frac) == (Rgb8 { r: 240, g: 80, b: 80 }),
{
}

/// A hit is not there before it happens, pops up within 130 ms and then only fades, until it is gone
/// after three seconds.
pub proof fn law_hits_pop_up_and_fade(age: int, older: int)
    requires
        130_000_000 <= age <= older,
    ensures
        0 <= envelope(older) <= envelope(age) <= 1_000_000,
        older >= 3_000_000_000 ==> envelope(older) == 0,
        envelope(0) == 0,
        eased(0) == 0,
        eased(1_000_000) == 1_000_000,
{
    law_rounding_keeps_whole_numbers(0, 0, 130);
    law_rounding_keeps_whole_numbers(0, 0, 3000);
    law_rounding_keeps_whole_numbers(1_000_000, 0, 130);
    law_rounding_keeps_whole_numbers(1_000_000, 0, 3000);
    law_rounding_keeps_whole_numbers(0, 0, 1_000_000_000_000);
    law_rounding_keeps_whole_numbers(1_000_000, 0, 1_000_000_000_000);
    law_rounding_is_monotone(130_000_000, age, 130);
    law_rounding_is_monotone(130_000_000, older, 130);
    law_rounding_is_monotone(age, older, 3000);
    law_rounding_is_monotone(0, age, 3000);
    if older >= 3_000_000_000 {
        law_rounding_is_monotone(3_000_000_000, older, 3000);
    }
    assert(popped(age) == 1_000_000 && popped(older) == 1_000_000);
    let a = 1_000_000 - within(nearest(age, 3000), 0, 1_000_000);
    let b = 1_000_000 - within(nearest(older, 3000), 0, 1_000_000);
    assert(0 <= b * b <= a * a <= 1_000_000_000_000) by (nonlinear_arith)
        requires
            0 <= b <= a <= 1_000_000,
    ;
    law_rounding_is_monotone(0, 1_000_000 * (b * b), 1_000_000_000_000);
    law_rounding_is_monotone(1_000_000 * (b * b), 1_000_000 * (a * a), 1_000_000_000_000);
    law_rounding_is_monotone(
        1_000_000 * (a * a),
        1_000_000_000_000_000_000,
        1_000_000_000_000,
    );
    assert(popped(0) == 0);
    assert(eased(0) == 0) by {
        assert(0int * 0 * (3_000_000 - 2 * 0) == 0);
    }
}

/// The average is that of the last hits, no more than twenty: where all of these are equally late it
/// is that, and it never lies beyond any bound that they keep.
pub proof fn law_averages_take_the_last_hits(hits: Seq<HitDetail>, lo: int, hi: int)
    requires
        hits.len() > 0,
        forall|i: int|
            0 <= i < hits.len() && i >= hits.len() - 20 ==> 80 * lo <= (#[trigger] hits[i]).err_ms
                <= 80 * hi,
    ensures
        lo <= average(hits) <= hi,
{
    let n = lesser(hits.len() as int, 20);
    lemma_error_sum(hits, n, 80 * lo, 80 * hi);
    let d = n * 80;
    let s = error_sum(hits, n);
    assert(n * (80 * lo) == d * lo && n * (80 * hi) == d * hi) by (nonlinear_arith)
        requires
            d == n * 80,
    ;
    law_rounding_is_monotone(d * lo, s, d);
    law_rounding_is_monotone(s, d * hi, d);
    law_rounding_keeps_whole_numbers(lo, 0, d);
    law_rounding_keeps_whole_numbers(hi, 0, d);
}

proof fn lemma_error_sum(hits: Seq<HitDetail>, n: int, lo: int, hi: int)
    requires
        0 <= n <= hits.len(),
        n <= 20,
        forall|i: int|
            0 <= i < hits.len() && i >= hits.len() - 20 ==> lo <= (#[trigger] hits[i]).err_ms <= hi,
    ensures
        n * lo <= error_sum(hits, n) <= n * hi,
    decreases n,
{
    if n > 0 {
        lemma_error_sum(hits, n - 1, lo, hi);
        assert(lo <= hits[hits.len() - n].err_ms <= hi);
        assert(n * lo == (n - 1) * lo + lo && n * hi == (n - 1) * hi + hi) by (nonlinear_arith);
    } else {
        assert(n * lo == 0 && n * hi == 0) by (nonlinear_arith)
            requires
                n == 0,
        ;
    }
}

/// A dot stands where the cursor was off the note: in the middle where it was not, to the right of
/// it for a hit to the right, above it for one above, at the edge from 0.6 cells on, and the same way
/// in both directions.
pub proof fn law_dots_stand_where_the_cursor_was(s: AimSizes, off: int)
    requires
        s.half >= 0,
    ensures
        aim_share(0) == 0,
        aim_share(-off) == -aim_share(off),
        off >= 600_000 ==> aim_share(off) == 1_000_000,
        off >= 0 ==> 0 <= aim_share(off) <= 1_000_000,
        0 <= off <= 600_000 ==> 2 * magnitude(6 * aim_share(off) - 10 * off) <= 6,
{
    law_rounding_is_closest(off * 10, 6);
    law_rounding_keeps_whole_numbers(0, 0, 6);
    law_rounding_keeps_whole_numbers(1_000_000, 0, 6);
    if off >= 0 {
        law_rounding_is_monotone(0, off * 10, 6);
    }
    if off >= 600_000 {
        law_rounding_is_monotone(6_000_000, off * 10, 6);
    }
    if 0 <= off <= 600_000 {
        law_rounding_is_monotone(off * 10, 6_000_000, 6);
    }
}

/// The middle of a dot lies right of the meter's as far as the cursor was right of the note, and
/// above it as far as that was above.
pub proof fn law_dots_are_placed_around_the_middle(
    m: ErrorMeter,
    s: AimSizes,
    d: HitDetail,
    turned: HitDetail,
    t: int,
)
    requires
        turned.off_x == d.off_y,
        turned.off_y == d.off_x,
        turned.hit_ms == d.hit_ms,
        0 <= s.half <= 0x1_0000_0000_0000_0000,
        0 <= s.dot <= 0x1_0000_0000_0000_0000,
        magnitude(s.cx as int) <= 0x1_0000_0000_0000_0000_0000,
        magnitude(s.cy as int) <= 0x1_0000_0000_0000_0000_0000,
    ensures
        dot(m, s, d, t).0 matches Shape::Rect { x, y, .. } && dot(m, s, turned, t).0 matches
            Shape::Rect { x: u, y: v, .. } && {
            let half = nearest(
                nearest(s.dot * (6_000_000 + 4 * popped(t - d.hit_ms)), 10_000_000),
                2,
            );
            &&& x + half - s.cx == s.cy - v - half
            &&& u + half - s.cx == s.cy - y - half
        },
{
    let p = popped(t - d.hit_ms);
    let size = nearest(s.dot * (6_000_000 + 4 * p), 10_000_000);
    let (a, b) = (aim_share(d.off_x as int), aim_share(d.off_y as int));
    assert(0 <= s.dot * (6_000_000 + 4 * p) <= 0x1_0000_0000_0000_0000 * 10_000_000)
        by (nonlinear_arith)
        requires
            0 <= s.dot <= 0x1_0000_0000_0000_0000,
            0 <= p <= 1_000_000,
    ;
    crate::fixed::lemma_nearest_bound(s.dot * (6_000_000 + 4 * p), 10_000_000);
    crate::fixed::lemma_nearest_bound(size, 2);
    assert(magnitude(s.half * a) <= 0x1_0000_0000_0000_0000 * 1_000_000) by (nonlinear_arith)
        requires
            0 <= s.half <= 0x1_0000_0000_0000_0000,
            -1_000_000 <= a <= 1_000_000,
    ;
    assert(magnitude(s.half * b) <= 0x1_0000_0000_0000_0000 * 1_000_000) by (nonlinear_arith)
        requires
            0 <= s.half <= 0x1_0000_0000_0000_0000,
            -1_000_000 <= b <= 1_000_000,
    ;
    crate::fixed::lemma_nearest_bound(s.half * a, 1_000_000);
    crate::fixed::lemma_nearest_bound(s.half * b, 1_000_000);
}

/// Light grounds get dark lines and dark grounds light ones, and a ground does not get darker by
/// gaining light.
pub proof fn law_lines_stand_out(c: Rgb, brighter: Rgb)
    requires
        c.r <= brighter.r,
        c.g <= brighter.g,
        c.b <= brighter.b,
    ensures
        is_light(c) ==> is_light(brighter),
        c.r <= 0 && c.g <= 0 && c.b <= 0 ==> !is_light(c),
        c.r >= 255_000_000 && c.g >= 255_000_000 && c.b >= 255_000_000 ==> is_light(c),
        is_light(c) ==> chrome(c).r < 128 && chrome(c).g < 128 && chrome(c).b < 128,
        !is_light(c) ==> chrome(c).r >= 128 && chrome(c).g >= 128 && chrome(c).b >= 128,
{
}

} // verus!
