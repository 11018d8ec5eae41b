//! The overlay during play: numbers beside the field, bars, the combo ring and the title.

use vstd::prelude::*;

use crate::config::{ErrorMeter, HudPlace, SkinConfig};
use crate::drawing::{
    add_part, bare, draw, draw_with, drawn, fill_rect, inked, paint, parts_of, rect_at, scaled,
    words_at, write_text, Align, Element, ElementModel, Op, Paint, Shape,
    Tilt,
};
use crate::fixed::{
    div_nearest, greater, law_rounding_is_closest, law_rounding_is_monotone,
    law_rounding_keeps_whole_numbers, lesser, magnitude, nearest, within, ONE,
};
use crate::hud::{HitDetail, HudStats, RING_TIER};
use crate::meters::{draw_error_meters, meter_fits, meter_ops};
use crate::replay::{Beatmap, Replay};
use crate::text::{decimal, same_text};
use crate::words::{
    accuracy_of, accuracy_words, clock, clock_of, count_words, grade_color, grade_letters, mark_of,
    notes_words, points_of, points_words, speed_mark, thousands, thousands_of, title_of,
    title_words, verdict_ink, SpeedMark,
};

verus! {

/// The largest size and coordinate that the overlay is laid out for.
pub const LAYOUT_LIMIT: i64 = 1_000_000_000_000;

/// The field on the screen, in millionths of a pixel.
#[derive(Debug, Clone, Copy, PartialEq, Eq, Structural)]
pub struct Playfield {
    pub cx: i64,
    pub cy: i64,
    /// Half its side.
    pub half: i64,
}

/// What the overlay is drawn on.
#[derive(Debug, Clone, Copy, PartialEq, Eq, Structural)]
pub struct Canvas {
    pub width: u32,
    pub height: u32,
    pub field: Playfield,
    /// Whether the numbers stand in rows above and below the field.
    pub portrait: bool,
}

/// Whether an overlay can be laid out.
pub open spec fn can_lay_out(cfg: SkinConfig, c: Canvas) -> bool {
    &&& magnitude(c.field.cx as int) <= LAYOUT_LIMIT * 1000
    &&& magnitude(c.field.cy as int) <= LAYOUT_LIMIT * 1000
    &&& magnitude(c.field.half as int) <= LAYOUT_LIMIT * 1000
    &&& magnitude(cfg.interface_values_font_size as int) <= LAYOUT_LIMIT
    &&& magnitude(cfg.panel_gap as int) <= LAYOUT_LIMIT
    &&& magnitude(cfg.panel_angle as int) <= LAYOUT_LIMIT
    &&& magnitude(cfg.hud.combo_text_font_size as int) <= LAYOUT_LIMIT
    &&& magnitude(cfg.hud.combo_text_vpos_pct as int) <= LAYOUT_LIMIT
    &&& magnitude(cfg.hud.miss_effect_opacity as int) <= LAYOUT_LIMIT
    &&& magnitude(cfg.fail_vignette_opacity as int) <= LAYOUT_LIMIT
    &&& meter_fits(cfg.hud.error_meter)
    &&& meter_fits(cfg.hud.aim_meter)
}

fn fits_meter(m: &ErrorMeter) -> (r: bool)
    ensures
        r == meter_fits(*m),
{
    small(m.x, LAYOUT_LIMIT) && small(m.y, LAYOUT_LIMIT) && small(m.scale, LAYOUT_LIMIT) && small(
        m.alpha,
        LAYOUT_LIMIT,
    )
}

fn small(v: i64, limit: i64) -> (r: bool)
    requires
        0 <= limit < i64::MAX,
    ensures
        r == (magnitude(v as int) <= limit),
{
    -limit <= v && v <= limit
}

/// Whether an overlay can be laid out.
pub fn fits_layout(cfg: &SkinConfig, c: &Canvas) -> (r: bool)
    ensures
        r == can_lay_out(*cfg, *c),
{
    small(c.field.cx, LAYOUT_LIMIT * 1000) && small(c.field.cy, LAYOUT_LIMIT * 1000) && small(
        c.field.half,
        LAYOUT_LIMIT * 1000,
    ) && small(cfg.interface_values_font_size, LAYOUT_LIMIT) && small(cfg.panel_gap, LAYOUT_LIMIT)
        && small(cfg.panel_angle, LAYOUT_LIMIT) && small(cfg.hud.combo_text_font_size, LAYOUT_LIMIT) && small(
        cfg.hud.combo_text_vpos_pct,
        LAYOUT_LIMIT,
    ) && small(cfg.hud.miss_effect_opacity, LAYOUT_LIMIT) && small(
        cfg.fail_vignette_opacity,
        LAYOUT_LIMIT,
    ) && fits_meter(&cfg.hud.error_meter) && fits_meter(&cfg.hud.aim_meter)
}

/// The shorter side of the frame, in pixels.
pub open spec fn short_side(c: Canvas) -> int {
    lesser(c.width as int, c.height as int)
}

/// The size of the labels.
pub open spec fn label_px(c: Canvas) -> int {
    short_side(c) * 16_300
}

/// The size of the values.
pub open spec fn value_px(cfg: SkinConfig, c: Canvas) -> int {
    nearest(short_side(c) * 23_700 * cfg.interface_values_font_size, 1_000_000)
}

/// The opacity of the panels.
pub open spec fn panel_alpha(cfg: SkinConfig) -> int {
    within(cfg.panel_opacity as int, 0, 1_000_000)
}

/// The paint of the labels.
pub open spec fn label_paint(cfg: SkinConfig) -> Paint {
    inked(138, 138, 146, panel_alpha(cfg))
}

/// The paint of the values.
pub open spec fn value_paint(cfg: SkinConfig) -> Paint {
    Paint { color: cfg.interface_text_color, alpha: panel_alpha(cfg) as i128 }
}

/// The distance of the columns from the centre of the field.
pub open spec fn column_dx(cfg: SkinConfig, c: Canvas) -> int {
    c.field.half + short_side(c) * 85_000 + nearest(cfg.panel_gap * short_side(c), 1440)
}

/// A part of the overlay that is one piece of text.
pub open spec fn text_part(
    key: Seq<char>,
    op: (Shape, Seq<char>),
    tilt: Option<Tilt>,
) -> ElementModel {
    ElementModel { key, ops: seq![op], tilt }
}

/// The faint combo number on the field.
pub open spec fn combo_part(cfg: SkinConfig, stats: HudStats, c: Canvas) -> Seq<ElementModel> {
    if cfg.hud.playfield_combo_text && stats.combo > 0 {
        let f = c.field;
        let cy = f.cy - f.half + nearest(2 * f.half * cfg.hud.combo_text_vpos_pct, 100_000_000);
        let px = nearest(cfg.hud.combo_text_font_size * (44 * short_side(c)), 144_000);
        seq![
            text_part(
                "combo_text"@,
                words_at(
                    decimal(stats.combo as nat),
                    f.cx as int,
                    cy + nearest(px * 35, 100),
                    px,
                    Align::Center,
                    Paint {
                        color: cfg.hud.combo_text_color,
                        alpha: cfg.hud.combo_text_opacity as i128,
                    },
                ),
                None,
            ),
        ]
    } else {
        Seq::empty()
    }
}

/// The cards behind the columns.
pub open spec fn card_part(cfg: SkinConfig, c: Canvas) -> Seq<ElementModel> {
    if cfg.panel_background_opacity > 0 && !c.portrait {
        let w = short_side(c) * 160_000;
        let h = nearest(c.field.half * 19, 10);
        let top = c.field.cy - nearest(c.field.half * 19, 20);
        let ink = Paint { color: cfg.panel_color, alpha: cfg.panel_background_opacity as i128 };
        seq![
            ElementModel {
                key: ""@,
                ops: seq![
                    rect_at(
                        c.field.cx - column_dx(cfg, c) - short_side(c) * 80_000,
                        top,
                        w,
                        h,
                        ink,
                    ),
                    rect_at(
                        c.field.cx + column_dx(cfg, c) - short_side(c) * 80_000,
                        top,
                        w,
                        h,
                        ink,
                    ),
                ],
                tilt: None,
            },
        ]
    } else {
        Seq::empty()
    }
}

/// How far the mark of a miss has come in: over 100 ms.
pub open spec fn mark_in(age: int) -> int {
    within(nearest(age, 100), 0, 1_000_000)
}

/// How far the mark of a miss is still there: it goes from 300 to 500 ms.
pub open spec fn mark_out(age: int) -> int {
    1_000_000 - within(nearest(age - 300_000_000, 200), 0, 1_000_000)
}

/// The mark of a miss.
pub open spec fn miss_mark(cfg: SkinConfig, c: Canvas, m: (i64, i64, i64)) -> (Shape, Seq<char>) {
    let a = mark_in(m.2 as int);
    bare(
        Shape::Cross {
            x: m.0 as i128,
            y: m.1 as i128,
            half: nearest(short_side(c) * 32_000 * (6_000_000 + 4 * a), 10_000_000) as i128,
            paint: inked(
                232,
                48,
                64,
                nearest(
                    a * mark_out(m.2 as int) * cfg.hud.miss_effect_opacity,
                    1_000_000_000_000,
                ),
            ),
        },
    )
}

/// The marks of the misses.
pub open spec fn miss_part(
    cfg: SkinConfig,
    c: Canvas,
    marks: Seq<(i64, i64, i64)>,
) -> Seq<ElementModel> {
    if cfg.hud.miss_effect_opacity > 0 {
        seq![
            ElementModel {
                key: ""@,
                ops: Seq::new(marks.len(), |i: int| miss_mark(cfg, c, marks[i])),
                tilt: None,
            },
        ]
    } else {
        Seq::empty()
    }
}

/// The height of entry `i` of `n` in a column that starts at `top`: the outer ones are pinned, a
/// single one stands in the middle.
pub open spec fn slot_y(cfg: SkinConfig, c: Canvas, n: int, i: int, top: int) -> int {
    let bottom = c.field.cy - nearest(c.field.half * 79, 100) + short_side(c) * 396_000;
    if n <= 1 {
        c.field.cy - nearest(value_px(cfg, c) * 4, 10)
    } else {
        top + nearest((bottom - top) * i, n - 1)
    }
}

/// The place of entry `i` of `n` in a row.
pub open spec fn row_x(c: Canvas, n: int, i: int) -> int {
    c.width * 500_000 + (2 * i - (n - 1)) * (c.width * 110_000)
}

/// The place of entry `i` of `n` on the left, or in the row below.
pub open spec fn left_slot(cfg: SkinConfig, c: Canvas, n: int, i: int) -> (int, int) {
    if c.portrait {
        (row_x(c, n, i), c.field.cy + c.field.half + short_side(c) * 135_000)
    } else {
        (
            c.field.cx - column_dx(cfg, c),
            slot_y(cfg, c, n, i, c.field.cy - nearest(c.field.half * 60, 100)),
        )
    }
}

/// The place of entry `i` of `n` on the right, or in the row above.
pub open spec fn right_slot(cfg: SkinConfig, c: Canvas, n: int, i: int) -> (int, int) {
    if c.portrait {
        (row_x(c, n, i), c.field.cy - c.field.half - short_side(c) * 135_000)
    } else {
        (
            c.field.cx + column_dx(cfg, c),
            slot_y(cfg, c, n, i, c.field.cy - nearest(c.field.half * 79, 100)),
        )
    }
}

/// The lean of an entry whose middle is at a height, in millionths of a radian: none at the middle
/// of the field, more the higher or lower the entry stands.
pub open spec fn lean(cfg: SkinConfig, c: Canvas, y: int) -> int {
    nearest(13 * cfg.panel_angle * (y - c.field.cy), 15 * (short_side(c) * 132_000))
}

/// How an entry is tilted about its middle: not in a row, and not by less than a ten-thousandth.
pub open spec fn tilt_of(cfg: SkinConfig, c: Canvas, x: int, y: int) -> Option<Tilt> {
    let middle = y + nearest(value_px(cfg, c) * 6, 10);
    if c.portrait || short_side(c) == 0 || magnitude(lean(cfg, c, middle)) < 100 {
        None
    } else {
        Some(Tilt { x: x as i128, y: middle as i128, angle: lean(cfg, c, middle) as i128 })
    }
}

/// An entry: a label over a value.
pub open spec fn entry(
    cfg: SkinConfig,
    c: Canvas,
    key: Seq<char>,
    at: (int, int),
    label: Seq<char>,
    value: Seq<char>,
) -> ElementModel {
    ElementModel {
        key,
        ops: seq![
            words_at(label, at.0, at.1, label_px(c), Align::Center, label_paint(cfg)),
            words_at(
                value,
                at.0,
                at.1 + nearest(value_px(cfg, c) * 115, 100),
                value_px(cfg, c),
                Align::Center,
                value_paint(cfg),
            ),
        ],
        tilt: tilt_of(cfg, c, at.0, at.1),
    }
}

/// 1 where something is on, 0 where it is off.
pub open spec fn one_if(b: bool) -> int {
    if b {
        1
    } else {
        0
    }
}

/// Whether the ring has just gained a side.
pub open spec fn new_shape(combo: u32) -> bool {
    combo > 0 && combo % RING_TIER == 0
}

/// The fill of the ring in millionths: an octagon is full; after a miss what was filled drains
/// over 250 ms; after a hit the fill runs to its new value over 150 ms.
pub open spec fn ring_fill(stats: HudStats) -> int {
    if stats.ring_sides >= 8 {
        1_000_000
    } else if stats.combo == 0 && stats.ms_since_miss is Some && stats.ms_since_miss->0
        < 250_000_000 {
        nearest(
            stats.ring_fill_at_miss * 125_000 * (250_000_000 - stats.ms_since_miss->0),
            250_000_000,
        )
    } else {
        let prev = if stats.combo == 0 || new_shape(stats.combo) {
            0
        } else {
            (stats.combo - 1) % (RING_TIER as int)
        };
        let t = match stats.ms_since_hit {
            Some(d) => lesser(d as int, 150_000_000),
            None => 150_000_000,
        };
        prev * 125_000 + nearest((stats.ring_progress - prev) * 125_000 * t, 150_000_000)
    }
}

/// How far the wobble of the ring is, in millionths: it lasts 250 ms after a side was gained, but
/// not the last one.
pub open spec fn ring_wobble(stats: HudStats) -> Option<i128> {
    if new_shape(stats.combo) && stats.ring_sides < 8 && stats.ms_since_hit is Some
        && stats.ms_since_hit->0 < 250_000_000 {
        Some(nearest(stats.ms_since_hit->0 as int, 250) as i128)
    } else {
        None
    }
}

/// The combo ring.
pub open spec fn ring_part(cfg: SkinConfig, stats: HudStats, c: Canvas, at: (int, int)) -> ElementModel {
    text_part(
        "combo_ring"@,
        (
            Shape::Ring {
                x: at.0 as i128,
                y: (at.1 - short_side(c) * 16_000) as i128,
                radius: (short_side(c) * 48_000) as i128,
                sides: stats.ring_sides,
                fill: ring_fill(stats) as i128,
                wobble: ring_wobble(stats),
                paint: Paint {
                    color: cfg.hud.combo_ring_color,
                    alpha: cfg.hud.combo_ring_opacity as i128,
                },
            },
            decimal(stats.combo as nat) + "x"@,
        ),
        None,
    )
}

/// The grade.
pub open spec fn grade_part(cfg: SkinConfig, stats: HudStats, c: Canvas, at: (int, int)) -> ElementModel {
    text_part(
        "grade"@,
        words_at(
            stats.grade.letters(),
            at.0,
            at.1 + nearest(value_px(cfg, c) * 9, 10),
            nearest(value_px(cfg, c) * 15, 10),
            Align::Center,
            Paint { color: verdict_ink(false, stats.grade), alpha: 1_000_000 },
        ),
        tilt_of(cfg, c, at.0, at.1),
    )
}

/// The left group: ring, pauses, grade and accuracy, those that are on.
pub open spec fn left_parts(cfg: SkinConfig, stats: HudStats, c: Canvas) -> Seq<ElementModel> {
    let h = cfg.hud;
    let ring = one_if(h.combo_ring);
    let pauses = ring + one_if(h.pauses);
    let grade = pauses + one_if(h.grade);
    let n = grade + one_if(h.accuracy);
    (if h.combo_ring {
        seq![ring_part(cfg, stats, c, left_slot(cfg, c, n, 0))]
    } else {
        Seq::empty()
    }) + (if h.pauses {
        seq![entry(cfg, c, "pauses"@, left_slot(cfg, c, n, ring), "PAUSES"@, "0"@)]
    } else {
        Seq::empty()
    }) + (if h.grade {
        seq![grade_part(cfg, stats, c, left_slot(cfg, c, n, pauses))]
    } else {
        Seq::empty()
    }) + (if h.accuracy {
        seq![
            entry(
                cfg,
                c,
                "accuracy"@,
                left_slot(cfg, c, n, grade),
                "ACCURACY"@,
                accuracy_of(stats),
            ),
        ]
    } else {
        Seq::empty()
    })
}

/// The right group: score, points, misses and notes, those that are on.
pub open spec fn right_parts(cfg: SkinConfig, stats: HudStats, c: Canvas) -> Seq<ElementModel> {
    let h = cfg.hud;
    let score = one_if(h.score);
    let points = score + one_if(h.points);
    let misses = points + one_if(h.misses);
    let n = misses + one_if(h.notes);
    (if h.score {
        seq![
            entry(
                cfg,
                c,
                "score"@,
                right_slot(cfg, c, n, 0),
                "SCORE"@,
                thousands_of(stats.score as int),
            ),
        ]
    } else {
        Seq::empty()
    }) + (if h.points {
        seq![entry(cfg, c, "points"@, right_slot(cfg, c, n, score), "POINTS"@, points_of(stats))]
    } else {
        Seq::empty()
    }) + (if h.misses {
        seq![
            entry(
                cfg,
                c,
                "misses"@,
                right_slot(cfg, c, n, points),
                "MISSES"@,
                decimal(stats.misses as nat),
            ),
        ]
    } else {
        Seq::empty()
    }) + (if h.notes {
        seq![
            entry(
                cfg,
                c,
                "notes"@,
                right_slot(cfg, c, n, misses),
                "NOTES"@,
                decimal(stats.hits as nat) + "/"@ + decimal(stats.resolved as nat),
            ),
        ]
    } else {
        Seq::empty()
    })
}

/// The health bar below the field.
pub open spec fn health_part(cfg: SkinConfig, stats: HudStats, c: Canvas) -> Seq<ElementModel> {
    if cfg.hud.health_bar {
        let f = c.field;
        let x = f.cx - f.half;
        let y = f.cy + f.half + short_side(c) * 14_000;
        let h = greater(short_side(c) * 8_800, 2_000_000);
        seq![
            ElementModel {
                key: "health_bar"@,
                ops: seq![
                    rect_at(x, y, 2 * f.half, h, inked(40, 40, 44, 600_000)),
                    rect_at(
                        x,
                        y,
                        nearest(2 * f.half * within(stats.health as int, 0, 1_000_000), 1_000_000),
                        h,
                        Paint {
                            color: cfg.hud.health_bar_color,
                            alpha: cfg.hud.health_bar_alpha as i128,
                        },
                    ),
                ],
                tilt: None,
            },
        ]
    } else {
        Seq::empty()
    }
}

/// The length that the progress bar runs over.
pub open spec fn song_length(replay: Replay, map: Beatmap) -> int {
    greater(greater(replay.length_ms as int, map.meta.duration_ms * ONE), ONE as int)
}

/// The progress bar above the field, with its clock.
pub open spec fn progress_part(
    cfg: SkinConfig,
    c: Canvas,
    replay: Replay,
    map: Beatmap,
    t: int,
) -> Seq<ElementModel> {
    if cfg.hud.song_progress_bar {
        let f = c.field;
        let length = song_length(replay, map);
        let x = f.cx - f.half;
        let y = f.cy - f.half - short_side(c) * 23_500;
        let h = greater(short_side(c) * 7_500, 2_000_000);
        let part = within(nearest(t * 1_000_000, length), 0, 1_000_000);
        seq![
            ElementModel {
                key: "song_progress"@,
                ops: seq![
                    rect_at(x, y, 2 * f.half, h, inked(64, 64, 68, 900_000)),
                    rect_at(
                        x,
                        y,
                        nearest(2 * f.half * part, 1_000_000),
                        h,
                        inked(225, 225, 230, cfg.hud.song_progress_alpha as int),
                    ),
                    words_at(
                        clock_of(t) + " / "@ + clock_of(length),
                        f.cx as int,
                        f.cy - f.half - short_side(c) * 29_000,
                        short_side(c) * 14_900,
                        Align::Center,
                        label_paint(cfg),
                    ),
                ],
                tilt: None,
            },
        ]
    } else {
        Seq::empty()
    }
}

/// The mark of the playback speed below the health bar: none at the map's own speed.
pub open spec fn speed_part(cfg: SkinConfig, c: Canvas, speed: int) -> Seq<ElementModel> {
    if cfg.hud.speed_label && mark_of(speed) != SpeedMark::Plain {
        seq![
            text_part(
                "speed_label"@,
                bare(
                    Shape::Speed {
                        x: c.field.cx as i128,
                        y: (c.field.cy + c.field.half + short_side(c) * 42_800) as i128,
                        px: (short_side(c) * 16_300) as i128,
                        mark: mark_of(speed),
                        paint: value_paint(cfg),
                    },
                ),
                None,
            ),
        ]
    } else {
        Seq::empty()
    }
}

/// The title above the field.
pub open spec fn title_part(cfg: SkinConfig, c: Canvas, replay: Replay, map: Beatmap) -> Seq<
    ElementModel,
> {
    if cfg.hud.song_info {
        seq![
            text_part(
                "song_info"@,
                words_at(
                    title_of(replay.player_name@, map.meta.song_name@),
                    c.field.cx as int,
                    c.field.cy - c.field.half - short_side(c) * 53_000,
                    short_side(c) * 18_700,
                    Align::Center,
                    value_paint(cfg),
                ),
                None,
            ),
        ]
    } else {
        Seq::empty()
    }
}

/// The opacity of the red edge: it grows with the square of the lost health.
pub open spec fn vignette_alpha(cfg: SkinConfig, health: int) -> int {
    let lost = 1_000_000 - within(health, 0, 1_000_000);
    nearest(cfg.fail_vignette_opacity * nearest(lost * lost, 1_000_000), 1_000_000)
}

/// The red edge of a run that is about to fail.
pub open spec fn vignette_part(cfg: SkinConfig, stats: HudStats) -> Seq<ElementModel> {
    let alpha = vignette_alpha(cfg, stats.health as int);
    if cfg.fail_vignette_opacity > 0 && alpha > 2_000 {
        seq![text_part(""@, bare(Shape::Vignette { alpha: alpha as i128 }), None)]
    } else {
        Seq::empty()
    }
}

/// The meters on top of everything.
pub open spec fn meter_part(cfg: SkinConfig, hits: Seq<HitDetail>, t: int, c: Canvas) -> ElementModel {
    ElementModel {
        key: ""@,
        ops: meter_ops(cfg, hits, t, c.width as int, c.height as int),
        tilt: None,
    }
}

/// The overlay, part by part from the bottom up.
pub open spec fn hud_parts(
    cfg: SkinConfig,
    hits: Seq<HitDetail>,
    stats: HudStats,
    replay: Replay,
    map: Beatmap,
    t: int,
    marks: Seq<(i64, i64, i64)>,
    c: Canvas,
) -> Seq<ElementModel> {
    combo_part(cfg, stats, c) + card_part(cfg, c) + miss_part(cfg, c, marks) + left_parts(
        cfg,
        stats,
        c,
    ) + right_parts(cfg, stats, c) + health_part(cfg, stats, c) + progress_part(
        cfg,
        c,
        replay,
        map,
        t,
    ) + speed_part(cfg, c, replay.speed as int) + title_part(cfg, c, replay, map) + vignette_part(
        cfg,
        stats,
    ) + seq![meter_part(cfg, hits, t, c)]
}

fn shorter(c: &Canvas) -> (s: i128)
    ensures
        s == short_side(*c),
        0 <= s <= 0xffff_ffff,
{
    if c.width < c.height {
        c.width as i128
    } else {
        c.height as i128
    }
}

fn value_size(cfg: &SkinConfig, c: &Canvas) -> (px: i128)
    requires
        can_lay_out(*cfg, *c),
    ensures
        px == value_px(*cfg, *c),
        magnitude(px as int) <= 200_000_000_000_000_000_001,
{
    let side: i128 = shorter(c);
    let size: i128 = cfg.interface_values_font_size as i128;
    assert(-200_000_000_000_000_000_000_000_000 <= side * 23_700 * size
        <= 200_000_000_000_000_000_000_000_000) by (nonlinear_arith)
        requires
            0 <= side <= 0xffff_ffff,
            -1_000_000_000_000 <= size <= 1_000_000_000_000,
    ;
    proof {
        let n: int = side * 23_700 * size;
        assert(magnitude(n) <= 200_000_000_000_000_000_000_000_000);
        assert(magnitude(nearest(n, 1_000_000)) == (2 * magnitude(n) + 1_000_000) / 2_000_000);
    }
    div_nearest(side * 23_700 * size, 1_000_000)
}

fn panel_opacity(cfg: &SkinConfig) -> (a: i128)
    ensures
        a == panel_alpha(*cfg),
        0 <= a <= 1_000_000,
{
    if cfg.panel_opacity < 0 {
        0
    } else if cfg.panel_opacity > 1_000_000 {
        1_000_000
    } else {
        cfg.panel_opacity as i128
    }
}

fn labels(cfg: &SkinConfig) -> (p: Paint)
    ensures
        p == label_paint(*cfg),
{
    paint(138, 138, 146, panel_opacity(cfg))
}

fn values(cfg: &SkinConfig) -> (p: Paint)
    ensures
        p == value_paint(*cfg),
{
    Paint { color: cfg.interface_text_color, alpha: panel_opacity(cfg) }
}

fn column(cfg: &SkinConfig, c: &Canvas) -> (dx: i128)
    requires
        can_lay_out(*cfg, *c),
    ensures
        dx == column_dx(*cfg, *c),
        magnitude(dx as int) <= 10_000_000_000_000_000_000_000,
{
    let side: i128 = shorter(c);
    let gap: i128 = cfg.panel_gap as i128;
    assert(-5_000_000_000_000_000_000_000 <= gap * side <= 5_000_000_000_000_000_000_000)
        by (nonlinear_arith)
        requires
            0 <= side <= 0xffff_ffff,
            -1_000_000_000_000 <= gap <= 1_000_000_000_000,
    ;
    c.field.half as i128 + side * 85_000 + div_nearest(gap * side, 1440)
}

fn push_combo(list: &mut Vec<Element>, cfg: &SkinConfig, stats: &HudStats, c: &Canvas)
    requires
        can_lay_out(*cfg, *c),
    ensures
        parts_of(final(list)@) == parts_of(old(list)@) + combo_part(*cfg, *stats, *c),
{
    if cfg.hud.playfield_combo_text && stats.combo > 0 {
        let f: Playfield = c.field;
        let side: i128 = shorter(c);
        let vpos: i128 = cfg.hud.combo_text_vpos_pct as i128;
        let half: i128 = f.half as i128;
        assert(-2_000_000_000_000_000_000_000_000_000 <= 2 * half * vpos
            <= 2_000_000_000_000_000_000_000_000_000) by (nonlinear_arith)
            requires
                -1_000_000_000_000_000 <= half <= 1_000_000_000_000_000,
                -1_000_000_000_000 <= vpos <= 1_000_000_000_000,
        ;
        let cy: i128 = f.cy as i128 - half + div_nearest(2 * half * vpos, 100_000_000);
        let size: i128 = cfg.hud.combo_text_font_size as i128;
        assert(-200_000_000_000_000_000_000_000 <= size * (44 * side)
            <= 200_000_000_000_000_000_000_000) by (nonlinear_arith)
            requires
                0 <= side <= 0xffff_ffff,
                -1_000_000_000_000 <= size <= 1_000_000_000_000,
        ;
        let px: i128 = div_nearest(size * (44 * side), 144_000);
        let mut ops: Vec<Op> = Vec::new();
        assert(drawn(ops@) =~= Seq::empty());
        write_text(
            &mut ops,
            count_words(stats.combo),
            f.cx as i128,
            cy + scaled(px, 35, 100),
            px,
            Align::Center,
            Paint {
                color: cfg.hud.combo_text_color,
                alpha: cfg.hud.combo_text_opacity as i128,
            },
        );
        assert(drawn(ops@) =~= combo_part(*cfg, *stats, *c)[0].ops);
        add_part(list, "combo_text", ops, None);
    }
    assert(parts_of(list@) =~= parts_of(old(list)@) + combo_part(*cfg, *stats, *c));
}

fn push_cards(list: &mut Vec<Element>, cfg: &SkinConfig, c: &Canvas)
    requires
        can_lay_out(*cfg, *c),
    ensures
        parts_of(final(list)@) == parts_of(old(list)@) + card_part(*cfg, *c),
{
    if cfg.panel_background_opacity > 0 && !c.portrait {
        let side: i128 = shorter(c);
        let half: i128 = c.field.half as i128;
        let w: i128 = side * 160_000;
        let h: i128 = scaled(half, 19, 10);
        let top: i128 = c.field.cy as i128 - scaled(half, 19, 20);
        let dx: i128 = column(cfg, c);
        let ink: Paint = Paint {
            color: cfg.panel_color,
            alpha: cfg.panel_background_opacity as i128,
        };
        let mut ops: Vec<Op> = Vec::new();
        fill_rect(&mut ops, c.field.cx as i128 - dx - side * 80_000, top, w, h, ink);
        fill_rect(&mut ops, c.field.cx as i128 + dx - side * 80_000, top, w, h, ink);
        assert(drawn(ops@) =~= card_part(*cfg, *c)[0].ops);
        add_part(list, "", ops, None);
    }
    assert(parts_of(list@) =~= parts_of(old(list)@) + card_part(*cfg, *c));
}

fn clip(v: i128, lo: i128, hi: i128) -> (r: i128)
    requires
        lo <= hi,
    ensures
        r == within(v as int, lo as int, hi as int),
        lo <= r <= hi,
{
    if v < lo {
        lo
    } else if v > hi {
        hi
    } else {
        v
    }
}

fn mark_shape(cfg: &SkinConfig, c: &Canvas, m: (i64, i64, i64)) -> (s: Shape)
    requires
        can_lay_out(*cfg, *c),
    ensures
        bare(s) == miss_mark(*cfg, *c, m),
{
    let age: i128 = m.2 as i128;
    let a: i128 = clip(div_nearest(age, 100), 0, 1_000_000);
    let out: i128 = 1_000_000 - clip(div_nearest(age - 300_000_000, 200), 0, 1_000_000);
    let opacity: i128 = cfg.hud.miss_effect_opacity as i128;
    let side: i128 = shorter(c);
    assert(0 <= a * out <= 1_000_000_000_000) by (nonlinear_arith)
        requires
            0 <= a <= 1_000_000,
            0 <= out <= 1_000_000,
    ;
    let both: i128 = a * out;
    assert(-1_000_000_000_000_000_000_000_000 <= both * opacity
        <= 1_000_000_000_000_000_000_000_000) by (nonlinear_arith)
        requires
            0 <= both <= 1_000_000_000_000,
            -1_000_000_000_000 <= opacity <= 1_000_000_000_000,
    ;
    assert(0 <= side * 32_000 * (6_000_000 + 4 * a) <= 2_000_000_000_000_000_000_000_000)
        by (nonlinear_arith)
        requires
            0 <= side <= 0xffff_ffff,
            0 <= a <= 1_000_000,
    ;
    Shape::Cross {
        x: m.0 as i128,
        y: m.1 as i128,
        half: div_nearest(side * 32_000 * (6_000_000 + 4 * a), 10_000_000),
        paint: paint(232, 48, 64, div_nearest(both * opacity, 1_000_000_000_000)),
    }
}

fn push_misses(list: &mut Vec<Element>, cfg: &SkinConfig, c: &Canvas, marks: &[(i64, i64, i64)])
    requires
        can_lay_out(*cfg, *c),
    ensures
        parts_of(final(list)@) == parts_of(old(list)@) + miss_part(*cfg, *c, marks@),
{
    if cfg.hud.miss_effect_opacity > 0 {
        let mut ops: Vec<Op> = Vec::new();
        let mut i: usize = 0;
        let ghost all = Seq::new(marks@.len(), |i: int| miss_mark(*cfg, *c, marks@[i]));
        assert(drawn(ops@) =~= all.take(0));
        while i < marks.len()
            invariant
                i <= marks@.len(),
                can_lay_out(*cfg, *c),
                all == Seq::new(marks@.len(), |i: int| miss_mark(*cfg, *c, marks@[i])),
                drawn(ops@) == all.take(i as int),
            decreases marks@.len() - i,
        {
            let s: Shape = mark_shape(cfg, c, marks[i]);
            draw(&mut ops, s);
            assert(all.take(i + 1) =~= all.take(i as int).push(all[i as int]));
            i = i + 1;
        }
        assert(all.take(i as int) =~= all);
        add_part(list, "", ops, None);
    }
    assert(parts_of(list@) =~= parts_of(old(list)@) + miss_part(*cfg, *c, marks@));
}

fn slot(cfg: &SkinConfig, c: &Canvas, n: u8, i: u8, top: i128) -> (y: i128)
    requires
        can_lay_out(*cfg, *c),
        i < n <= 4,
        magnitude(top as int) <= 10_000_000_000_000_000,
    ensures
        y == slot_y(*cfg, *c, n as int, i as int, top as int),
        magnitude(y as int) <= 1_000_000_000_000_000_000_000_000,
{
    let half: i128 = c.field.half as i128;
    let bottom: i128 = c.field.cy as i128 - scaled(half, 79, 100) + shorter(c) * 396_000;
    if n <= 1 {
        let v: i128 = value_size(cfg, c);
        c.field.cy as i128 - div_nearest(v * 4, 10)
    } else {
        let d: i128 = bottom - top;
        assert(magnitude(d as int) <= 100_000_000_000_000_000);
        assert(magnitude(d * i) <= 400_000_000_000_000_000) by (nonlinear_arith)
            requires
                magnitude(d as int) <= 100_000_000_000_000_000,
                0 <= i <= 4,
        ;
        top + div_nearest(d * i as i128, n as i128 - 1)
    }
}

fn spread(c: &Canvas, n: u8, i: u8) -> (x: i128)
    requires
        i < n <= 4,
    ensures
        x == row_x(*c, n as int, i as int),
        magnitude(x as int) <= 100_000_000_000_000_000,
{
    let w: i128 = c.width as i128;
    let k: i128 = 2 * i as i128 - (n as i128 - 1);
    let step: i128 = w * 110_000;
    assert(magnitude(k * step) <= 10_000_000_000_000_000) by (nonlinear_arith)
        requires
            -4 <= k <= 8,
            0 <= step <= 0xffff_ffff * 110_000,
    ;
    w * 500_000 + k * step
}

fn left_place(cfg: &SkinConfig, c: &Canvas, n: u8, i: u8) -> (at: (i128, i128))
    requires
        can_lay_out(*cfg, *c),
        i < n <= 4,
    ensures
        (at.0 as int, at.1 as int) == left_slot(*cfg, *c, n as int, i as int),
        magnitude(at.0 as int) <= 1_000_000_000_000_000_000_000_000,
        magnitude(at.1 as int) <= 1_000_000_000_000_000_000_000_000,
{
    let f: Playfield = c.field;
    if c.portrait {
        (spread(c, n, i), f.cy as i128 + f.half as i128 + shorter(c) * 135_000)
    } else {
        let top: i128 = f.cy as i128 - scaled(f.half as i128, 60, 100);
        (f.cx as i128 - column(cfg, c), slot(cfg, c, n, i, top))
    }
}

fn right_place(cfg: &SkinConfig, c: &Canvas, n: u8, i: u8) -> (at: (i128, i128))
    requires
        can_lay_out(*cfg, *c),
        i < n <= 4,
    ensures
        (at.0 as int, at.1 as int) == right_slot(*cfg, *c, n as int, i as int),
        magnitude(at.0 as int) <= 1_000_000_000_000_000_000_000_000,
        magnitude(at.1 as int) <= 1_000_000_000_000_000_000_000_000,
{
    let f: Playfield = c.field;
    if c.portrait {
        (spread(c, n, i), f.cy as i128 - f.half as i128 - shorter(c) * 135_000)
    } else {
        let top: i128 = f.cy as i128 - scaled(f.half as i128, 79, 100);
        (f.cx as i128 + column(cfg, c), slot(cfg, c, n, i, top))
    }
}

fn tilt_at(cfg: &SkinConfig, c: &Canvas, at: (i128, i128)) -> (t: Option<Tilt>)
    requires
        can_lay_out(*cfg, *c),
        magnitude(at.1 as int) <= 1_000_000_000_000_000_000_000_000,
    ensures
        t == tilt_of(*cfg, *c, at.0 as int, at.1 as int),
{
    let middle: i128 = at.1 + div_nearest(value_size(cfg, c) * 6, 10);
    let side: i128 = shorter(c);
    if c.portrait || side == 0 {
        return None;
    }
    let off: i128 = middle - c.field.cy as i128;
    let turn: i128 = cfg.panel_angle as i128;
    assert(magnitude(13 * turn * off) <= 15_000_000_000_000_000_000_000_000_000_000_000_000)
        by (nonlinear_arith)
        requires
            -1_000_000_000_000 <= turn <= 1_000_000_000_000,
            -1_100_000_000_000_000_000_000_000 <= off <= 1_100_000_000_000_000_000_000_000,
    ;
    let angle: i128 = div_nearest(13 * turn * off, 15 * (side * 132_000));
    if -100 < angle && angle < 100 {
        None
    } else {
        Some(Tilt { x: at.0, y: middle, angle })
    }
}

fn push_entry(
    list: &mut Vec<Element>,
    cfg: &SkinConfig,
    c: &Canvas,
    key: &'static str,
    at: (i128, i128),
    label: &str,
    value: String,
)
    requires
        can_lay_out(*cfg, *c),
        magnitude(at.0 as int) <= 1_000_000_000_000_000_000_000_000,
        magnitude(at.1 as int) <= 1_000_000_000_000_000_000_000_000,
    ensures
        parts_of(final(list)@) == parts_of(old(list)@).push(
            entry(*cfg, *c, key@, (at.0 as int, at.1 as int), label@, value@),
        ),
{
    let v: i128 = value_size(cfg, c);
    let mut ops: Vec<Op> = Vec::new();
    write_text(
        &mut ops,
        label.to_owned(),
        at.0,
        at.1,
        shorter(c) * 16_300,
        Align::Center,
        labels(cfg),
    );
    write_text(
        &mut ops,
        value,
        at.0,
        at.1 + div_nearest(v * 115, 100),
        v,
        Align::Center,
        values(cfg),
    );
    assert(drawn(ops@) =~= entry(
        *cfg,
        *c,
        key@,
        (at.0 as int, at.1 as int),
        label@,
        value@,
    ).ops);
    add_part(list, key, ops, tilt_at(cfg, c, at));
}

/// The fill of the ring in millionths.
pub fn fill_of_ring(stats: &HudStats) -> (f: i128)
    requires
        stats.ring_progress <= 8,
        stats.ring_fill_at_miss <= 8,
    ensures
        f == ring_fill(*stats),
{
    if stats.ring_sides >= 8 {
        return 1_000_000;
    }
    if stats.combo == 0 {
        if let Some(d) = stats.ms_since_miss {
            if d < 250_000_000 {
                let left: i128 = 250_000_000 - d as i128;
                let had: i128 = stats.ring_fill_at_miss as i128 * 125_000;
                assert(0 <= had * left <= 250_000_000_000_000) by (nonlinear_arith)
                    requires
                        0 <= had <= 1_000_000,
                        0 <= left <= 250_000_000,
                ;
                return div_nearest(had * left, 250_000_000);
            }
        }
    }
    let prev: i128 = if stats.combo == 0 || stats.combo % RING_TIER == 0 {
        0
    } else {
        ((stats.combo - 1) % RING_TIER) as i128
    };
    let t: i128 = match stats.ms_since_hit {
        Some(d) => if d < 150_000_000 {
            d as i128
        } else {
            150_000_000
        },
        None => 150_000_000,
    };
    let step: i128 = (stats.ring_progress as i128 - prev) * 125_000;
    assert(-150_000_000_000_000 <= step * t <= 150_000_000_000_000) by (nonlinear_arith)
        requires
            -1_000_000 <= step <= 1_000_000,
            0 <= t <= 150_000_000,
    ;
    prev * 125_000 + div_nearest(step * t, 150_000_000)
}

/// The edges of a ring that are filled: whole ones, and the share of the next one in millionths,
/// where that can be seen.
pub open spec fn filled_edges(sides: int, fill: int) -> (int, Option<int>) {
    let edges = within(fill, 0, 1_000_000) * sides;
    let whole = edges / 1_000_000;
    let part = edges % 1_000_000;
    (
        whole,
        if part > 1_000 && whole < sides {
            Some(part)
        } else {
            None
        },
    )
}

/// The edges of a ring that are filled: whole ones, and a share of the next one in millionths.
pub fn ring_edges(sides: u32, fill: i128) -> (r: (u32, Option<u32>))
    ensures
        ({
            let (whole, part) = filled_edges(sides as int, fill as int);
            r.0 == whole && match (r.1, part) {
                (Some(a), Some(b)) => a == b,
                (None, None) => true,
                _ => false,
            }
        }),
        r.0 <= sides,
{
    let share: i128 = clip(fill, 0, 1_000_000);
    assert(0 <= share * sides <= 1_000_000 * sides) by (nonlinear_arith)
        requires
            0 <= share <= 1_000_000,
            0 <= sides,
    ;
    let edges: i128 = share * sides as i128;
    let whole: u32 = (edges / 1_000_000) as u32;
    let part: u32 = (edges % 1_000_000) as u32;
    if part > 1_000 && whole < sides {
        (whole, Some(part))
    } else {
        (whole, None)
    }
}

fn wobble_of_ring(stats: &HudStats) -> (w: Option<i128>)
    ensures
        w == ring_wobble(*stats),
{
    if stats.combo > 0 && stats.combo % RING_TIER == 0 && stats.ring_sides < 8 {
        if let Some(d) = stats.ms_since_hit {
            if d < 250_000_000 {
                return Some(div_nearest(d as i128, 250));
            }
        }
    }
    None
}

fn push_ring(
    list: &mut Vec<Element>,
    cfg: &SkinConfig,
    stats: &HudStats,
    c: &Canvas,
    at: (i128, i128),
)
    requires
        can_lay_out(*cfg, *c),
        stats.ring_progress <= 8,
        stats.ring_fill_at_miss <= 8,
        magnitude(at.1 as int) <= 1_000_000_000_000_000_000_000_000,
    ensures
        parts_of(final(list)@) == parts_of(old(list)@).push(
            ring_part(*cfg, *stats, *c, (at.0 as int, at.1 as int)),
        ),
{
    let side: i128 = shorter(c);
    let mut combo: String = count_words(stats.combo);
    combo.append("x");
    let mut ops: Vec<Op> = Vec::new();
    draw_with(
        &mut ops,
        Shape::Ring {
            x: at.0,
            y: at.1 - side * 16_000,
            radius: side * 48_000,
            sides: stats.ring_sides,
            fill: fill_of_ring(stats),
            wobble: wobble_of_ring(stats),
            paint: Paint {
                color: cfg.hud.combo_ring_color,
                alpha: cfg.hud.combo_ring_opacity as i128,
            },
        },
        combo,
    );
    assert(drawn(ops@) =~= ring_part(*cfg, *stats, *c, (at.0 as int, at.1 as int)).ops);
    add_part(list, "combo_ring", ops, None);
}

fn push_grade(
    list: &mut Vec<Element>,
    cfg: &SkinConfig,
    stats: &HudStats,
    c: &Canvas,
    at: (i128, i128),
)
    requires
        can_lay_out(*cfg, *c),
        magnitude(at.1 as int) <= 1_000_000_000_000_000_000_000_000,
    ensures
        parts_of(final(list)@) == parts_of(old(list)@).push(
            grade_part(*cfg, *stats, *c, (at.0 as int, at.1 as int)),
        ),
{
    let v: i128 = value_size(cfg, c);
    let mut ops: Vec<Op> = Vec::new();
    write_text(
        &mut ops,
        grade_letters(false, stats.grade).to_owned(),
        at.0,
        at.1 + div_nearest(v * 9, 10),
        div_nearest(v * 15, 10),
        Align::Center,
        Paint { color: grade_color(false, stats.grade), alpha: 1_000_000 },
    );
    assert(drawn(ops@) =~= grade_part(*cfg, *stats, *c, (at.0 as int, at.1 as int)).ops);
    add_part(list, "grade", ops, tilt_at(cfg, c, at));
}

fn bit(b: bool) -> (n: u8)
    ensures
        n == one_if(b),
        n <= 1,
{
    if b {
        1
    } else {
        0
    }
}

fn push_left(list: &mut Vec<Element>, cfg: &SkinConfig, stats: &HudStats, c: &Canvas)
    requires
        can_lay_out(*cfg, *c),
        stats.ring_progress <= 8,
        stats.ring_fill_at_miss <= 8,
    ensures
        parts_of(final(list)@) == parts_of(old(list)@) + left_parts(*cfg, *stats, *c),
{
    let ring: u8 = bit(cfg.hud.combo_ring);
    let pauses: u8 = ring + bit(cfg.hud.pauses);
    let grade: u8 = pauses + bit(cfg.hud.grade);
    let n: u8 = grade + bit(cfg.hud.accuracy);
    if cfg.hud.combo_ring {
        push_ring(list, cfg, stats, c, left_place(cfg, c, n, 0));
    }
    if cfg.hud.pauses {
        push_entry(
            list,
            cfg,
            c,
            "pauses",
            left_place(cfg, c, n, ring),
            "PAUSES",
            "0".to_owned(),
        );
    }
    if cfg.hud.grade {
        push_grade(list, cfg, stats, c, left_place(cfg, c, n, pauses));
    }
    if cfg.hud.accuracy {
        push_entry(
            list,
            cfg,
            c,
            "accuracy",
            left_place(cfg, c, n, grade),
            "ACCURACY",
            accuracy_words(stats),
        );
    }
    assert(parts_of(list@) =~= parts_of(old(list)@) + left_parts(*cfg, *stats, *c));
}

fn push_right(list: &mut Vec<Element>, cfg: &SkinConfig, stats: &HudStats, c: &Canvas)
    requires
        can_lay_out(*cfg, *c),
        stats.score > i64::MIN,
    ensures
        parts_of(final(list)@) == parts_of(old(list)@) + right_parts(*cfg, *stats, *c),
{
    let score: u8 = bit(cfg.hud.score);
    let points: u8 = score + bit(cfg.hud.points);
    let misses: u8 = points + bit(cfg.hud.misses);
    let n: u8 = misses + bit(cfg.hud.notes);
    if cfg.hud.score {
        push_entry(
            list,
            cfg,
            c,
            "score",
            right_place(cfg, c, n, 0),
            "SCORE",
            thousands(stats.score),
        );
    }
    if cfg.hud.points {
        push_entry(
            list,
            cfg,
            c,
            "points",
            right_place(cfg, c, n, score),
            "POINTS",
            points_words(stats),
        );
    }
    if cfg.hud.misses {
        push_entry(
            list,
            cfg,
            c,
            "misses",
            right_place(cfg, c, n, points),
            "MISSES",
            count_words(stats.misses),
        );
    }
    if cfg.hud.notes {
        push_entry(
            list,
            cfg,
            c,
            "notes",
            right_place(cfg, c, n, misses),
            "NOTES",
            notes_words(stats),
        );
    }
    assert(parts_of(list@) =~= parts_of(old(list)@) + right_parts(*cfg, *stats, *c));
}

fn push_health(list: &mut Vec<Element>, cfg: &SkinConfig, stats: &HudStats, c: &Canvas)
    requires
        can_lay_out(*cfg, *c),
    ensures
        parts_of(final(list)@) == parts_of(old(list)@) + health_part(*cfg, *stats, *c),
{
    if cfg.hud.health_bar {
        let f: Playfield = c.field;
        let side: i128 = shorter(c);
        let half: i128 = f.half as i128;
        let x: i128 = f.cx as i128 - half;
        let y: i128 = f.cy as i128 + half + side * 14_000;
        let h: i128 = if side * 8_800 > 2_000_000 {
            side * 8_800
        } else {
            2_000_000
        };
        let full: i128 = clip(stats.health as i128, 0, 1_000_000);
        let mut ops: Vec<Op> = Vec::new();
        fill_rect(&mut ops, x, y, 2 * half, h, paint(40, 40, 44, 600_000));
        fill_rect(
            &mut ops,
            x,
            y,
            scaled(2 * half, full, 1_000_000),
            h,
            Paint { color: cfg.hud.health_bar_color, alpha: cfg.hud.health_bar_alpha as i128 },
        );
        assert(drawn(ops@) =~= health_part(*cfg, *stats, *c)[0].ops);
        add_part(list, "health_bar", ops, None);
    }
    assert(parts_of(list@) =~= parts_of(old(list)@) + health_part(*cfg, *stats, *c));
}

fn push_progress(
    list: &mut Vec<Element>,
    cfg: &SkinConfig,
    c: &Canvas,
    replay: &Replay,
    map: &Beatmap,
    t: i64,
)
    requires
        can_lay_out(*cfg, *c),
        magnitude(map.meta.duration_ms as int) <= 9_000_000_000_000,
    ensures
        parts_of(final(list)@) == parts_of(old(list)@) + progress_part(
            *cfg,
            *c,
            *replay,
            *map,
            t as int,
        ),
{
    if cfg.hud.song_progress_bar {
        let f: Playfield = c.field;
        let side: i128 = shorter(c);
        let half: i128 = f.half as i128;
        let own: i64 = map.meta.duration_ms * ONE;
        let longer: i64 = if replay.length_ms > own {
            replay.length_ms
        } else {
            own
        };
        let length: i64 = if longer > ONE {
            longer
        } else {
            ONE
        };
        let x: i128 = f.cx as i128 - half;
        let y: i128 = f.cy as i128 - half - side * 23_500;
        let h: i128 = if side * 7_500 > 2_000_000 {
            side * 7_500
        } else {
            2_000_000
        };
        let part: i128 = clip(div_nearest(t as i128 * 1_000_000, length as i128), 0, 1_000_000);
        let mut time: String = clock(t);
        time.append(" / ");
        time.append(clock(length).as_str());
        let mut ops: Vec<Op> = Vec::new();
        fill_rect(&mut ops, x, y, 2 * half, h, paint(64, 64, 68, 900_000));
        fill_rect(
            &mut ops,
            x,
            y,
            scaled(2 * half, part, 1_000_000),
            h,
            paint(225, 225, 230, cfg.hud.song_progress_alpha as i128),
        );
        write_text(
            &mut ops,
            time,
            f.cx as i128,
            f.cy as i128 - half - side * 29_000,
            side * 14_900,
            Align::Center,
            labels(cfg),
        );
        assert(drawn(ops@) =~= progress_part(*cfg, *c, *replay, *map, t as int)[0].ops);
        add_part(list, "song_progress", ops, None);
    }
    assert(parts_of(list@) =~= parts_of(old(list)@) + progress_part(
        *cfg,
        *c,
        *replay,
        *map,
        t as int,
    ));
}

fn push_speed(list: &mut Vec<Element>, cfg: &SkinConfig, c: &Canvas, speed: i64)
    requires
        can_lay_out(*cfg, *c),
    ensures
        parts_of(final(list)@) == parts_of(old(list)@) + speed_part(*cfg, *c, speed as int),
{
    let mark: SpeedMark = speed_mark(speed);
    if cfg.hud.speed_label && mark != SpeedMark::Plain {
        let side: i128 = shorter(c);
        let mut ops: Vec<Op> = Vec::new();
        draw(
            &mut ops,
            Shape::Speed {
                x: c.field.cx as i128,
                y: c.field.cy as i128 + c.field.half as i128 + side * 42_800,
                px: side * 16_300,
                mark,
                paint: values(cfg),
            },
        );
        assert(drawn(ops@) =~= speed_part(*cfg, *c, speed as int)[0].ops);
        add_part(list, "speed_label", ops, None);
    }
    assert(parts_of(list@) =~= parts_of(old(list)@) + speed_part(*cfg, *c, speed as int));
}

fn push_title(list: &mut Vec<Element>, cfg: &SkinConfig, c: &Canvas, replay: &Replay, map: &Beatmap)
    requires
        can_lay_out(*cfg, *c),
    ensures
        parts_of(final(list)@) == parts_of(old(list)@) + title_part(*cfg, *c, *replay, *map),
{
    if cfg.hud.song_info {
        let side: i128 = shorter(c);
        let mut ops: Vec<Op> = Vec::new();
        write_text(
            &mut ops,
            title_words(replay.player_name.as_str(), map.meta.song_name.as_str()),
            c.field.cx as i128,
            c.field.cy as i128 - c.field.half as i128 - side * 53_000,
            side * 18_700,
            Align::Center,
            values(cfg),
        );
        assert(drawn(ops@) =~= title_part(*cfg, *c, *replay, *map)[0].ops);
        add_part(list, "song_info", ops, None);
    }
    assert(parts_of(list@) =~= parts_of(old(list)@) + title_part(*cfg, *c, *replay, *map));
}

fn push_vignette(list: &mut Vec<Element>, cfg: &SkinConfig, stats: &HudStats, c: &Canvas)
    requires
        can_lay_out(*cfg, *c),
    ensures
        parts_of(final(list)@) == parts_of(old(list)@) + vignette_part(*cfg, *stats),
{
    let lost: i128 = 1_000_000 - clip(stats.health as i128, 0, 1_000_000);
    assert(0 <= lost * lost <= 1_000_000_000_000) by (nonlinear_arith)
        requires
            0 <= lost <= 1_000_000,
    ;
    let danger: i128 = div_nearest(lost * lost, 1_000_000);
    let alpha: i128 = scaled(cfg.fail_vignette_opacity as i128, danger, 1_000_000);
    if cfg.fail_vignette_opacity > 0 && alpha > 2_000 {
        let mut ops: Vec<Op> = Vec::new();
        draw(&mut ops, Shape::Vignette { alpha });
        assert(drawn(ops@) =~= vignette_part(*cfg, *stats)[0].ops);
        add_part(list, "", ops, None);
    }
    assert(parts_of(list@) =~= parts_of(old(list)@) + vignette_part(*cfg, *stats));
}

/// Lays the overlay out for one frame, from the numbers and the hits up to a song time.
pub fn build_hud(
    cfg: &SkinConfig,
    hits: &[HitDetail],
    stats: &HudStats,
    replay: &Replay,
    map: &Beatmap,
    song_time_ms: i64,
    miss_marks: &[(i64, i64, i64)],
    canvas: &Canvas,
) -> (list: Vec<Element>)
    requires
        can_lay_out(*cfg, *canvas),
        stats.score > i64::MIN,
        stats.ring_progress <= 8,
        stats.ring_fill_at_miss <= 8,
        magnitude(map.meta.duration_ms as int) <= 9_000_000_000_000,
    ensures
        parts_of(list@) == hud_parts(
            *cfg,
            hits@,
            *stats,
            *replay,
            *map,
            song_time_ms as int,
            miss_marks@,
            *canvas,
        ),
{
    let mut list: Vec<Element> = Vec::new();
    assert(parts_of(list@) =~= Seq::empty());
    push_combo(&mut list, cfg, stats, canvas);
    push_cards(&mut list, cfg, canvas);
    push_misses(&mut list, cfg, canvas, miss_marks);
    push_left(&mut list, cfg, stats, canvas);
    push_right(&mut list, cfg, stats, canvas);
    push_health(&mut list, cfg, stats, canvas);
    push_progress(&mut list, cfg, canvas, replay, map, song_time_ms);
    push_speed(&mut list, cfg, canvas, replay.speed);
    push_title(&mut list, cfg, canvas, replay, map);
    push_vignette(&mut list, cfg, stats, canvas);
    let meters: Vec<Op> = draw_error_meters(cfg, hits, song_time_ms, canvas.width, canvas.height);
    add_part(&mut list, "", meters, None);
    assert(parts_of(list@) =~= hud_parts(
        *cfg,
        hits@,
        *stats,
        *replay,
        *map,
        song_time_ms as int,
        miss_marks@,
        *canvas,
    ));
    list
}

/// The bounds of a part on the screen, in millionths of a pixel.
#[derive(Debug, Clone, Copy)]
pub struct HudBox {
    pub key: &'static str,
    pub x0: i128,
    pub y0: i128,
    pub x1: i128,
    pub y1: i128,
}

/// Whether numbers lie between two of them.
pub open spec fn spans(values: Seq<i64>, lo: int, hi: int) -> bool {
    &&& values.contains(lo as i64)
    &&& values.contains(hi as i64)
    &&& forall|i: int| 0 <= i < values.len() ==> lo <= #[trigger] values[i] <= hi
}

/// How far a span moves so that its middle comes to stand at a share of a length.
pub open spec fn moved(lo: int, hi: int, share: Option<int>, length: int) -> int {
    match share {
        Some(s) => s * length - nearest(lo + hi, 2),
        None => 0,
    }
}

fn span(values: &[i64]) -> (r: (i64, i64))
    requires
        values@.len() > 0,
    ensures
        spans(values@, r.0 as int, r.1 as int),
{
    let mut lo: i64 = values[0];
    let mut hi: i64 = values[0];
    let mut i: usize = 1;
    while i < values.len()
        invariant
            1 <= i <= values@.len(),
            values@.contains(lo),
            values@.contains(hi),
            forall|k: int| 0 <= k < i ==> lo <= #[trigger] values@[k] <= hi,
        decreases values@.len() - i,
    {
        let v: i64 = values[i];
        assert(values@.contains(v));
        if v < lo {
            lo = v;
        }
        if v > hi {
            hi = v;
        }
        i = i + 1;
    }
    (lo, hi)
}

fn shift(lo: i64, hi: i64, share: Option<i64>, length: u32) -> (d: i128)
    ensures
        d == moved(
            lo as int,
            hi as int,
            match share {
                Some(s) => Some(s as int),
                None => None,
            },
            length as int,
        ),
        magnitude(d as int) <= 50_000_000_000_000_000_000_000_000_000,
{
    match share {
        Some(s) => {
            let a: i128 = s as i128;
            let b: i128 = length as i128;
            assert(magnitude(a * b) <= 40_000_000_000_000_000_000_000_000_000) by (nonlinear_arith)
                requires
                    -0x8000_0000_0000_0000 <= a <= 0x7fff_ffff_ffff_ffff,
                    0 <= b <= 0xffff_ffff,
            ;
            a * b - div_nearest(lo as i128 + hi as i128, 2)
        },
        None => 0,
    }
}

/// Whether a part with corners at the given places ends up in a box after a move: where a place
/// for it is set, as a share of the frame, its middle moves there.
pub open spec fn is_placed(
    xs: Seq<i64>,
    ys: Seq<i64>,
    at: Option<(i64, i64)>,
    w: int,
    h: int,
    dx: int,
    dy: int,
    b: HudBox,
) -> bool {
    &&& spans(xs, b.x0 - dx, b.x1 - dx)
    &&& spans(ys, b.y0 - dy, b.y1 - dy)
    &&& dx == moved(
        b.x0 - dx,
        b.x1 - dx,
        match at {
            Some(p) => Some(p.0 as int),
            None => None,
        },
        w,
    )
    &&& dy == moved(
        b.y0 - dy,
        b.y1 - dy,
        match at {
            Some(p) => Some(p.1 as int),
            None => None,
        },
        h,
    )
}

/// The place that is set for a part.
pub open spec fn place_of(positions: Seq<HudPlace>, key: Seq<char>) -> Option<(i64, i64)>
    decreases positions.len(),
{
    if positions.len() == 0 {
        None
    } else if positions[0].key@ == key {
        Some((positions[0].x, positions[0].y))
    } else {
        place_of(positions.skip(1), key)
    }
}

fn find_place(positions: &[HudPlace], key: &str) -> (at: Option<(i64, i64)>)
    ensures
        at == place_of(positions@, key@),
{
    let mut i: usize = 0;
    assert(positions@.skip(0) =~= positions@);
    while i < positions.len()
        invariant
            i <= positions@.len(),
            place_of(positions@, key@) == place_of(positions@.skip(i as int), key@),
        decreases positions@.len() - i,
    {
        let p: &HudPlace = &positions[i];
        if same_text(p.key.as_str(), key) {
            return Some((p.x, p.y));
        }
        assert(positions@.skip(i as int).skip(1) =~= positions@.skip(i + 1));
        i = i + 1;
    }
    None
}

/// Closes a movable part whose corners lie at the given places: by how much it moves to the place
/// that the player has set for it, a share of the frame for its middle, and the box that it fills
/// then. Nothing for a part that draws nothing, or that has no name and stays where it is.
pub fn finish_element(
    key: &'static str,
    xs: &[i64],
    ys: &[i64],
    positions: &[HudPlace],
    width: u32,
    height: u32,
) -> (r: Option<(i128, i128, HudBox)>)
    requires
        xs@.len() == ys@.len(),
    ensures
        match r {
            Some((dx, dy, b)) => xs@.len() > 0 && key@ != ""@ && b.key@ == key@ && is_placed(
                xs@,
                ys@,
                place_of(positions@, key@),
                width as int,
                height as int,
                dx as int,
                dy as int,
                b,
            ),
            None => xs@.len() == 0 || key@ == ""@,
        },
{
    if xs.len() == 0 || same_text(key, "") {
        return None;
    }
    let at: Option<(i64, i64)> = find_place(positions, key);
    let (x0, x1) = span(xs);
    let (y0, y1) = span(ys);
    let dx: i128 = shift(
        x0,
        x1,
        match at {
            Some(p) => Some(p.0),
            None => None,
        },
        width,
    );
    let dy: i128 = shift(
        y0,
        y1,
        match at {
            Some(p) => Some(p.1),
            None => None,
        },
        height,
    );
    let b: HudBox = HudBox {
        key,
        x0: x0 as i128 + dx,
        y0: y0 as i128 + dy,
        x1: x1 as i128 + dx,
        y1: y1 as i128 + dy,
    };
    Some((dx, dy, b))
}

/// The entries beside the field fan out: one at the middle of the field is level, and two that
/// stand equally far above and below it lean equally far, the opposite ways.
pub proof fn law_entries_fan_out(cfg: SkinConfig, c: Canvas, d: int)
    requires
        short_side(c) > 0,
    ensures
        lean(cfg, c, c.field.cy as int) == 0,
        lean(cfg, c, c.field.cy + d) == -lean(cfg, c, c.field.cy - d),
{
    let a: int = 13 * cfg.panel_angle;
    assert(a * 0 == 0 && a * (0 - d) == -(a * d)) by (nonlinear_arith);
    crate::fixed::lemma_nearest_bound(0, 15 * (short_side(c) * 132_000));
}

/// Both columns end level: with two entries or more in each, their last ones stand at one height.
pub proof fn law_columns_end_level(cfg: SkinConfig, c: Canvas, n: int, m: int)
    requires
        2 <= n,
        2 <= m,
        !c.portrait,
    ensures
        left_slot(cfg, c, n, n - 1).1 == right_slot(cfg, c, m, m - 1).1,
{
    let bottom = c.field.cy - nearest(c.field.half * 79, 100) + short_side(c) * 396_000;
    lemma_whole_quotient(bottom - (c.field.cy - nearest(c.field.half * 60, 100)), n - 1);
    lemma_whole_quotient(bottom - (c.field.cy - nearest(c.field.half * 79, 100)), m - 1);
}

/// The first entry of a column stands at its top.
pub proof fn law_columns_start_at_the_top(cfg: SkinConfig, c: Canvas, n: int)
    requires
        2 <= n,
        !c.portrait,
    ensures
        left_slot(cfg, c, n, 0).1 == c.field.cy - nearest(c.field.half * 60, 100),
        right_slot(cfg, c, n, 0).1 == c.field.cy - nearest(c.field.half * 79, 100),
{
    crate::fixed::lemma_nearest_bound(0, n - 1);
}

/// The two columns stand equally far from the middle of the field, and a lone entry of either at
/// the same height.
pub proof fn law_columns_mirror(cfg: SkinConfig, c: Canvas, n: int, i: int, k: int)
    requires
        !c.portrait,
    ensures
        left_slot(cfg, c, n, i).0 + right_slot(cfg, c, n, k).0 == 2 * c.field.cx,
        left_slot(cfg, c, 1, 0).1 == right_slot(cfg, c, 1, 0).1,
{
}

proof fn lemma_whole_quotient(a: int, d: int)
    requires
        d > 0,
    ensures
        nearest(a * d, d) == a,
{
    let m = magnitude(a);
    assert((2 * (m * d) + d) / (2 * d) == m) by (nonlinear_arith)
        requires
            d > 0,
            m >= 0,
    {
        assert(2 * (m * d) + d == (2 * d) * m + d) by (nonlinear_arith);
        vstd::arithmetic::div_mod::lemma_fundamental_div_mod_converse(
            2 * (m * d) + d,
            2 * d,
            m,
            d,
        );
    }
    assert(magnitude(a * d) == m * d) by (nonlinear_arith)
        requires
            d > 0,
            m == magnitude(a),
    ;
    assert(a >= 0 ==> a * d >= 0) by (nonlinear_arith)
        requires
            d > 0,
    ;
    assert(a < 0 ==> a * d < 0) by (nonlinear_arith)
        requires
            d > 0,
    ;
}

/// Bars are empty at nothing and full at the whole, and grow evenly in between.
proof fn lemma_bars_fill_evenly(half: int, part: int, more: int)
    requires
        half >= 0,
        0 <= part <= more <= 1_000_000,
    ensures
        nearest(2 * half * 0, 1_000_000) == 0,
        nearest(2 * half * 1_000_000, 1_000_000) == 2 * half,
        0 <= nearest(2 * half * part, 1_000_000) <= nearest(2 * half * more, 1_000_000) <= 2 * half,
{
    let l = 2 * half;
    assert(0 <= l * part <= l * more <= l * 1_000_000) by (nonlinear_arith)
        requires
            l >= 0,
            0 <= part <= more <= 1_000_000,
    ;
    law_rounding_is_monotone(0, l * part, 1_000_000);
    law_rounding_is_monotone(l * part, l * more, 1_000_000);
    law_rounding_is_monotone(l * more, l * 1_000_000, 1_000_000);
    law_rounding_keeps_whole_numbers(0, 0, 1_000_000);
    law_rounding_keeps_whole_numbers(l, 0, 1_000_000);
    assert(l * 0 == 0) by (nonlinear_arith);
}

/// The health bar lies below the field and as wide as it, and is filled as far as health is left:
/// not at all where there is none, wholly at full health.
pub proof fn law_the_health_bar_shows_health(cfg: SkinConfig, stats: HudStats, c: Canvas)
    requires
        cfg.hud.health_bar,
        0 <= c.field.half <= 1_000_000_000_000_000,
        magnitude(c.field.cx as int) <= 1_000_000_000_000_000,
        magnitude(c.field.cy as int) <= 1_000_000_000_000_000,
    ensures
        ({
            let part = health_part(cfg, stats, c)[0];
            let f = c.field;
            part.ops[0].0 matches Shape::Rect { x, y, w, .. } && part.ops[1].0 matches Shape::Rect {
                x: u,
                y: v,
                w: filled,
                ..
            } && {
                &&& x == f.cx - f.half && u == x && v == y && w == 2 * f.half
                &&& y >= f.cy + f.half
                &&& 0 <= filled <= w
                &&& stats.health <= 0 ==> filled == 0
                &&& stats.health >= 1_000_000 ==> filled == w
                &&& 0 <= stats.health <= 1_000_000 ==> 2 * magnitude(
                    1_000_000 * filled - w * stats.health,
                ) <= 1_000_000
            }
        }),
{
    let h = within(stats.health as int, 0, 1_000_000);
    lemma_bars_fill_evenly(c.field.half as int, h, h);
    law_rounding_is_closest(2 * c.field.half * h, 1_000_000);
}

/// The song bar lies above the field and is filled as far as the song has come, empty at its start
/// and full at its end, which is the longer of the run and the map.
pub proof fn law_the_song_bar_shows_the_song(
    cfg: SkinConfig,
    c: Canvas,
    replay: Replay,
    map: Beatmap,
    t: int,
)
    requires
        cfg.hud.song_progress_bar,
        0 <= c.field.half <= 1_000_000_000_000_000,
        magnitude(c.field.cx as int) <= 1_000_000_000_000_000,
        magnitude(c.field.cy as int) <= 1_000_000_000_000_000,
    ensures
        ({
            let part = progress_part(cfg, c, replay, map, t)[0];
            let f = c.field;
            part.ops[0].0 matches Shape::Rect { x, y, w, .. } && part.ops[1].0 matches Shape::Rect {
                x: u,
                y: v,
                w: filled,
                ..
            } && {
                &&& x == f.cx - f.half && u == x && v == y && w == 2 * f.half
                &&& y <= f.cy - f.half
                &&& 0 <= filled <= w
                &&& t <= 0 ==> filled == 0
                &&& t >= song_length(replay, map) ==> filled == w
            }
        }),
        song_length(replay, map) >= replay.length_ms,
        song_length(replay, map) >= map.meta.duration_ms * 1_000_000,
        song_length(replay, map) >= 1_000_000,
{
    let length = song_length(replay, map);
    let raw = nearest(t * 1_000_000, length);
    let part = within(raw, 0, 1_000_000);
    lemma_bars_fill_evenly(c.field.half as int, part, part);
    law_rounding_keeps_whole_numbers(0, 0, length);
    law_rounding_keeps_whole_numbers(1_000_000, 0, length);
    if t <= 0 {
        law_rounding_is_monotone(t * 1_000_000, 0, length);
    }
    if t >= length {
        law_rounding_is_monotone(length * 1_000_000, t * 1_000_000, length);
    }
}

/// The edges darken as health is lost: not at full health, most where there is none, and never less
/// with less of it.
pub proof fn law_low_health_darkens(cfg: SkinConfig, health: int, less: int)
    requires
        cfg.fail_vignette_opacity >= 0,
        less <= health,
    ensures
        health >= 1_000_000 ==> vignette_alpha(cfg, health) == 0,
        health <= 0 ==> vignette_alpha(cfg, health) == cfg.fail_vignette_opacity,
        0 <= vignette_alpha(cfg, health) <= vignette_alpha(cfg, less) <= cfg.fail_vignette_opacity,
{
    let o = cfg.fail_vignette_opacity as int;
    let (a, b) = (
        1_000_000 - within(health, 0, 1_000_000),
        1_000_000 - within(less, 0, 1_000_000),
    );
    assert(0 <= a * a <= b * b <= 1_000_000 * 1_000_000) by (nonlinear_arith)
        requires
            0 <= a <= b <= 1_000_000,
    ;
    law_rounding_keeps_whole_numbers(0, 0, 1_000_000);
    law_rounding_keeps_whole_numbers(1_000_000, 0, 1_000_000);
    law_rounding_keeps_whole_numbers(o, 0, 1_000_000);
    law_rounding_is_monotone(0, a * a, 1_000_000);
    law_rounding_is_monotone(a * a, b * b, 1_000_000);
    law_rounding_is_monotone(b * b, 1_000_000_000_000, 1_000_000);
    let (u, v) = (nearest(a * a, 1_000_000), nearest(b * b, 1_000_000));
    if a == 0 {
        assert(a * a == 0) by (nonlinear_arith)
            requires
                a == 0,
        ;
        assert(o * u == 0) by (nonlinear_arith)
            requires
                u == 0,
        ;
    }
    assert(0 <= o * u <= o * v <= 1_000_000 * o) by (nonlinear_arith)
        requires
            o >= 0,
            0 <= u <= v <= 1_000_000,
    ;
    law_rounding_is_monotone(0, o * u, 1_000_000);
    law_rounding_is_monotone(o * u, o * v, 1_000_000);
    law_rounding_is_monotone(o * v, 1_000_000 * o, 1_000_000);
    assert(o * 0 == 0) by (nonlinear_arith);
    assert(o * 1_000_000 == 1_000_000 * o) by (nonlinear_arith);
}

/// A miss mark comes up within a tenth of a second and goes within the fifth of a second before the
/// half second is over.
pub proof fn law_miss_marks_come_and_go(age: int)
    ensures
        mark_in(0) == 0,
        age >= 100_000_000 ==> mark_in(age) == 1_000_000,
        age <= 300_000_000 ==> mark_out(age) == 1_000_000,
        age >= 500_000_000 ==> mark_out(age) == 0,
        0 <= mark_in(age) <= 1_000_000,
        0 <= mark_out(age) <= 1_000_000,
{
    law_rounding_keeps_whole_numbers(0, 0, 100);
    law_rounding_keeps_whole_numbers(1_000_000, 0, 100);
    law_rounding_keeps_whole_numbers(0, 0, 200);
    law_rounding_keeps_whole_numbers(1_000_000, 0, 200);
    if age >= 100_000_000 {
        law_rounding_is_monotone(100_000_000, age, 100);
    }
    if age <= 300_000_000 {
        law_rounding_is_monotone(age - 300_000_000, 0, 200);
    }
    if age >= 500_000_000 {
        law_rounding_is_monotone(200_000_000, age - 300_000_000, 200);
    }
}

/// In portrait the numbers of a row stand around the middle of the screen, one like the other, a
/// row below the field and one above it; in columns they follow each other evenly.
pub proof fn law_rows_are_centred(cfg: SkinConfig, c: Canvas, n: int, i: int)
    requires
        0 <= i < n,
    ensures
        row_x(c, n, i) + row_x(c, n, n - 1 - i) == c.width * 1_000_000,
        i + 1 < n ==> row_x(c, n, i + 1) - row_x(c, n, i) == c.width * 220_000,
        c.portrait ==> left_slot(cfg, c, n, i).0 == right_slot(cfg, c, n, i).0,
        c.portrait ==> left_slot(cfg, c, n, i).1 + right_slot(cfg, c, n, i).1 == 2 * c.field.cy,
        c.portrait && c.field.half >= 0 ==> left_slot(cfg, c, n, i).1 >= c.field.cy,
{
    let w = c.width * 110_000;
    assert((2 * i - (n - 1)) * w + (2 * (n - 1 - i) - (n - 1)) * w == 0) by (nonlinear_arith);
    assert((2 * (i + 1) - (n - 1)) * w - (2 * i - (n - 1)) * w == 2 * w) by (nonlinear_arith);
    let s = short_side(c);
    assert(s >= 0);
}

/// The ring's fill lies between nothing and full, comes to rest at its eighths 150 ms after a hit,
/// and runs empty within 250 ms of a miss.
pub proof fn law_rings_fill_by_eighths(stats: HudStats)
    requires
        stats.ring_progress <= 8,
        stats.ring_fill_at_miss <= 8,
    ensures
        stats.ring_sides >= 8 ==> ring_fill(stats) == 1_000_000,
        stats.ring_sides < 8 && stats.combo > 0 && (stats.ms_since_hit is None
            || stats.ms_since_hit->0 >= 150_000_000) ==> ring_fill(stats) == stats.ring_progress
            * 125_000,
        stats.ring_sides < 8 && stats.combo == 0 && stats.ms_since_miss == Some(0u128)
            ==> ring_fill(stats) == stats.ring_fill_at_miss * 125_000,
{
    let prev = if stats.combo == 0 || new_shape(stats.combo) {
        0
    } else {
        (stats.combo - 1) % 8
    };
    let k = (stats.ring_progress - prev) * 125_000;
    law_rounding_keeps_whole_numbers(k, 0, 150_000_000);
    assert(k * 150_000_000 == 150_000_000 * k) by (nonlinear_arith);
    let m = stats.ring_fill_at_miss * 125_000;
    law_rounding_keeps_whole_numbers(m, 0, 250_000_000);
    assert(m * 250_000_000 == 250_000_000 * m) by (nonlinear_arith);
}

/// A filled ring has all its edges, an empty one none, and the whole edges and the part of one make
/// up the fill.
pub proof fn law_edges_make_the_fill(sides: int, fill: int)
    requires
        sides >= 0,
    ensures
        ({
            let (whole, part) = filled_edges(sides, fill);
            &&& 0 <= whole <= sides
            &&& fill <= 0 ==> whole == 0 && part is None
            &&& fill >= 1_000_000 ==> whole == sides && part is None
            &&& part matches Some(p) ==> 1_000 < p < 1_000_000 && whole < sides
            &&& 0 <= fill <= 1_000_000 ==> 0 <= fill * sides - 1_000_000 * whole - (if part is Some {
                part->0
            } else {
                0
            }) <= 1_000
        }),
{
    let f = within(fill, 0, 1_000_000);
    let e = f * sides;
    assert(0 <= e <= 1_000_000 * sides) by (nonlinear_arith)
        requires
            e == f * sides,
            0 <= f <= 1_000_000,
            sides >= 0,
    ;
    assert(fill <= 0 ==> e == 0) by (nonlinear_arith)
        requires
            e == f * sides,
            fill <= 0 ==> f == 0,
    ;
    assert(fill >= 1_000_000 ==> e == 1_000_000 * sides) by (nonlinear_arith)
        requires
            e == f * sides,
            fill >= 1_000_000 ==> f == 1_000_000,
    ;
    let whole = e / 1_000_000;
    if whole == sides {
        assert(e % 1_000_000 == 0);
    }
}

/// An element that is put somewhere has its middle there, as a share of the screen from the left and
/// from the top; one that is not stays where it is.
pub proof fn law_placed_elements_are_centred(
    xs: Seq<i64>,
    ys: Seq<i64>,
    at: Option<(i64, i64)>,
    w: int,
    h: int,
    dx: int,
    dy: int,
    b: HudBox,
)
    requires
        is_placed(xs, ys, at, w, h, dx, dy, b),
    ensures
        at matches Some(p) ==> {
            &&& magnitude(b.x0 + b.x1 - 2 * (p.0 * w)) <= 1
            &&& magnitude(b.y0 + b.y1 - 2 * (p.1 * h)) <= 1
        },
        at is None ==> dx == 0 && dy == 0,
{
    law_rounding_is_closest(b.x0 - dx + b.x1 - dx, 2);
    law_rounding_is_closest(b.y0 - dy + b.y1 - dy, 2);
}

/// The combo in the field stands as far down as it is set to: at the top edge for nothing, at the
/// bottom edge for 100 percent, and always in the middle across.
pub proof fn law_the_combo_stands_as_far_down_as_set(cfg: SkinConfig, stats: HudStats, c: Canvas)
    requires
        cfg.hud.playfield_combo_text,
        stats.combo > 0,
        can_lay_out(cfg, c),
    ensures
        ({
            let part = combo_part(cfg, stats, c)[0];
            let f = c.field;
            part.ops[0].0 matches Shape::Text { x, y, px, .. } && {
                &&& x == f.cx
                &&& part.ops[0].1 == decimal(stats.combo as nat)
                &&& cfg.hud.combo_text_vpos_pct == 0 ==> y == f.cy - f.half + nearest(px * 35, 100)
                &&& cfg.hud.combo_text_vpos_pct == 100_000_000 ==> y == f.cy + f.half + nearest(
                    px * 35,
                    100,
                )
            }
        }),
{
    let f = c.field;
    let s = short_side(c);
    let n = cfg.hud.combo_text_font_size * (44 * s);
    assert(magnitude(n) <= 1_000_000_000_000 * 200_000_000_000) by (nonlinear_arith)
        requires
            n == cfg.hud.combo_text_font_size * (44 * s),
            magnitude(cfg.hud.combo_text_font_size as int) <= 1_000_000_000_000,
            0 <= s <= 0xffff_ffff,
    ;
    let px = nearest(n, 144_000);
    crate::fixed::lemma_nearest_bound(n, 144_000);
    crate::fixed::lemma_nearest_bound(px * 35, 100);
    let l = 2 * f.half;
    law_rounding_keeps_whole_numbers(0, 0, 100_000_000);
    law_rounding_keeps_whole_numbers(l, 0, 100_000_000);
    assert(l * 0 == 0 && l * 100_000_000 == 100_000_000 * l) by (nonlinear_arith);
}

} // verus!
