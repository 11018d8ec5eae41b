//! The score card: a still of one run to share, in several aspect ratios.

use vstd::prelude::*;

use crate::config::SkinConfig;
use crate::drawing::{
    drawn, fit_text, fitted_at, paint, words_at, write_text, Align, Op, Paint, Shape,
};
use crate::fixed::{div_nearest, magnitude, nearest};
use crate::hud::HudStats;
use crate::replay::{Beatmap, Replay};
use crate::results::{mapper_op, push_mappers, verdant};
use crate::words::{
    card_cells, card_table, difficulty_of, difficulty_words, grade_color, grade_letters,
    percent_of, percent_words, rows_view, thousands, thousands_of, verdict_ink, verdict_letters,
    Row,
};

verus! {

/// The layout of a card.
#[derive(Debug, Clone, Copy, PartialEq, Eq, Structural)]
pub enum CardShape {
    /// The cover on the left, the text beside it.
    Wide,
    /// A small cover with the title beside it, everything else below.
    Square,
    /// Everything stacked in the middle.
    Tall,
}

/// The layout of a card of a size: wide above 1.4, tall below 0.8.
pub open spec fn shape_of(w: int, h: int) -> CardShape {
    if 10 * w > 14 * h {
        CardShape::Wide
    } else if 10 * w >= 8 * h {
        CardShape::Square
    } else {
        CardShape::Tall
    }
}

/// The layout of a card of a size.
pub fn card_shape(width: u32, height: u32) -> (s: CardShape)
    ensures
        s == shape_of(width as int, height as int),
{
    let w: u64 = width as u64;
    let h: u64 = height as u64;
    if 10 * w > 14 * h {
        CardShape::Wide
    } else if 10 * w >= 8 * h {
        CardShape::Square
    } else {
        CardShape::Tall
    }
}

/// Where the cover stands: left, top and side.
pub open spec fn cover_place(w: int, h: int) -> (int, int, int) {
    match shape_of(w, h) {
        CardShape::Wide => (w * 33_000, h * 75_000, h * 350_000),
        CardShape::Square => (w * 50_000, h * 50_000, h * 240_000),
        CardShape::Tall => (w * 290_000, h * 45_000, w * 420_000),
    }
}

/// Where the cover stands: left, top and side, in millionths of a pixel.
pub fn card_cover_rect(width: u32, height: u32) -> (r: (i128, i128, i128))
    ensures
        (r.0 as int, r.1 as int, r.2 as int) == cover_place(width as int, height as int),
{
    let w: i128 = width as i128;
    let h: i128 = height as i128;
    match card_shape(width, height) {
        CardShape::Wide => (w * 33_000, h * 75_000, h * 350_000),
        CardShape::Square => (w * 50_000, h * 50_000, h * 240_000),
        CardShape::Tall => (w * 290_000, h * 45_000, w * 420_000),
    }
}

/// The paints of a card.
pub open spec fn card_ink(cfg: SkinConfig) -> Paint {
    Paint { color: cfg.interface_text_color, alpha: 1_000_000 }
}

/// The paint of what matters less on a card.
pub open spec fn card_muted(cfg: SkinConfig) -> Paint {
    Paint { color: cfg.interface_text_color, alpha: 550_000 }
}

/// The paint of the grade.
pub open spec fn card_verdict(replay: Replay, stats: HudStats) -> Paint {
    Paint { color: verdict_ink(replay.failed, stats.grade), alpha: 1_000_000 }
}

/// The head of a wide card.
pub open spec fn wide_head(
    replay: Replay,
    map: Beatmap,
    stats: HudStats,
    cfg: SkinConfig,
    w: int,
    h: int,
) -> Seq<(Shape, Seq<char>)> {
    let x = w * 250_000;
    seq![
        fitted_at(
            map.meta.song_name@,
            x,
            h * 155_000,
            h * 73_000,
            Align::Left,
            card_ink(cfg),
            w * 530_000,
        ),
        words_at(
            "< "@ + difficulty_of(map.meta) + " >"@,
            x,
            h * 235_000,
            h * 45_000,
            Align::Left,
            verdant(),
        ),
    ] + mapper_op(map, x, h * 300_000, h * 38_000, Align::Left, card_muted(cfg)) + seq![
        words_at(replay.player_name@, x, h * 400_000, h * 55_000, Align::Left, card_ink(cfg)),
        words_at(
            verdict_letters(replay.failed, stats.grade),
            w * 900_000,
            h * 330_000,
            h * 270_000,
            Align::Center,
            card_verdict(replay, stats),
        ),
        words_at(
            "ACCURACY"@,
            w * 60_000,
            h * 600_000,
            h * 34_000,
            Align::Left,
            card_muted(cfg),
        ),
        words_at(
            percent_of(stats.accuracy_pct as int),
            w * 60_000,
            h * 725_000,
            h * 115_000,
            Align::Left,
            card_ink(cfg),
        ),
        words_at("SCORE"@, w * 520_000, h * 600_000, h * 34_000, Align::Left, card_muted(cfg)),
        words_at(
            thousands_of(stats.score as int),
            w * 520_000,
            h * 725_000,
            h * 115_000,
            Align::Left,
            card_ink(cfg),
        ),
    ]
}

/// The two headline numbers of a card that has them side by side.
pub open spec fn headline(
    stats: HudStats,
    cfg: SkinConfig,
    w: int,
    label_y: int,
    value_y: int,
    px: int,
) -> Seq<(Shape, Seq<char>)> {
    seq![
        words_at("ACCURACY"@, w * 280_000, label_y, w * 26_000, Align::Center, card_muted(cfg)),
        words_at("SCORE"@, w * 720_000, label_y, w * 26_000, Align::Center, card_muted(cfg)),
        words_at(
            percent_of(stats.accuracy_pct as int),
            w * 280_000,
            value_y,
            px,
            Align::Center,
            card_ink(cfg),
        ),
        words_at(
            thousands_of(stats.score as int),
            w * 720_000,
            value_y,
            px,
            Align::Center,
            card_ink(cfg),
        ),
    ]
}

/// The head of a square card.
pub open spec fn square_head(
    replay: Replay,
    map: Beatmap,
    stats: HudStats,
    cfg: SkinConfig,
    w: int,
    h: int,
) -> Seq<(Shape, Seq<char>)> {
    let x = w * 100_000 + h * 240_000;
    seq![
        fitted_at(
            map.meta.song_name@,
            x,
            h * 115_000,
            w * 45_000,
            Align::Left,
            card_ink(cfg),
            w * 950_000 - x,
        ),
        words_at(
            "< "@ + difficulty_of(map.meta) + " >"@,
            x,
            h * 175_000,
            w * 32_000,
            Align::Left,
            verdant(),
        ),
    ] + mapper_op(map, x, h * 225_000, w * 27_000, Align::Left, card_muted(cfg)) + seq![
        words_at(replay.player_name@, x, h * 290_000, w * 38_000, Align::Left, card_ink(cfg)),
        words_at(
            verdict_letters(replay.failed, stats.grade),
            w * 500_000,
            h * 545_000,
            w * 200_000,
            Align::Center,
            card_verdict(replay, stats),
        ),
    ] + headline(stats, cfg, w, h * 655_000, h * 735_000, w * 62_000)
}

/// How far down the last line of a tall card's title stands.
pub open spec fn tall_title_end(map: Beatmap, w: int, h: int) -> int {
    h * 45_000 + w * 575_000 + if map.meta.mappers@.len() > 0 {
        w * 45_000
    } else {
        0
    }
}

/// The head of a tall card.
pub open spec fn tall_head(
    replay: Replay,
    map: Beatmap,
    stats: HudStats,
    cfg: SkinConfig,
    w: int,
    h: int,
) -> Seq<(Shape, Seq<char>)> {
    let x = w * 500_000;
    let y = tall_title_end(map, w, h);
    seq![
        fitted_at(
            map.meta.song_name@,
            x,
            h * 45_000 + w * 520_000,
            w * 62_000,
            Align::Center,
            card_ink(cfg),
            w * 900_000,
        ),
        words_at(
            "< "@ + difficulty_of(map.meta) + " >"@,
            x,
            h * 45_000 + w * 575_000,
            w * 36_000,
            Align::Center,
            verdant(),
        ),
    ] + mapper_op(map, x, y, w * 30_000, Align::Center, card_muted(cfg)) + seq![
        words_at(
            replay.player_name@,
            x,
            y + w * 75_000,
            w * 45_000,
            Align::Center,
            card_ink(cfg),
        ),
        words_at(
            verdict_letters(replay.failed, stats.grade),
            x,
            y + w * 375_000,
            w * 220_000,
            Align::Center,
            card_verdict(replay, stats),
        ),
    ] + headline(stats, cfg, w, y + w * 545_000, y + w * 620_000, w * 68_000)
}

/// The head of a card.
pub open spec fn head_ops(
    replay: Replay,
    map: Beatmap,
    stats: HudStats,
    cfg: SkinConfig,
    w: int,
    h: int,
) -> Seq<(Shape, Seq<char>)> {
    match shape_of(w, h) {
        CardShape::Wide => wide_head(replay, map, stats, cfg, w, h),
        CardShape::Square => square_head(replay, map, stats, cfg, w, h),
        CardShape::Tall => tall_head(replay, map, stats, cfg, w, h),
    }
}

/// Where small number `i` of `n` stands, and how large it is.
pub struct CellPlace {
    pub x: i128,
    pub label_y: i128,
    pub label_px: i128,
    pub value_y: i128,
    pub value_px: i128,
    pub align: Align,
}

/// Where small number `i` of `n` stands: spread over a wide card, in a row on a square one, two
/// by two on a tall one where there are four.
pub open spec fn cell_place(map: Beatmap, w: int, h: int, n: int, i: int) -> CellPlace {
    match shape_of(w, h) {
        CardShape::Wide => CellPlace {
            x: (w * 60_000 + nearest(w * 740_000 * i, if n > 2 {
                n - 1
            } else {
                1
            })) as i128,
            label_y: (h * 845_000) as i128,
            label_px: (h * 30_000) as i128,
            value_y: (h * 935_000) as i128,
            value_px: (h * 62_000) as i128,
            align: Align::Left,
        },
        CardShape::Square => CellPlace {
            x: (w * 500_000 + (2 * i - (n - 1)) * (w * 130_000)) as i128,
            label_y: (h * 845_000) as i128,
            label_px: (w * 22_000) as i128,
            value_y: (h * 905_000) as i128,
            value_px: (w * 44_000) as i128,
            align: Align::Center,
        },
        CardShape::Tall => {
            let y = tall_title_end(map, w, h) + w * 735_000 + if n == 4 && i >= 2 {
                w * 155_000
            } else {
                0
            };
            CellPlace {
                x: if n == 4 {
                    if i % 2 == 0 {
                        (w * 280_000) as i128
                    } else {
                        (w * 720_000) as i128
                    }
                } else {
                    (w * 500_000 + (2 * i - (n - 1)) * (w * 140_000)) as i128
                },
                label_y: y as i128,
                label_px: (w * 24_000) as i128,
                value_y: (y + w * 62_000) as i128,
                value_px: (w * 48_000) as i128,
                align: Align::Center,
            }
        },
    }
}

/// A small number: its label and its value.
pub open spec fn cell_ops(row: (Seq<char>, Seq<char>), p: CellPlace, cfg: SkinConfig) -> Seq<
    (Shape, Seq<char>),
> {
    seq![
        words_at(
            row.0,
            p.x as int,
            p.label_y as int,
            p.label_px as int,
            p.align,
            card_muted(cfg),
        ),
        words_at(
            row.1,
            p.x as int,
            p.value_y as int,
            p.value_px as int,
            p.align,
            card_ink(cfg),
        ),
    ]
}

/// The first `n` small numbers.
pub open spec fn cells_ops(
    rows: Seq<(Seq<char>, Seq<char>)>,
    map: Beatmap,
    cfg: SkinConfig,
    w: int,
    h: int,
    n: int,
) -> Seq<(Shape, Seq<char>)>
    decreases n,
{
    if n <= 0 {
        Seq::empty()
    } else {
        cells_ops(rows, map, cfg, w, h, n - 1) + cell_ops(
            rows[n - 1],
            cell_place(map, w, h, rows.len() as int, n - 1),
            cfg,
        )
    }
}

/// The name in the corner.
pub open spec fn mark_op(cfg: SkinConfig, w: int, h: int) -> (Shape, Seq<char>) {
    match shape_of(w, h) {
        CardShape::Wide => words_at(
            "rhythr"@,
            w * 985_000,
            h * 90_000,
            h * 28_000,
            Align::Right,
            card_muted(cfg),
        ),
        CardShape::Square => words_at(
            "rhythr"@,
            w * 970_000,
            h * 970_000,
            w * 24_000,
            Align::Right,
            card_muted(cfg),
        ),
        CardShape::Tall => words_at(
            "rhythr"@,
            w * 970_000,
            h * 1_000_000 - w * 30_000,
            w * 24_000,
            Align::Right,
            card_muted(cfg),
        ),
    }
}

/// The score card.
pub open spec fn card_ops(
    replay: Replay,
    map: Beatmap,
    stats: HudStats,
    cfg: SkinConfig,
    w: int,
    h: int,
) -> Seq<(Shape, Seq<char>)> {
    let rows = card_table(replay, stats);
    (head_ops(replay, map, stats, cfg, w, h) + cells_ops(
        rows,
        map,
        cfg,
        w,
        h,
        rows.len() as int,
    )).push(mark_op(cfg, w, h))
}

fn ink(cfg: &SkinConfig) -> (p: Paint)
    ensures
        p == card_ink(*cfg),
{
    Paint { color: cfg.interface_text_color, alpha: 1_000_000 }
}

fn muted(cfg: &SkinConfig) -> (p: Paint)
    ensures
        p == card_muted(*cfg),
{
    Paint { color: cfg.interface_text_color, alpha: 550_000 }
}

fn green() -> (p: Paint)
    ensures
        p == verdant(),
{
    paint(60, 220, 90, 1_000_000)
}

fn verdict(replay: &Replay, stats: &HudStats) -> (p: Paint)
    ensures
        p == card_verdict(*replay, *stats),
{
    Paint { color: grade_color(replay.failed, stats.grade), alpha: 1_000_000 }
}

fn push_headline(
    ops: &mut Vec<Op>,
    stats: &HudStats,
    cfg: &SkinConfig,
    width: u32,
    label_y: i128,
    value_y: i128,
    px: i128,
)
    requires
        stats.score > i64::MIN,
    ensures
        drawn(final(ops)@) == drawn(old(ops)@) + headline(
            *stats,
            *cfg,
            width as int,
            label_y as int,
            value_y as int,
            px as int,
        ),
{
    let w: i128 = width as i128;
    write_text(
        ops,
        "ACCURACY".to_owned(),
        w * 280_000,
        label_y,
        w * 26_000,
        Align::Center,
        muted(cfg),
    );
    write_text(
        ops,
        "SCORE".to_owned(),
        w * 720_000,
        label_y,
        w * 26_000,
        Align::Center,
        muted(cfg),
    );
    write_text(
        ops,
        percent_words(stats.accuracy_pct),
        w * 280_000,
        value_y,
        px,
        Align::Center,
        ink(cfg),
    );
    write_text(
        ops,
        thousands(stats.score),
        w * 720_000,
        value_y,
        px,
        Align::Center,
        ink(cfg),
    );
    assert(drawn(ops@) =~= drawn(old(ops)@) + headline(
        *stats,
        *cfg,
        width as int,
        label_y as int,
        value_y as int,
        px as int,
    ));
}

fn push_wide(
    ops: &mut Vec<Op>,
    replay: &Replay,
    map: &Beatmap,
    stats: &HudStats,
    cfg: &SkinConfig,
    width: u32,
    height: u32,
)
    requires
        stats.score > i64::MIN,
    ensures
        drawn(final(ops)@) == drawn(old(ops)@) + wide_head(
            *replay,
            *map,
            *stats,
            *cfg,
            width as int,
            height as int,
        ),
{
    let w: i128 = width as i128;
    let h: i128 = height as i128;
    let x: i128 = w * 250_000;
    let title: String = map.meta.song_name.as_str().to_owned();
    fit_text(ops, title, x, h * 155_000, h * 73_000, Align::Left, ink(cfg), w * 530_000);
    write_text(ops, difficulty_words(&map.meta), x, h * 235_000, h * 45_000, Align::Left, green());
    push_mappers(ops, map, x, h * 300_000, h * 38_000, Align::Left, muted(cfg));
    let player: String = replay.player_name.as_str().to_owned();
    write_text(ops, player, x, h * 400_000, h * 55_000, Align::Left, ink(cfg));
    let letters: String = grade_letters(replay.failed, stats.grade).to_owned();
    write_text(
        ops,
        letters,
        w * 900_000,
        h * 330_000,
        h * 270_000,
        Align::Center,
        verdict(replay, stats),
    );
    let left: i128 = w * 60_000;
    let right: i128 = w * 520_000;
    let label: String = "ACCURACY".to_owned();
    write_text(ops, label, left, h * 600_000, h * 34_000, Align::Left, muted(cfg));
    let value: String = percent_words(stats.accuracy_pct);
    write_text(ops, value, left, h * 725_000, h * 115_000, Align::Left, ink(cfg));
    let label: String = "SCORE".to_owned();
    write_text(ops, label, right, h * 600_000, h * 34_000, Align::Left, muted(cfg));
    let value: String = thousands(stats.score);
    write_text(ops, value, right, h * 725_000, h * 115_000, Align::Left, ink(cfg));
    assert(drawn(ops@) =~= drawn(old(ops)@) + wide_head(
        *replay,
        *map,
        *stats,
        *cfg,
        width as int,
        height as int,
    ));
}

fn push_square(
    ops: &mut Vec<Op>,
    replay: &Replay,
    map: &Beatmap,
    stats: &HudStats,
    cfg: &SkinConfig,
    width: u32,
    height: u32,
)
    requires
        stats.score > i64::MIN,
    ensures
        drawn(final(ops)@) == drawn(old(ops)@) + square_head(
            *replay,
            *map,
            *stats,
            *cfg,
            width as int,
            height as int,
        ),
{
    let w: i128 = width as i128;
    let h: i128 = height as i128;
    let x: i128 = w * 100_000 + h * 240_000;
    let title: String = map.meta.song_name.as_str().to_owned();
    fit_text(ops, title, x, h * 115_000, w * 45_000, Align::Left, ink(cfg), w * 950_000 - x);
    write_text(ops, difficulty_words(&map.meta), x, h * 175_000, w * 32_000, Align::Left, green());
    push_mappers(ops, map, x, h * 225_000, w * 27_000, Align::Left, muted(cfg));
    let player: String = replay.player_name.as_str().to_owned();
    write_text(ops, player, x, h * 290_000, w * 38_000, Align::Left, ink(cfg));
    let letters: String = grade_letters(replay.failed, stats.grade).to_owned();
    write_text(
        ops,
        letters,
        w * 500_000,
        h * 545_000,
        w * 200_000,
        Align::Center,
        verdict(replay, stats),
    );
    push_headline(ops, stats, cfg, width, h * 655_000, h * 735_000, w * 62_000);
    assert(drawn(ops@) =~= drawn(old(ops)@) + square_head(
        *replay,
        *map,
        *stats,
        *cfg,
        width as int,
        height as int,
    ));
}

fn title_end(map: &Beatmap, width: u32, height: u32) -> (y: i128)
    ensures
        y == tall_title_end(*map, width as int, height as int),
        0 <= y <= 10_000_000_000_000_000,
{
    let w: i128 = width as i128;
    let y: i128 = height as i128 * 45_000 + w * 575_000;
    if map.meta.mappers.len() > 0 {
        y + w * 45_000
    } else {
        y
    }
}

fn push_tall(
    ops: &mut Vec<Op>,
    replay: &Replay,
    map: &Beatmap,
    stats: &HudStats,
    cfg: &SkinConfig,
    width: u32,
    height: u32,
)
    requires
        stats.score > i64::MIN,
    ensures
        drawn(final(ops)@) == drawn(old(ops)@) + tall_head(
            *replay,
            *map,
            *stats,
            *cfg,
            width as int,
            height as int,
        ),
{
    let w: i128 = width as i128;
    let h: i128 = height as i128;
    let x: i128 = w * 500_000;
    let y: i128 = title_end(map, width, height);
    let title: String = map.meta.song_name.as_str().to_owned();
    fit_text(
        ops,
        title,
        x,
        h * 45_000 + w * 520_000,
        w * 62_000,
        Align::Center,
        ink(cfg),
        w * 900_000,
    );
    write_text(
        ops,
        difficulty_words(&map.meta),
        x,
        h * 45_000 + w * 575_000,
        w * 36_000,
        Align::Center,
        green(),
    );
    push_mappers(ops, map, x, y, w * 30_000, Align::Center, muted(cfg));
    let player: String = replay.player_name.as_str().to_owned();
    write_text(ops, player, x, y + w * 75_000, w * 45_000, Align::Center, ink(cfg));
    let letters: String = grade_letters(replay.failed, stats.grade).to_owned();
    write_text(
        ops,
        letters,
        x,
        y + w * 375_000,
        w * 220_000,
        Align::Center,
        verdict(replay, stats),
    );
    push_headline(ops, stats, cfg, width, y + w * 545_000, y + w * 620_000, w * 68_000);
    assert(drawn(ops@) =~= drawn(old(ops)@) + tall_head(
        *replay,
        *map,
        *stats,
        *cfg,
        width as int,
        height as int,
    ));
}

fn place_of_cell(map: &Beatmap, width: u32, height: u32, n: u8, i: u8) -> (p: CellPlace)
    requires
        i < n <= 4,
    ensures
        p == cell_place(*map, width as int, height as int, n as int, i as int),
{
    let w: i128 = width as i128;
    let h: i128 = height as i128;
    let k: i128 = 2 * i as i128 - (n as i128 - 1);
    assert(-4 * (w * 140_000) <= k * (w * 140_000) <= 8 * (w * 140_000)) by (nonlinear_arith)
        requires
            -4 <= k <= 8,
            0 <= w,
    ;
    assert(-4 * (w * 130_000) <= k * (w * 130_000) <= 8 * (w * 130_000)) by (nonlinear_arith)
        requires
            -4 <= k <= 8,
            0 <= w,
    ;
    assert(0 <= w * 740_000 * i <= 4 * (w * 740_000)) by (nonlinear_arith)
        requires
            0 <= i <= 4,
            0 <= w,
    ;
    match card_shape(width, height) {
        CardShape::Wide => {
            let gaps: i128 = if n > 2 {
                n as i128 - 1
            } else {
                1
            };
            CellPlace {
                x: w * 60_000 + div_nearest(w * 740_000 * i as i128, gaps),
                label_y: h * 845_000,
                label_px: h * 30_000,
                value_y: h * 935_000,
                value_px: h * 62_000,
                align: Align::Left,
            }
        },
        CardShape::Square => CellPlace {
            x: w * 500_000 + k * (w * 130_000),
            label_y: h * 845_000,
            label_px: w * 22_000,
            value_y: h * 905_000,
            value_px: w * 44_000,
            align: Align::Center,
        },
        CardShape::Tall => {
            let top: i128 = title_end(map, width, height) + w * 735_000;
            let y: i128 = if n == 4 && i >= 2 {
                top + w * 155_000
            } else {
                top
            };
            let x: i128 = if n == 4 {
                if i % 2 == 0 {
                    w * 280_000
                } else {
                    w * 720_000
                }
            } else {
                w * 500_000 + k * (w * 140_000)
            };
            CellPlace {
                x,
                label_y: y,
                label_px: w * 24_000,
                value_y: y + w * 62_000,
                value_px: w * 48_000,
                align: Align::Center,
            }
        },
    }
}

fn push_cells(
    ops: &mut Vec<Op>,
    replay: &Replay,
    map: &Beatmap,
    stats: &HudStats,
    cfg: &SkinConfig,
    width: u32,
    height: u32,
)
    ensures
        drawn(final(ops)@) == drawn(old(ops)@) + cells_ops(
            card_table(*replay, *stats),
            *map,
            *cfg,
            width as int,
            height as int,
            card_table(*replay, *stats).len() as int,
        ),
{
    let rows: Vec<Row> = card_cells(replay, stats);
    let ghost table = card_table(*replay, *stats);
    let ghost begun = drawn(ops@);
    assert(rows_view(rows@).len() == rows@.len());
    let len: usize = rows.len();
    let n: u8 = len as u8;
    let mut i: u8 = 0;
    assert(drawn(ops@) =~= begun + cells_ops(table, *map, *cfg, width as int, height as int, 0));
    while i < n
        invariant
            i <= n <= 4,
            n == len == rows@.len(),
            table == rows_view(rows@),
            drawn(ops@) == begun + cells_ops(
                table,
                *map,
                *cfg,
                width as int,
                height as int,
                i as int,
            ),
        decreases n - i,
    {
        let p: CellPlace = place_of_cell(map, width, height, n, i);
        let label: String = rows[i as usize].label.as_str().to_owned();
        let value: String = rows[i as usize].value.as_str().to_owned();
        let ghost before = drawn(ops@);
        write_text(ops, label, p.x, p.label_y, p.label_px, p.align, muted(cfg));
        write_text(ops, value, p.x, p.value_y, p.value_px, p.align, ink(cfg));
        assert(drawn(ops@) =~= before + cell_ops(table[i as int], p, *cfg));
        assert(drawn(ops@) =~= begun + cells_ops(
            table,
            *map,
            *cfg,
            width as int,
            height as int,
            i + 1,
        ));
        i = i + 1;
    }
}

/// Lays out the score card of a run. The cover and what lies behind are not part of it.
pub fn build_card(
    replay: &Replay,
    map: &Beatmap,
    stats: &HudStats,
    cfg: &SkinConfig,
    width: u32,
    height: u32,
) -> (ops: Vec<Op>)
    requires
        stats.score > i64::MIN,
    ensures
        drawn(ops@) == card_ops(*replay, *map, *stats, *cfg, width as int, height as int),
{
    let w: i128 = width as i128;
    let h: i128 = height as i128;
    let mut ops: Vec<Op> = Vec::new();
    assert(drawn(ops@) =~= Seq::empty());
    let shape: CardShape = card_shape(width, height);
    match shape {
        CardShape::Wide => push_wide(&mut ops, replay, map, stats, cfg, width, height),
        CardShape::Square => push_square(&mut ops, replay, map, stats, cfg, width, height),
        CardShape::Tall => push_tall(&mut ops, replay, map, stats, cfg, width, height),
    }
    assert(drawn(ops@) =~= head_ops(
        *replay,
        *map,
        *stats,
        *cfg,
        width as int,
        height as int,
    ));
    push_cells(&mut ops, replay, map, stats, cfg, width, height);
    let mark: String = "rhythr".to_owned();
    match shape {
        CardShape::Wide => write_text(
            &mut ops,
            mark,
            w * 985_000,
            h * 90_000,
            h * 28_000,
            Align::Right,
            muted(cfg),
        ),
        CardShape::Square => write_text(
            &mut ops,
            mark,
            w * 970_000,
            h * 970_000,
            w * 24_000,
            Align::Right,
            muted(cfg),
        ),
        CardShape::Tall => write_text(
            &mut ops,
            mark,
            w * 970_000,
            h * 1_000_000 - w * 30_000,
            w * 24_000,
            Align::Right,
            muted(cfg),
        ),
    }
    ops
}

/// The cover lies on the card.
pub proof fn law_cover_lies_on_the_card(w: int, h: int)
    requires
        0 <= w,
        0 <= h,
    ensures
        cover_place(w, h).0 >= 0,
        cover_place(w, h).1 >= 0,
        cover_place(w, h).0 + cover_place(w, h).2 <= w * 1_000_000,
        cover_place(w, h).1 + cover_place(w, h).2 <= h * 1_000_000,
{
}

/// A card is wide from well over its height on, tall from well below it, and square in between.
pub proof fn law_cards_follow_their_proportions(w: int, h: int)
    requires
        w > 0,
        h > 0,
    ensures
        w >= 2 * h ==> shape_of(w, h) is Wide,
        w == h ==> shape_of(w, h) is Square,
        2 * w <= h ==> shape_of(w, h) is Tall,
        shape_of(w, h) is Wide ==> shape_of(w + 1, h) is Wide,
        shape_of(w, h) is Tall ==> shape_of(w, h + 1) is Tall,
{
}

/// On a square or a tall card the cells of a row stand around the middle, one like the other.
pub proof fn law_cells_are_centred(map: Beatmap, w: int, h: int, n: int, i: int)
    requires
        0 <= i < n <= 4,
        0 < w <= u32::MAX,
        0 < h <= u32::MAX,
        !(shape_of(w, h) is Wide),
        n != 4 || shape_of(w, h) is Square,
    ensures
        cell_place(map, w, h, n, i).x + cell_place(map, w, h, n, n - 1 - i).x == w * 1_000_000,
        cell_place(map, w, h, n, i).label_y < cell_place(map, w, h, n, i).value_y,
        cell_place(map, w, h, n, i).value_y == cell_place(map, w, h, n, n - 1 - i).value_y,
{
    let (a, b) = (2 * i - (n - 1), 2 * (n - 1 - i) - (n - 1));
    assert(a * (w * 130_000) + b * (w * 130_000) == 0 && a * (w * 140_000) + b * (w * 140_000) == 0)
        by (nonlinear_arith)
        requires
            a + b == 0,
    ;
    assert(magnitude(a * (w * 130_000)) <= 3 * (w * 130_000)) by (nonlinear_arith)
        requires
            -3 <= a <= 3,
            w > 0,
    ;
    assert(magnitude(a * (w * 140_000)) <= 3 * (w * 140_000)) by (nonlinear_arith)
        requires
            -3 <= a <= 3,
            w > 0,
    ;
}

} // verus!
