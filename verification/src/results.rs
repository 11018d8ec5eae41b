//! The results screen and the score card.

use vstd::prelude::*;

use crate::calendar::UNIX_EPOCH_TICKS;
use crate::drawing::{
    bare, draw, drawn, fit_text, fitted_at, inked, line_at, paint, scaled, stroke, words_at,
    write_text, Align, Op, Paint, Shape,
};
use crate::fixed::{
    div_nearest, greater, law_rounding_is_monotone, law_rounding_keeps_whole_numbers, lesser, nearest,
    within, ONE,
};
use crate::hud::{health_at, health_curve, HudStats};
use crate::mods::texts;
use crate::replay::{frames_in_range, Beatmap, Frame, Replay};
use crate::words::{
    clock, clock_of, difficulty_of, difficulty_words, grade_color, grade_letters, health_color,
    health_ink, is_played_line, listed, mapper_words, mark_of, mods_in_a_row, mods_words,
    played_words, results_rows, results_table, rows_view, speed_mark, uppercase_of, verdict_ink,
    verdict_letters, writes_mods, Row, SpeedMark,
};

verus! {

/// How many steps the health graph is drawn in.
pub const GRAPH_STEPS: u32 = 240;

/// Which part of the results screen is drawn. A single run shows all of it; in a race one header
/// is shared, and each racer's numbers fill half the width.
#[derive(Debug, Clone, Copy, PartialEq, Eq, Structural)]
pub enum ResultsPart {
    /// Everything.
    Full,
    /// Only the header of the map, next to its cover.
    Header,
    /// One racer's half: who played, the grade, statistics, graph and mods.
    Side,
}

/// The bright paint of the results screen.
pub open spec fn bright() -> Paint {
    inked(240, 240, 245, 1_000_000)
}

/// The paint of the difficulty.
pub open spec fn verdant() -> Paint {
    inked(60, 220, 90, 1_000_000)
}

/// One of two, by whether a frame is upright.
pub open spec fn either(upright: bool, a: int, b: int) -> int {
    if upright {
        a
    } else {
        b
    }
}

/// The line of the mappers, where there is one.
pub open spec fn mapper_op(
    map: Beatmap,
    x: int,
    y: int,
    px: int,
    align: Align,
    ink: Paint,
) -> Seq<(Shape, Seq<char>)> {
    if map.meta.mappers@.len() > 0 {
        seq![words_at("by "@ + listed(texts(map.meta.mappers@)), x, y, px, align, ink)]
    } else {
        Seq::empty()
    }
}

/// The header: title, difficulty and mappers, right of the cover.
pub open spec fn header_ops(map: Beatmap, w: int, h: int, upright: bool) -> Seq<
    (Shape, Seq<char>),
> {
    let fr = lesser(w, h);
    let x = either(upright, w * 380_000, w * 227_000);
    seq![
        fitted_at(
            map.meta.song_name@,
            x,
            either(upright, h * 75_000, h * 82_000),
            fr * 37_000,
            Align::Left,
            bright(),
            w * 950_000 - x,
        ),
        words_at(
            "< "@ + difficulty_of(map.meta) + " >"@,
            x,
            either(upright, h * 105_000, h * 117_000),
            fr * 26_000,
            Align::Left,
            verdant(),
        ),
    ] + mapper_op(
        map,
        x,
        either(upright, h * 130_000, h * 152_000),
        fr * 24_000,
        Align::Left,
        bright(),
    )
}

/// Who played, and the grade.
pub open spec fn run_ops(
    replay: Replay,
    stats: HudStats,
    w: int,
    h: int,
    half: bool,
    upright: bool,
    played: Seq<char>,
) -> Seq<(Shape, Seq<char>)> {
    let fr = lesser(w, h);
    let letters = verdict_letters(replay.failed, stats.grade);
    let ink = Paint { color: verdict_ink(replay.failed, stats.grade), alpha: 1_000_000 };
    if half {
        seq![
            words_at(played, w * 38_000, h * 390_000, h * 22_000, Align::Left, bright()),
            words_at(letters, w * 920_000, h * 415_000, h * 85_000, Align::Center, ink),
        ]
    } else if upright {
        seq![
            words_at(played, w * 50_000, h * 225_000, fr * 26_000, Align::Left, bright()),
            words_at(letters, w * 850_000, h * 185_000, fr * 130_000, Align::Center, ink),
        ]
    } else {
        seq![
            words_at(played, w * 227_000, h * 340_000, fr * 26_000, Align::Left, bright()),
            words_at(letters, w * 895_000, h * 260_000, fr * 130_000, Align::Center, ink),
        ]
    }
}

/// The thickness of the lines.
pub open spec fn hairline(fr: int) -> int {
    greater(fr * 2_200, 1_000_000)
}

/// A row of the statistics: a label, its value and the leader between.
pub open spec fn row_ops(row: (Seq<char>, Seq<char>), w: int, fr: int, y: int) -> Seq<
    (Shape, Seq<char>),
> {
    seq![
        words_at(row.0, w * 38_000, y, fr * 22_500, Align::Left, bright()),
        words_at(row.1, w * 475_000, y, fr * 22_500, Align::Right, bright()),
        bare(
            Shape::Leader {
                y: (y - fr * 6_750) as i128,
                gap: (w * 12_000) as i128,
                thick: hairline(fr) as i128,
                paint: inked(120, 120, 126, 550_000),
            },
        ),
    ]
}

/// The first `n` rows of the statistics, one below the other.
pub open spec fn table_ops(rows: Seq<(Seq<char>, Seq<char>)>, w: int, fr: int, top: int, n: int) -> Seq<
    (Shape, Seq<char>),
>
    decreases n,
{
    if n <= 0 {
        Seq::empty()
    } else {
        table_ops(rows, w, fr, top, n - 1) + row_ops(
            rows[n - 1],
            w,
            fr,
            top + (n - 1) * (fr * 63_000),
        )
    }
}

/// The statistics with their heading.
pub open spec fn statistics_ops(replay: Replay, stats: HudStats, w: int, h: int, upright: bool) -> Seq<
    (Shape, Seq<char>),
> {
    let fr = lesser(w, h);
    let rows = results_table(replay, stats);
    seq![
        words_at(
            "Statistics"@,
            w * 32_000,
            either(upright, h * 290_000, h * 430_000),
            fr * 28_000,
            Align::Left,
            bright(),
        ),
    ] + table_ops(
        rows,
        w,
        fr,
        either(upright, h * 325_000, h * 492_000),
        rows.len() as int,
    )
}

/// Where the run ends on the graph.
pub open spec fn run_end(replay: Replay) -> int {
    greater(
        if replay.failed {
            replay.fail_time_ms * ONE
        } else {
            replay.length_ms as int
        },
        ONE as int,
    )
}

/// The health at step `k` of the graph.
pub open spec fn graph_health(frames: Seq<Frame>, end: int, k: int) -> int {
    within(health_curve(frames, nearest(end * k, GRAPH_STEPS as int)), 0, 1_000_000)
}

/// The box of the graph: left, right, top and bottom.
pub struct GraphBox {
    pub x0: i128,
    pub x1: i128,
    pub y0: i128,
    pub y1: i128,
}

/// The box of the graph.
pub open spec fn graph_box(w: int, h: int, upright: bool) -> GraphBox {
    let fr = lesser(w, h);
    GraphBox {
        x0: (w * 530_000) as i128,
        x1: (w * 965_000) as i128,
        y0: either(upright, h * 325_000, h * 500_000) as i128,
        y1: either(upright, h * 325_000 + fr * 145_000, h * 645_000) as i128,
    }
}

/// The place of step `k` of the graph, across.
pub open spec fn graph_x(g: GraphBox, k: int) -> int {
    g.x0 + nearest((g.x1 - g.x0) * k, GRAPH_STEPS as int)
}

/// The place of a health on the graph, down.
pub open spec fn graph_y(g: GraphBox, health: int) -> int {
    g.y1 - nearest((g.y1 - g.y0) * health, 1_000_000)
}

/// The line of the graph from step `k` to the next one, in the colour of the lower health.
pub open spec fn graph_line(frames: Seq<Frame>, end: int, g: GraphBox, fr: int, k: int) -> (
    Shape,
    Seq<char>,
) {
    let a = graph_health(frames, end, k);
    let b = graph_health(frames, end, k + 1);
    line_at(
        graph_x(g, k),
        graph_y(g, a),
        graph_x(g, k + 1),
        graph_y(g, b),
        hairline(fr),
        Paint { color: health_ink(lesser(a, b)), alpha: 1_000_000 },
    )
}

/// The lines of the graph.
pub open spec fn graph_lines(frames: Seq<Frame>, end: int, g: GraphBox, fr: int) -> Seq<
    (Shape, Seq<char>),
> {
    Seq::new(GRAPH_STEPS as nat, |k: int| graph_line(frames, end, g, fr, k))
}

/// The health graph with its heading and times.
pub open spec fn graph_ops(replay: Replay, w: int, h: int, upright: bool) -> Seq<
    (Shape, Seq<char>),
> {
    let fr = lesser(w, h);
    let g = graph_box(w, h, upright);
    seq![
        words_at(
            "Health Graph"@,
            w * 515_000,
            either(upright, h * 290_000, h * 430_000),
            fr * 28_000,
            Align::Left,
            bright(),
        ),
        words_at("00:00"@, g.x0 as int, g.y0 - fr * 14_000, fr * 20_000, Align::Left, bright()),
        words_at(
            clock_of(run_end(replay)),
            g.x1 as int,
            g.y0 - fr * 14_000,
            fr * 20_000,
            Align::Right,
            bright(),
        ),
    ] + graph_lines(replay.frames@, run_end(replay), g, fr)
}

/// The mods: the speed, with its letter even at the map's own speed, and the names where no
/// icons show them.
pub open spec fn mods_ops(
    replay: Replay,
    w: int,
    h: int,
    icons_shown: bool,
    half: bool,
    upright: bool,
) -> Seq<(Shape, Seq<char>)> {
    let fr = lesser(w, h);
    let y = either(upright, h * 565_000, h * 775_000);
    seq![
        words_at(
            "Mods"@,
            w * 515_000,
            either(upright, h * 520_000, h * 700_000),
            fr * 28_000,
            Align::Left,
            bright(),
        ),
        if mark_of(replay.speed as int) == SpeedMark::Plain {
            words_at("S"@, w * 545_000, y, fr * 32_000, Align::Center, bright())
        } else {
            bare(
                Shape::Speed {
                    x: (w * 545_000) as i128,
                    y: y as i128,
                    px: (fr * 26_080) as i128,
                    mark: mark_of(replay.speed as int),
                    paint: bright(),
                },
            )
        },
    ] + (if writes_mods(replay.mods@, icons_shown) {
        seq![
            words_at(
                uppercase_of(mods_in_a_row(replay.mods@)),
                either(half, w * 630_000, w * 580_000),
                y,
                fr * 26_000,
                Align::Left,
                bright(),
            ),
        ]
    } else {
        Seq::empty()
    })
}

/// The results screen of a run; `played` is the line on who played and when.
pub open spec fn results_ops(
    replay: Replay,
    map: Beatmap,
    stats: HudStats,
    w: int,
    h: int,
    icons_shown: bool,
    part: ResultsPart,
    upright: bool,
    played: Seq<char>,
) -> Seq<(Shape, Seq<char>)> {
    let head = if part == ResultsPart::Side {
        Seq::empty()
    } else {
        header_ops(map, w, h, upright)
    };
    let half = part == ResultsPart::Side;
    head + run_ops(replay, stats, w, h, half, upright, played) + statistics_ops(
        replay,
        stats,
        w,
        h,
        upright,
    ) + graph_ops(replay, w, h, upright) + mods_ops(replay, w, h, icons_shown, half, upright)
}

fn white() -> (p: Paint)
    ensures
        p == bright(),
{
    paint(240, 240, 245, 1_000_000)
}

fn green() -> (p: Paint)
    ensures
        p == verdant(),
{
    paint(60, 220, 90, 1_000_000)
}

fn pick(upright: bool, a: i128, b: i128) -> (r: i128)
    ensures
        r == either(upright, a as int, b as int),
{
    if upright {
        a
    } else {
        b
    }
}

fn shorter(w: u32, h: u32) -> (s: i128)
    ensures
        s == lesser(w as int, h as int),
        0 <= s <= 0xffff_ffff,
{
    if w < h {
        w as i128
    } else {
        h as i128
    }
}

pub(crate) fn push_mappers(ops: &mut Vec<Op>, map: &Beatmap, x: i128, y: i128, px: i128, align: Align, ink: Paint)
    ensures
        drawn(final(ops)@) == drawn(old(ops)@) + mapper_op(
            *map,
            x as int,
            y as int,
            px as int,
            align,
            ink,
        ),
{
    if map.meta.mappers.len() > 0 {
        write_text(ops, mapper_words(map.meta.mappers.as_slice()), x, y, px, align, ink);
    }
    assert(drawn(ops@) =~= drawn(old(ops)@) + mapper_op(
        *map,
        x as int,
        y as int,
        px as int,
        align,
        ink,
    ));
}

fn push_header(ops: &mut Vec<Op>, map: &Beatmap, width: u32, height: u32, upright: bool)
    ensures
        drawn(final(ops)@) == drawn(old(ops)@) + header_ops(
            *map,
            width as int,
            height as int,
            upright,
        ),
{
    let w: i128 = width as i128;
    let h: i128 = height as i128;
    let fr: i128 = shorter(width, height);
    let x: i128 = pick(upright, w * 380_000, w * 227_000);
    let y: i128 = pick(upright, h * 75_000, h * 82_000);
    fit_text(
        ops,
        map.meta.song_name.as_str().to_owned(),
        x,
        y,
        fr * 37_000,
        Align::Left,
        white(),
        w * 950_000 - x,
    );
    let y: i128 = pick(upright, h * 105_000, h * 117_000);
    write_text(ops, difficulty_words(&map.meta), x, y, fr * 26_000, Align::Left, green());
    let y: i128 = pick(upright, h * 130_000, h * 152_000);
    push_mappers(ops, map, x, y, fr * 24_000, Align::Left, white());
    assert(drawn(ops@) =~= drawn(old(ops)@) + header_ops(
        *map,
        width as int,
        height as int,
        upright,
    ));
}

fn push_run(
    ops: &mut Vec<Op>,
    replay: &Replay,
    stats: &HudStats,
    width: u32,
    height: u32,
    half: bool,
    upright: bool,
) -> (played: Ghost<Seq<char>>)
    requires
        replay.timestamp_ticks - UNIX_EPOCH_TICKS >= i64::MIN,
    ensures
        is_played_line(played@, replay.player_name@, replay.timestamp_ticks as int),
        drawn(final(ops)@) == drawn(old(ops)@) + run_ops(
            *replay,
            *stats,
            width as int,
            height as int,
            half,
            upright,
            played@,
        ),
{
    let w: i128 = width as i128;
    let h: i128 = height as i128;
    let fr: i128 = shorter(width, height);
    let line: String = played_words(replay.player_name.as_str(), replay.timestamp_ticks);
    let ghost played = line@;
    let letters: String = grade_letters(replay.failed, stats.grade).to_owned();
    let ink: Paint = Paint {
        color: grade_color(replay.failed, stats.grade),
        alpha: 1_000_000,
    };
    if half {
        write_text(ops, line, w * 38_000, h * 390_000, h * 22_000, Align::Left, white());
        write_text(ops, letters, w * 920_000, h * 415_000, h * 85_000, Align::Center, ink);
    } else if upright {
        write_text(ops, line, w * 50_000, h * 225_000, fr * 26_000, Align::Left, white());
        write_text(ops, letters, w * 850_000, h * 185_000, fr * 130_000, Align::Center, ink);
    } else {
        write_text(ops, line, w * 227_000, h * 340_000, fr * 26_000, Align::Left, white());
        write_text(ops, letters, w * 895_000, h * 260_000, fr * 130_000, Align::Center, ink);
    }
    assert(drawn(ops@) =~= drawn(old(ops)@) + run_ops(
        *replay,
        *stats,
        width as int,
        height as int,
        half,
        upright,
        played,
    ));
    Ghost(played)
}

fn thin(fr: i128) -> (t: i128)
    requires
        0 <= fr <= 0xffff_ffff,
    ensures
        t == hairline(fr as int),
{
    if fr * 2_200 > 1_000_000 {
        fr * 2_200
    } else {
        1_000_000
    }
}

fn push_statistics(
    ops: &mut Vec<Op>,
    replay: &Replay,
    stats: &HudStats,
    width: u32,
    height: u32,
    upright: bool,
)
    requires
        stats.score > i64::MIN,
    ensures
        drawn(final(ops)@) == drawn(old(ops)@) + statistics_ops(
            *replay,
            *stats,
            width as int,
            height as int,
            upright,
        ),
{
    let w: i128 = width as i128;
    let h: i128 = height as i128;
    let fr: i128 = shorter(width, height);
    let y: i128 = pick(upright, h * 290_000, h * 430_000);
    write_text(
        ops,
        "Statistics".to_owned(),
        w * 32_000,
        y,
        fr * 28_000,
        Align::Left,
        white(),
    );
    let rows: Vec<Row> = results_rows(replay, stats);
    let ghost table = results_table(*replay, *stats);
    let top: i128 = pick(upright, h * 325_000, h * 492_000);
    let mut y: i128 = top;
    let ghost begun = drawn(ops@);
    let mut i: usize = 0;
    assert(drawn(ops@) =~= begun + table_ops(table, w as int, fr as int, top as int, 0));
    assert(rows_view(rows@).len() == rows@.len());
    while i < rows.len()
        invariant
            i <= rows@.len() <= 6,
            w == width,
            0 <= fr <= 0xffff_ffff,
            0 <= top <= 0xffff_ffff * 500_000,
            y == top + i * (fr * 63_000),
            table == rows_view(rows@),
            drawn(ops@) == begun + table_ops(table, w as int, fr as int, top as int, i as int),
        decreases rows@.len() - i,
    {
        assert(0 <= i * (fr * 63_000) <= 6 * (0xffff_ffff * 63_000)) by (nonlinear_arith)
            requires
                0 <= i <= 6,
                0 <= fr <= 0xffff_ffff,
        ;
        let ghost before = drawn(ops@);
        write_text(
            ops,
            rows[i].label.as_str().to_owned(),
            w * 38_000,
            y,
            fr * 22_500,
            Align::Left,
            white(),
        );
        write_text(
            ops,
            rows[i].value.as_str().to_owned(),
            w * 475_000,
            y,
            fr * 22_500,
            Align::Right,
            white(),
        );
        draw(
            ops,
            Shape::Leader {
                y: y - fr * 6_750,
                gap: w * 12_000,
                thick: thin(fr),
                paint: paint(120, 120, 126, 550_000),
            },
        );
        assert(table[i as int] == (rows@[i as int].label@, rows@[i as int].value@));
        assert(drawn(ops@) =~= before + row_ops(table[i as int], w as int, fr as int, y as int));
        assert(drawn(ops@) =~= begun + table_ops(table, w as int, fr as int, top as int, i + 1));
        assert((i + 1) * (fr * 63_000) == i * (fr * 63_000) + fr * 63_000) by (nonlinear_arith);
        y = y + fr * 63_000;
        i = i + 1;
    }
    assert(drawn(ops@) =~= drawn(old(ops)@) + statistics_ops(
        *replay,
        *stats,
        width as int,
        height as int,
        upright,
    ));
}

fn health_step(frames: &[Frame], end: i64, k: u32) -> (hp: i64)
    requires
        frames_in_range(frames@),
        ONE <= end,
        k <= GRAPH_STEPS,
    ensures
        hp == graph_health(frames@, end as int, k as int),
        0 <= hp <= 1_000_000,
{
    let e: i128 = end as i128;
    let n: i128 = k as i128;
    assert(0 <= e * n <= 0x7fff_ffff_ffff_ffff * 240) by (nonlinear_arith)
        requires
            0 <= e <= 0x7fff_ffff_ffff_ffff,
            0 <= n <= 240,
    ;
    let at: i128 = div_nearest(e * n, 240);
    assert(at == (2 * (e * n) + 240) / 480);
    assert(0 <= e * n <= e * 240) by (nonlinear_arith)
        requires
            0 <= e,
            0 <= n <= 240,
    ;
    let hp: i64 = health_at(frames, at as i64);
    if hp < 0 {
        0
    } else if hp > 1_000_000 {
        1_000_000
    } else {
        hp
    }
}

fn graph_place(g: &GraphBox, k: u32, hp: i64) -> (p: (i128, i128))
    requires
        0 <= g.x0 <= g.x1 <= 1_000_000_000_000_000_000,
        0 <= g.y0 <= g.y1 <= 1_000_000_000_000_000_000,
        k <= GRAPH_STEPS,
        0 <= hp <= 1_000_000,
    ensures
        p.0 == graph_x(*g, k as int),
        p.1 == graph_y(*g, hp as int),
{
    let wide: i128 = g.x1 - g.x0;
    assert(0 <= wide * k <= 240_000_000_000_000_000_000) by (nonlinear_arith)
        requires
            0 <= wide <= 1_000_000_000_000_000_000,
            0 <= k <= 240,
    ;
    (
        g.x0 + div_nearest(wide * k as i128, 240),
        g.y1 - scaled(g.y1 - g.y0, hp as i128, 1_000_000),
    )
}

fn push_lines(ops: &mut Vec<Op>, frames: &[Frame], end: i64, g: &GraphBox, fr: i128)
    requires
        frames_in_range(frames@),
        ONE <= end,
        0 <= fr <= 0xffff_ffff,
        0 <= g.x0 <= g.x1 <= 1_000_000_000_000_000_000,
        0 <= g.y0 <= g.y1 <= 1_000_000_000_000_000_000,
    ensures
        drawn(final(ops)@) == drawn(old(ops)@) + graph_lines(frames@, end as int, *g, fr as int),
{
    let ghost begun = drawn(ops@);
    let ghost all = graph_lines(frames@, end as int, *g, fr as int);
    let mut hp: i64 = health_step(frames, end, 0);
    let mut at: (i128, i128) = graph_place(g, 0, hp);
    let mut k: u32 = 0;
    assert(drawn(ops@) =~= begun + all.take(0));
    while k < GRAPH_STEPS
        invariant
            k <= GRAPH_STEPS,
            frames_in_range(frames@),
            ONE <= end,
            0 <= fr <= 0xffff_ffff,
            0 <= g.x0 <= g.x1 <= 1_000_000_000_000_000_000,
            0 <= g.y0 <= g.y1 <= 1_000_000_000_000_000_000,
            all == graph_lines(frames@, end as int, *g, fr as int),
            hp == graph_health(frames@, end as int, k as int),
            at.0 == graph_x(*g, k as int),
            at.1 == graph_y(*g, hp as int),
            drawn(ops@) == begun + all.take(k as int),
        decreases GRAPH_STEPS - k,
    {
        let next_hp: i64 = health_step(frames, end, k + 1);
        let next: (i128, i128) = graph_place(g, k + 1, next_hp);
        let low: i64 = if hp < next_hp {
            hp
        } else {
            next_hp
        };
        let ghost before = drawn(ops@);
        stroke(
            ops,
            at.0,
            at.1,
            next.0,
            next.1,
            thin(fr),
            Paint { color: health_color(low), alpha: 1_000_000 },
        );
        assert(all[k as int] == graph_line(frames@, end as int, *g, fr as int, k as int));
        assert(all.take(k + 1) =~= all.take(k as int).push(all[k as int]));
        assert(drawn(ops@) =~= begun + all.take(k + 1));
        hp = next_hp;
        at = next;
        k = k + 1;
    }
    assert(all.take(k as int) =~= all);
}

fn push_graph(ops: &mut Vec<Op>, replay: &Replay, width: u32, height: u32, upright: bool)
    requires
        frames_in_range(replay.frames@),
    ensures
        drawn(final(ops)@) == drawn(old(ops)@) + graph_ops(
            *replay,
            width as int,
            height as int,
            upright,
        ),
{
    let w: i128 = width as i128;
    let h: i128 = height as i128;
    let fr: i128 = shorter(width, height);
    let g: GraphBox = GraphBox {
        x0: w * 530_000,
        x1: w * 965_000,
        y0: pick(upright, h * 325_000, h * 500_000),
        y1: pick(upright, h * 325_000 + fr * 145_000, h * 645_000),
    };
    let last: i64 = if replay.failed {
        replay.fail_time_ms as i64 * ONE
    } else {
        replay.length_ms
    };
    let end: i64 = if last > ONE {
        last
    } else {
        ONE
    };
    let y: i128 = pick(upright, h * 290_000, h * 430_000);
    write_text(
        ops,
        "Health Graph".to_owned(),
        w * 515_000,
        y,
        fr * 28_000,
        Align::Left,
        white(),
    );
    write_text(
        ops,
        "00:00".to_owned(),
        g.x0,
        g.y0 - fr * 14_000,
        fr * 20_000,
        Align::Left,
        white(),
    );
    write_text(ops, clock(end), g.x1, g.y0 - fr * 14_000, fr * 20_000, Align::Right, white());
    push_lines(ops, replay.frames.as_slice(), end, &g, fr);
    assert(drawn(ops@) =~= drawn(old(ops)@) + graph_ops(
        *replay,
        width as int,
        height as int,
        upright,
    ));
}

fn push_mods(
    ops: &mut Vec<Op>,
    replay: &Replay,
    width: u32,
    height: u32,
    icons_shown: bool,
    half: bool,
    upright: bool,
)
    ensures
        drawn(final(ops)@) == drawn(old(ops)@) + mods_ops(
            *replay,
            width as int,
            height as int,
            icons_shown,
            half,
            upright,
        ),
{
    let w: i128 = width as i128;
    let h: i128 = height as i128;
    let fr: i128 = shorter(width, height);
    let y: i128 = pick(upright, h * 520_000, h * 700_000);
    write_text(ops, "Mods".to_owned(), w * 515_000, y, fr * 28_000, Align::Left, white());
    let y: i128 = pick(upright, h * 565_000, h * 775_000);
    let mark: SpeedMark = speed_mark(replay.speed);
    if mark == SpeedMark::Plain {
        write_text(ops, "S".to_owned(), w * 545_000, y, fr * 32_000, Align::Center, white());
    } else {
        draw(ops, Shape::Speed { x: w * 545_000, y, px: fr * 26_080, mark, paint: white() });
    }
    if let Some(names) = mods_words(replay.mods.as_str(), icons_shown) {
        let x: i128 = pick(half, w * 630_000, w * 580_000);
        write_text(ops, names, x, y, fr * 26_000, Align::Left, white());
    }
    assert(drawn(ops@) =~= drawn(old(ops)@) + mods_ops(
        *replay,
        width as int,
        height as int,
        icons_shown,
        half,
        upright,
    ));
}

/// Lays out the results screen: title, grade, statistics, health graph and mods. The cover and
/// what lies behind are not part of it.
pub fn build_results(
    replay: &Replay,
    map: &Beatmap,
    stats: &HudStats,
    width: u32,
    height: u32,
    icons_shown: bool,
    part: ResultsPart,
    portrait: bool,
) -> (ops: Vec<Op>)
    requires
        frames_in_range(replay.frames@),
        stats.score > i64::MIN,
        replay.timestamp_ticks - UNIX_EPOCH_TICKS >= i64::MIN,
    ensures
        part == ResultsPart::Header ==> drawn(ops@) == header_ops(
            *map,
            width as int,
            height as int,
            portrait,
        ),
        part != ResultsPart::Header ==> exists|played: Seq<char>| #[trigger]
            is_played_line(played, replay.player_name@, replay.timestamp_ticks as int) && drawn(
                ops@,
            ) == results_ops(
                *replay,
                *map,
                *stats,
                width as int,
                height as int,
                icons_shown,
                part,
                portrait,
                played,
            ),
{
    let mut ops: Vec<Op> = Vec::new();
    let half: bool = part == ResultsPart::Side;
    assert(drawn(ops@) =~= Seq::empty());
    if !half {
        push_header(&mut ops, map, width, height, portrait);
    }
    let ghost head = drawn(ops@);
    assert(head =~= if half {
        Seq::empty()
    } else {
        header_ops(*map, width as int, height as int, portrait)
    });
    if part == ResultsPart::Header {
        return ops;
    }
    let played: Ghost<Seq<char>> = push_run(
        &mut ops,
        replay,
        stats,
        width,
        height,
        half,
        portrait,
    );
    push_statistics(&mut ops, replay, stats, width, height, portrait);
    push_graph(&mut ops, replay, width, height, portrait);
    push_mods(&mut ops, replay, width, height, icons_shown, half, portrait);
    assert(drawn(ops@) =~= results_ops(
        *replay,
        *map,
        *stats,
        width as int,
        height as int,
        icons_shown,
        part,
        portrait,
        played@,
    ));
    ops
}

/// The graph goes from the start of the run on its left edge to the end on its right one, and full
/// health is at its top, none at its bottom.
pub proof fn law_graphs_span_their_box(g: GraphBox, health: int, more: int, k: int)
    requires
        g.x0 <= g.x1,
        g.y0 <= g.y1,
        0 <= health <= more <= 1_000_000,
        0 <= k < 240,
    ensures
        graph_x(g, 0) == g.x0,
        graph_x(g, 240) == g.x1,
        g.x0 <= graph_x(g, k) <= graph_x(g, k + 1) <= g.x1,
        graph_y(g, 0) == g.y1,
        graph_y(g, 1_000_000) == g.y0,
        g.y0 <= graph_y(g, more) <= graph_y(g, health) <= g.y1,
{
    let (w, h) = (g.x1 - g.x0, g.y1 - g.y0);
    law_rounding_keeps_whole_numbers(0, 0, 240);
    law_rounding_keeps_whole_numbers(w, 0, 240);
    law_rounding_keeps_whole_numbers(0, 0, 1_000_000);
    law_rounding_keeps_whole_numbers(h, 0, 1_000_000);
    assert(w * 0 == 0 && h * 0 == 0 && w * 240 == 240 * w && h * 1_000_000 == 1_000_000 * h)
        by (nonlinear_arith);
    assert(0 <= w * k <= w * (k + 1) <= w * 240) by (nonlinear_arith)
        requires
            w >= 0,
            0 <= k < 240,
    ;
    assert(0 <= h * health <= h * more <= h * 1_000_000) by (nonlinear_arith)
        requires
            h >= 0,
            0 <= health <= more <= 1_000_000,
    ;
    law_rounding_is_monotone(0, w * k, 240);
    law_rounding_is_monotone(w * k, w * (k + 1), 240);
    law_rounding_is_monotone(w * (k + 1), w * 240, 240);
    law_rounding_is_monotone(0, h * health, 1_000_000);
    law_rounding_is_monotone(h * health, h * more, 1_000_000);
    law_rounding_is_monotone(h * more, h * 1_000_000, 1_000_000);
}

/// The graph shows the health of the whole run: at its left end that of the start, at its right end
/// that of the end, and lines join without a gap.
pub proof fn law_graphs_show_the_run(
    frames: Seq<Frame>,
    end: int,
    g: GraphBox,
    fr: int,
    k: int,
)
    requires
        0 <= k < 239,
        end >= 0,
    ensures
        graph_health(frames, end, 0) == within(health_curve(frames, 0), 0, 1_000_000),
        graph_health(frames, end, 240) == within(health_curve(frames, end), 0, 1_000_000),
        graph_line(frames, end, g, fr, k).0 matches Shape::Line { bx, by, .. } && graph_line(
            frames,
            end,
            g,
            fr,
            k + 1,
        ).0 matches Shape::Line { ax, ay, .. } && ax == bx && ay == by,
{
    law_rounding_keeps_whole_numbers(0, 0, 240);
    law_rounding_keeps_whole_numbers(end, 0, 240);
    assert(end * 0 == 0 && end * 240 == 240 * end) by (nonlinear_arith);
}

} // verus!
