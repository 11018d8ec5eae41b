//! The colours of notes and of the cursor's trail.

use vstd::prelude::*;

use crate::config::{GradientStop, Rgb, SkinConfig};
use crate::fixed::{
    between, div_nearest, greater, law_lines_join_their_ends, law_rounding_is_closest,
    lemma_part_is_smaller, magnitude, nearest, within,
};
use crate::hitreg::NoteResult;
use crate::text::{chars_of, contains, holds, lowercase, lowered};

verus! {

/// A colour of whole and partial steps, in millionths.
pub open spec fn shade(r: int, g: int, b: int) -> Rgb {
    Rgb { r: r as i64, g: g as i64, b: b as i64 }
}

/// Whether a colour set is one of the icy ones, by its name.
pub open spec fn is_icy(name: Seq<char>) -> bool {
    let n = lowered(name);
    holds(n, "arctic"@) || holds(n, "ice"@) || holds(n, "frost"@)
}

/// The colours that stand for a colour set of a name.
pub open spec fn palette_of(name: Seq<char>) -> Seq<Rgb> {
    if is_icy(name) {
        seq![
            shade(255_000_000, 255_000_000, 255_000_000),
            shade(161_925_000, 223_890_000, 255_000_000),
            shade(161_925_000, 223_890_000, 255_000_000),
        ]
    } else {
        seq![
            shade(76_500_000, 216_750_000, 255_000_000),
            shade(114_750_000, 140_250_000, 255_000_000),
            shade(191_250_000, 114_750_000, 255_000_000),
            shade(89_250_000, 242_250_000, 216_750_000),
        ]
    }
}

/// The colour of note `i` from the colours that stand for a colour set.
pub fn colorset_color(name: &str, i: usize) -> (c: Rgb)
    ensures
        c == palette_of(name@)[i as int % palette_of(name@).len() as int],
{
    let chars: Vec<char> = chars_of(name);
    let n: Vec<char> = lowercase(chars.as_slice());
    if contains(n.as_slice(), "arctic") || contains(n.as_slice(), "ice") || contains(
        n.as_slice(),
        "frost",
    ) {
        if i % 3 == 0 {
            Rgb { r: 255_000_000, g: 255_000_000, b: 255_000_000 }
        } else {
            Rgb { r: 161_925_000, g: 223_890_000, b: 255_000_000 }
        }
    } else {
        let k: usize = i % 4;
        if k == 0 {
            Rgb { r: 76_500_000, g: 216_750_000, b: 255_000_000 }
        } else if k == 1 {
            Rgb { r: 114_750_000, g: 140_250_000, b: 255_000_000 }
        } else if k == 2 {
            Rgb { r: 191_250_000, g: 114_750_000, b: 255_000_000 }
        } else {
            Rgb { r: 89_250_000, g: 242_250_000, b: 216_750_000 }
        }
    }
}

/// The colour of note `i`: the skin's own colours in turn, else those that stand for its set.
pub open spec fn color_of_note(cfg: SkinConfig, i: int) -> Rgb {
    if cfg.colorset@.len() == 0 {
        palette_of(cfg.colorset_name@)[i % palette_of(cfg.colorset_name@).len() as int]
    } else {
        let c = cfg.colorset@[i % cfg.colorset@.len() as int];
        shade(c[0] * 1_000_000, c[1] * 1_000_000, c[2] * 1_000_000)
    }
}

/// The colour of note `i`.
pub fn note_color(cfg: &SkinConfig, i: usize) -> (c: Rgb)
    ensures
        c == color_of_note(*cfg, i as int),
{
    if cfg.colorset.len() == 0 {
        colorset_color(cfg.colorset_name.as_str(), i)
    } else {
        let c: [u8; 3] = cfg.colorset[i % cfg.colorset.len()];
        Rgb {
            r: c[0] as i64 * 1_000_000,
            g: c[1] as i64 * 1_000_000,
            b: c[2] as i64 * 1_000_000,
        }
    }
}

/// Whether a note was hit by a song time.
pub open spec fn hit_by(r: NoteResult, t: int) -> bool {
    r.hit && r.hit_ms is Some && r.hit_ms->0 <= t
}

/// The note hit last by a song time: the first of several at one moment.
pub open spec fn is_last_hit(results: Seq<NoteResult>, t: int, i: int) -> bool {
    &&& 0 <= i < results.len()
    &&& hit_by(results[i], t)
    &&& forall|k: int|
        0 <= k < results.len() && hit_by(#[trigger] results[k], t) ==> results[k].hit_ms->0
            <= results[i].hit_ms->0
    &&& forall|k: int|
        0 <= k < i && hit_by(#[trigger] results[k], t) ==> results[k].hit_ms->0
            < results[i].hit_ms->0
}

/// The colour of the note hit last; none before the first hit.
pub fn last_hit_color(cfg: &SkinConfig, results: &[NoteResult], song_time_ms: i64) -> (c: Option<Rgb>)
    ensures
        match c {
            Some(rgb) => exists|i: int| #[trigger]
                is_last_hit(results@, song_time_ms as int, i) && rgb == color_of_note(*cfg, i),
            None => forall|k: int|
                0 <= k < results@.len() ==> !hit_by(#[trigger] results@[k], song_time_ms as int),
        },
{
    let mut best: Option<(i64, usize)> = None;
    let mut i: usize = 0;
    while i < results.len()
        invariant
            i <= results@.len(),
            match best {
                Some((ms, at)) => {
                    &&& at < i
                    &&& hit_by(results@[at as int], song_time_ms as int)
                    &&& results@[at as int].hit_ms == Some(ms)
                    &&& forall|k: int|
                        0 <= k < i && hit_by(#[trigger] results@[k], song_time_ms as int)
                            ==> results@[k].hit_ms->0 <= ms
                    &&& forall|k: int|
                        0 <= k < at && hit_by(#[trigger] results@[k], song_time_ms as int)
                            ==> results@[k].hit_ms->0 < ms
                },
                None => forall|k: int|
                    0 <= k < i ==> !hit_by(#[trigger] results@[k], song_time_ms as int),
            },
        decreases results@.len() - i,
    {
        let r: &NoteResult = &results[i];
        if let Some(ms) = r.hit_ms {
            if r.hit && ms <= song_time_ms {
                match best {
                    Some((top, _)) => {
                        if ms > top {
                            best = Some((ms, i));
                        }
                    },
                    None => {
                        best = Some((ms, i));
                    },
                }
            }
        }
        i = i + 1;
    }
    match best {
        Some((_, at)) => {
            assert(is_last_hit(results@, song_time_ms as int, at as int));
            Some(note_color(cfg, at))
        },
        None => None,
    }
}

/// The first stop from `from` on that a place does not lie behind.
pub open spec fn stop_after(stops: Seq<GradientStop>, t: int, from: int) -> int
    decreases stops.len() - from,
{
    if from < 0 || from >= stops.len() || t <= stops[from].position {
        from
    } else {
        stop_after(stops, t, from + 1)
    }
}

/// How far a place is on the way between two stops, in millionths.
pub open spec fn way(a: GradientStop, b: GradientStop, t: int) -> int {
    within(
        nearest((t - a.position) * 1_000_000, greater(b.position - a.position, 1)),
        0,
        1_000_000,
    )
}

/// A colour between two.
pub open spec fn blend(a: Rgb, b: Rgb, u: int) -> Rgb {
    shade(
        between(a.r as int, b.r as int, u, 1_000_000),
        between(a.g as int, b.g as int, u, 1_000_000),
        between(a.b as int, b.b as int, u, 1_000_000),
    )
}

/// The colour of the trail at a place, 0 for the newest dot: a straight line between the stops.
pub open spec fn trail_color(stops: Seq<GradientStop>, t: int) -> Rgb {
    if stops.len() == 0 {
        shade(255_000_000, 255_000_000, 255_000_000)
    } else {
        let i = stop_after(stops, t, 0);
        if i == 0 {
            stops[0].color
        } else if i >= stops.len() {
            stops.last().color
        } else {
            blend(stops[i - 1].color, stops[i].color, way(stops[i - 1], stops[i], t))
        }
    }
}

fn mix(a: i64, b: i64, u: i128) -> (r: i64)
    requires
        0 <= u <= 1_000_000,
    ensures
        r == between(a as int, b as int, u as int, 1_000_000),
{
    let d: i128 = b as i128 - a as i128;
    assert(magnitude(d * u) <= 0x1_0000_0000_0000_0000 * 1_000_000) by (nonlinear_arith)
        requires
            -0x1_0000_0000_0000_0000 <= d <= 0x1_0000_0000_0000_0000,
            0 <= u <= 1_000_000,
    ;
    let q: i128 = div_nearest(d * u, 1_000_000);
    proof {
        lemma_part_is_smaller(d as int, u as int, 1_000_000);
        crate::fixed::lemma_nearest_bound(d * u, 1_000_000);
        assert(d >= 0 ==> d * u >= 0) by (nonlinear_arith)
            requires
                0 <= u,
        ;
        assert(d <= 0 ==> d * u <= 0) by (nonlinear_arith)
            requires
                0 <= u,
        ;
    }
    (a as i128 + q) as i64
}

/// The colour of the trail at a place, in millionths of its length from the newest dot.
pub fn gradient_color(stops: &[GradientStop], t: i64) -> (c: Rgb)
    ensures
        c == trail_color(stops@, t as int),
{
    if stops.len() == 0 {
        return Rgb { r: 255_000_000, g: 255_000_000, b: 255_000_000 };
    }
    let mut i: usize = 0;
    while i < stops.len() && t > stops[i].position
        invariant
            i <= stops@.len(),
            stop_after(stops@, t as int, 0) == stop_after(stops@, t as int, i as int),
            i > 0 ==> stops@[i - 1].position < t,
        decreases stops@.len() - i,
    {
        i = i + 1;
    }
    if i == 0 {
        return stops[0].color;
    }
    if i == stops.len() {
        return stops[i - 1].color;
    }
    let a: GradientStop = stops[i - 1];
    let b: GradientStop = stops[i];
    let span: i128 = b.position as i128 - a.position as i128;
    let whole: i128 = if span > 1 {
        span
    } else {
        1
    };
    let far: i128 = div_nearest((t as i128 - a.position as i128) * 1_000_000, whole);
    let u: i128 = if far < 0 {
        0
    } else if far > 1_000_000 {
        1_000_000
    } else {
        far
    };
    Rgb {
        r: mix(a.color.r, b.color.r, u),
        g: mix(a.color.g, b.color.g, u),
        b: mix(a.color.b, b.color.b, u),
    }
}

/// At a stop of a sorted gradient the trail has the stop's colour, where no other stands there.
pub proof fn law_stops_are_reached(stops: Seq<GradientStop>, i: int)
    requires
        0 <= i < stops.len(),
        forall|a: int, b: int| 0 <= a < b < stops.len() ==> stops[a].position < stops[b].position,
    ensures
        trail_color(stops, stops[i].position as int) == stops[i].color,
{
    let t = stops[i].position as int;
    lemma_stop_after(stops, i, 0);
    if i > 0 {
        let a = stops[i - 1];
        let b = stops[i];
        let d = b.position - a.position;
        assert(d > 0);
        assert(nearest(d * 1_000_000, d) == 1_000_000) by {
            assert((2 * (d * 1_000_000) + d) / (2 * d) == 1_000_000) by (nonlinear_arith)
                requires
                    d > 0,
            {
                vstd::arithmetic::div_mod::lemma_fundamental_div_mod_converse(
                    2 * (d * 1_000_000) + d,
                    2 * d,
                    1_000_000,
                    d,
                );
            }
        }
        lemma_whole_way(a.color.r as int, b.color.r as int);
        lemma_whole_way(a.color.g as int, b.color.g as int);
        lemma_whole_way(a.color.b as int, b.color.b as int);
    }
}

proof fn lemma_whole_way(a: int, b: int)
    ensures
        between(a, b, 1_000_000, 1_000_000) == b,
{
    let d = b - a;
    assert(nearest(d * 1_000_000, 1_000_000) == d) by {
        let m = magnitude(d);
        assert((2 * (m * 1_000_000) + 1_000_000) / 2_000_000 == m);
    }
}

proof fn lemma_stop_after(stops: Seq<GradientStop>, i: int, from: int)
    requires
        0 <= from <= i < stops.len(),
        forall|a: int, b: int| 0 <= a < b < stops.len() ==> stops[a].position < stops[b].position,
    ensures
        stop_after(stops, stops[i].position as int, from) == i,
    decreases i - from,
{
    if from < i {
        assert(stops[from].position < stops[i].position);
        lemma_stop_after(stops, i, from + 1);
    }
}

/// The colours of the notes repeat once all were used, and each is the red, green and blue that
/// the set gives.
pub proof fn law_colors_repeat(cfg: SkinConfig, i: int, rounds: int)
    requires
        i >= 0,
        rounds >= 0,
        cfg.colorset@.len() > 0,
    ensures
        color_of_note(cfg, i + rounds * cfg.colorset@.len()) == color_of_note(cfg, i),
        i < cfg.colorset@.len() ==> {
            let c = color_of_note(cfg, i);
            &&& c.r == cfg.colorset@[i][0] * 1_000_000
            &&& c.g == cfg.colorset@[i][1] * 1_000_000
            &&& c.b == cfg.colorset@[i][2] * 1_000_000
        },
{
    let n = cfg.colorset@.len() as int;
    vstd::arithmetic::div_mod::lemma_mod_multiples_vanish(rounds, i, n);
    assert(n * rounds + i == i + rounds * n) by (nonlinear_arith);
    if i < n {
        vstd::arithmetic::div_mod::lemma_small_mod(i as nat, n as nat);
    }
}

/// A blend goes evenly from the one colour to the other, in each channel for itself.
pub proof fn law_blends_go_from_color_to_color(a: Rgb, b: Rgb, u: int)
    requires
        0 <= u <= 1_000_000,
    ensures
        blend(a, b, 0) == a,
        blend(a, b, 1_000_000) == b,
        a.r <= b.r ==> a.r <= blend(a, b, u).r <= b.r,
        b.r <= a.r ==> b.r <= blend(a, b, u).r <= a.r,
        a.g <= b.g ==> a.g <= blend(a, b, u).g <= b.g,
        b.g <= a.g ==> b.g <= blend(a, b, u).g <= a.g,
        a.b <= b.b ==> a.b <= blend(a, b, u).b <= b.b,
        b.b <= a.b ==> b.b <= blend(a, b, u).b <= a.b,
        2 * magnitude(1_000_000 * (blend(a, b, u).r - a.r) - (b.r - a.r) * u) <= 1_000_000,
        2 * magnitude(1_000_000 * (blend(a, b, u).g - a.g) - (b.g - a.g) * u) <= 1_000_000,
        2 * magnitude(1_000_000 * (blend(a, b, u).b - a.b) - (b.b - a.b) * u) <= 1_000_000,
{
    law_lines_join_their_ends(a.r as int, b.r as int, u, 1_000_000);
    law_lines_join_their_ends(a.g as int, b.g as int, u, 1_000_000);
    law_lines_join_their_ends(a.b as int, b.b as int, u, 1_000_000);
    law_rounding_is_closest((b.r - a.r) * u, 1_000_000);
    law_rounding_is_closest((b.g - a.g) * u, 1_000_000);
    law_rounding_is_closest((b.b - a.b) * u, 1_000_000);
}

/// Between two neighbouring stops the colour lies between theirs; before the first and behind the
/// last stop it is theirs.
pub proof fn law_gradients_lie_between_their_stops(stops: Seq<GradientStop>, i: int, t: int)
    requires
        0 < i < stops.len(),
        forall|a: int, b: int| 0 <= a < b < stops.len() ==> stops[a].position < stops[b].position,
    ensures
        t <= stops[0].position ==> trail_color(stops, t) == stops[0].color,
        t >= stops[stops.len() - 1].position ==> trail_color(stops, t) == stops[stops.len()
            - 1].color,
        stops[i - 1].position < t <= stops[i].position ==> ({
            let (a, b) = (stops[i - 1].color, stops[i].color);
            let c = trail_color(stops, t);
            &&& a.r <= b.r ==> a.r <= c.r <= b.r
            &&& b.r <= a.r ==> b.r <= c.r <= a.r
            &&& a.g <= b.g ==> a.g <= c.g <= b.g
            &&& b.g <= a.g ==> b.g <= c.g <= a.g
            &&& a.b <= b.b ==> a.b <= c.b <= b.b
            &&& b.b <= a.b ==> b.b <= c.b <= a.b
        }),
{
    lemma_stop_found(stops, t, 0);
    let k = stop_after(stops, t, 0);
    let last = stops.len() - 1;
    if t <= stops[0].position && k > 0 {
        assert(stops[0].position < t);
    }
    if t >= stops[last].position {
        if k < last {
            assert(stops[k].position < stops[last].position);
        }
        if k == last {
            law_stops_are_reached(stops, last);
        }
    }
    if stops[i - 1].position < t <= stops[i].position {
        assert(k == i) by {
            if k < i - 1 {
                assert(stops[k].position < stops[i - 1].position);
            }
            if k > i {
                assert(stops[i].position < t);
            }
        }
        law_blends_go_from_color_to_color(
            stops[i - 1].color,
            stops[i].color,
            way(stops[i - 1], stops[i], t),
        );
    }
}

proof fn lemma_stop_found(stops: Seq<GradientStop>, t: int, from: int)
    requires
        0 <= from <= stops.len(),
    ensures
        ({
            let k = stop_after(stops, t, from);
            &&& from <= k <= stops.len()
            &&& k < stops.len() ==> t <= stops[k].position
            &&& forall|j: int| from <= j < k ==> (#[trigger] stops[j]).position < t
        }),
    decreases stops.len() - from,
{
    if from < stops.len() && t > stops[from].position {
        lemma_stop_found(stops, t, from + 1);
    }
}

} // verus!
