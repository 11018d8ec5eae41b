//! The trail behind the cursor: soft dots laid out along its recent path.

use vstd::prelude::*;

use crate::colors::{gradient_color, trail_color};
use crate::config::{Rgb, SkinConfig};
use crate::count::gather;
use crate::fixed::{
    between, div_nearest, greater, interpolate, law_rounding_is_closest, law_rounding_is_monotone,
    law_rounding_keeps_whole_numbers, lesser, magnitude, nearest, COORDINATE_LIMIT,
};
use crate::hitreg::first_not_before;
use crate::mods::{cursor, is_root, root, whole_root};
use crate::replay::{frames_fit, frames_in_range, Frame};
use crate::scene::{
    curve, curved, fifth_root, law_fades_only_rise, lemma_fifth_root_of_one, lemma_fifth_roots_rise,
    whole_fifth_root,
};

verus! {

/// In how many steps the recent path is walked.
pub const PATH_STEPS: u32 = 512;

/// The most dots that are laid out.
pub const DOT_LIMIT: u32 = 4000;

/// A dot of the trail: its place and size in millionths of a world unit, its opacity in
/// millionths.
#[derive(Debug, Clone, Copy, PartialEq, Eq, Structural)]
pub struct TrailDot {
    pub x: i128,
    pub y: i128,
    pub size: i128,
    pub alpha: i128,
    pub color: Rgb,
}

/// Whether frames come in order of time.
pub open spec fn frames_in_order(frames: Seq<Frame>) -> bool {
    forall|a: int, b: int| 0 <= a <= b < frames.len() ==> frames[a].ms <= frames[b].ms
}

/// Whether a trail can be worked out.
pub open spec fn can_trail(cfg: SkinConfig, frames: Seq<Frame>, t: int) -> bool {
    &&& frames_in_range(frames)
    &&& magnitude(t) <= 4_000_000_000_000_000_000
    &&& magnitude(cfg.cursor_trail_fade_secs as int) <= 1_000_000_000_000_000
    &&& magnitude(cfg.cursor_trail_spacing as int) <= 1_000_000_000_000
    &&& magnitude(cfg.cursor_scale as int) <= 1_000_000_000_000
    &&& magnitude(cfg.cursor_trail_opacity as int) <= 1_000_000_000_000
}

/// How far back the trail reaches, in millionths of a millisecond.
pub open spec fn trail_span(cfg: SkinConfig) -> int {
    greater(cfg.cursor_trail_fade_secs * 1000, 1_000_000)
}

/// Half the width of the cursor.
pub open spec fn cursor_size(cfg: SkinConfig) -> int {
    nearest(cfg.cursor_scale as int, 10)
}

/// Half the width of the newest dot.
pub open spec fn head_size(cfg: SkinConfig) -> int {
    nearest(cursor_size(cfg) * 105, 100)
}

/// The distance between dots along the path.
pub open spec fn dot_distance(cfg: SkinConfig) -> int {
    greater(nearest(2 * (cfg.cursor_trail_spacing * head_size(cfg)), 1_000_000), 2_000)
}

/// The cursor `i` steps back.
pub open spec fn step_back(frames: Seq<Frame>, t: int, span: int, i: int) -> (int, int) {
    cursor(frames, t - nearest(span * i, PATH_STEPS as int))
}

/// The distance between step `i` and the one after it in time.
pub open spec fn leg(frames: Seq<Frame>, t: int, span: int, i: int) -> int {
    let (ax, ay) = step_back(frames, t, span, i - 1);
    let (bx, by) = step_back(frames, t, span, i);
    root((bx - ax) * (bx - ax) + (by - ay) * (by - ay))
}

/// The length of the path over the last `i` steps.
pub open spec fn path_length(frames: Seq<Frame>, t: int, span: int, i: int) -> int
    decreases i,
{
    if i <= 0 {
        0
    } else {
        path_length(frames, t, span, i - 1) + leg(frames, t, span, i)
    }
}

/// The first step from `i` on at which the path is as long as a distance.
pub open spec fn step_at(frames: Seq<Frame>, t: int, span: int, distance: int, i: int) -> int
    decreases PATH_STEPS - i,
{
    if i >= PATH_STEPS || path_length(frames, t, span, i) >= distance {
        i
    } else {
        step_at(frames, t, span, distance, i + 1)
    }
}

/// How many dots are laid out: one for each whole distance.
pub open spec fn dot_count(frames: Seq<Frame>, t: int, span: int, apart: int) -> int {
    lesser(path_length(frames, t, span, PATH_STEPS as int) / apart, DOT_LIMIT as int)
}

/// A share to the power of 1.8: the share times the fifth root of its fourth power, to the
/// millionth below.
pub open spec fn steep(g: int) -> int {
    nearest(g * fifth_root(g * g * g * g * 1_000_000), 1_000_000)
}

/// How old a dot at a step is, in millionths of the trail.
pub open spec fn age_at(step: int) -> int {
    nearest(step * 1_000_000, PATH_STEPS as int)
}

/// The colour of a dot of an age.
pub open spec fn dot_color(cfg: SkinConfig, age: int) -> Rgb {
    if cfg.cursor_trail_gradient@.len() > 0 {
        trail_color(cfg.cursor_trail_gradient@, age)
    } else if cfg.cursor_trail_inherit {
        cfg.cursor_color
    } else {
        cfg.cursor_trail_color
    }
}

/// The opacity of a dot of an age.
pub open spec fn dot_alpha(cfg: SkinConfig, age: int) -> int {
    nearest(cfg.cursor_trail_opacity * steep(1_000_000 - age), 1_000_000)
}

/// Half the width of a dot of an age: it tapers to a tip where dots shrink.
pub open spec fn dot_size(cfg: SkinConfig, age: int) -> int {
    if cfg.cursor_trail_shrink {
        nearest(head_size(cfg) * (100_000_000 - 85 * curved(age)), 100_000_000)
    } else {
        head_size(cfg)
    }
}

/// Dot `k`: it stands a whole number of distances along the path. None where it is too small or
/// too faint.
pub open spec fn dot_at(cfg: SkinConfig, frames: Seq<Frame>, t: int, k: int) -> Option<TrailDot> {
    let span = trail_span(cfg);
    let distance = (k + 1) * dot_distance(cfg);
    let i = step_at(frames, t, span, distance, 1);
    let along = distance - path_length(frames, t, span, i - 1);
    let whole = greater(leg(frames, t, span, i), 1);
    let (ax, ay) = step_back(frames, t, span, i - 1);
    let (bx, by) = step_back(frames, t, span, i);
    let age = age_at(i);
    let size = dot_size(cfg, age);
    let alpha = dot_alpha(cfg, age);
    if size > 1_000 && alpha > 2_000 {
        Some(
            TrailDot {
                x: between(ax, bx, along, whole) as i128,
                y: between(ay, by, along, whole) as i128,
                size: size as i128,
                alpha: alpha as i128,
                color: dot_color(cfg, age),
            },
        )
    } else {
        None
    }
}

/// The dots in a row from the head on.
pub open spec fn dots_along(cfg: SkinConfig, frames: Seq<Frame>, t: int) -> spec_fn(int) -> Option<
    TrailDot,
> {
    |k: int| dot_at(cfg, frames, t, k)
}

/// The dots of the trail, the oldest first so that the head lies on top.
pub open spec fn trail_dots(cfg: SkinConfig, frames: Seq<Frame>, t: int) -> Seq<TrailDot> {
    if cfg.cursor_trail_enabled {
        gather(
            dots_along(cfg, frames, t),
            dot_count(frames, t, trail_span(cfg), dot_distance(cfg)) as nat,
        ).reverse()
    } else {
        Seq::empty()
    }
}

proof fn lemma_first(frames: Seq<Frame>, ms: int, i: int, from: int)
    requires
        frames_in_order(frames),
        0 <= from <= i <= frames.len(),
        i > 0 ==> frames[i - 1].ms < ms,
        i < frames.len() ==> frames[i].ms >= ms,
    ensures
        first_not_before(frames, from, ms) == i,
    decreases i - from,
{
    if from < i {
        assert(frames[from].ms <= frames[i - 1].ms);
        lemma_first(frames, ms, i, from + 1);
    }
}

fn search(frames: &[Frame], ms: i64, sorted: bool) -> (at: usize)
    requires
        sorted ==> frames_in_order(frames@),
    ensures
        at <= frames@.len(),
        at == first_not_before(frames@, 0, ms as int),
        at > 0 ==> frames@[at - 1].ms < ms,
        at < frames@.len() ==> frames@[at as int].ms >= ms,
{
    let len: usize = frames.len();
    let mut lo: usize = 0;
    if sorted {
        let mut hi: usize = len;
        while lo < hi
            invariant
                lo <= hi <= len == frames@.len(),
                lo > 0 ==> frames@[lo - 1].ms < ms,
                hi < len ==> frames@[hi as int].ms >= ms,
            decreases hi - lo,
        {
            let mid: usize = lo + (hi - lo) / 2;
            if frames[mid].ms < ms {
                lo = mid + 1;
            } else {
                hi = mid;
            }
        }
        proof {
            lemma_first(frames@, ms as int, lo as int, 0);
        }
        return lo;
    }
    while lo < len && frames[lo].ms < ms
        invariant
            lo <= len == frames@.len(),
            first_not_before(frames@, 0, ms as int) == first_not_before(
                frames@,
                lo as int,
                ms as int,
            ),
            lo > 0 ==> frames@[lo - 1].ms < ms,
        decreases len - lo,
    {
        lo = lo + 1;
    }
    lo
}

/// The cursor at a song time; quicker where the frames are known to come in order of time.
fn cursor_in(frames: &[Frame], ms: i64, sorted: bool) -> (at: (i128, i128))
    requires
        frames_in_range(frames@),
        sorted ==> frames_in_order(frames@),
    ensures
        (at.0 as int, at.1 as int) == cursor(frames@, ms as int),
        magnitude(at.0 as int) <= 3 * COORDINATE_LIMIT,
        magnitude(at.1 as int) <= 3 * COORDINATE_LIMIT,
{
    let len: usize = frames.len();
    if len == 0 {
        return (0, 0);
    }
    let at: usize = search(frames, ms, sorted);
    if at == len {
        let f: Frame = frames[len - 1];
        return (f.x as i128, f.y as i128);
    }
    let b: Frame = frames[at];
    if at == 0 || b.ms == ms {
        return (b.x as i128, b.y as i128);
    }
    let a: Frame = frames[at - 1];
    let part: i128 = ms as i128 - a.ms as i128;
    let whole: i128 = b.ms as i128 - a.ms as i128;
    (interpolate(a.x, b.x, part, whole), interpolate(a.y, b.y, part, whole))
}

/// The cursor at a song time.
pub fn cursor_between(frames: &[Frame], ms: i64) -> (at: (i128, i128))
    requires
        frames_in_range(frames@),
    ensures
        (at.0 as int, at.1 as int) == cursor(frames@, ms as int),
        magnitude(at.0 as int) <= 3 * COORDINATE_LIMIT,
        magnitude(at.1 as int) <= 3 * COORDINATE_LIMIT,
{
    cursor_in(frames, ms, sorted_by_time(frames))
}

fn span_of(cfg: &SkinConfig) -> (s: i128)
    requires
        magnitude(cfg.cursor_trail_fade_secs as int) <= 1_000_000_000_000_000,
    ensures
        s == trail_span(*cfg),
        1_000_000 <= s <= 1_000_000_000_000_000_000,
{
    let s: i128 = cfg.cursor_trail_fade_secs as i128 * 1000;
    if s > 1_000_000 {
        s
    } else {
        1_000_000
    }
}

fn head_of(cfg: &SkinConfig) -> (s: i128)
    requires
        magnitude(cfg.cursor_scale as int) <= 1_000_000_000_000,
    ensures
        s == head_size(*cfg),
        magnitude(s as int) <= 200_000_000_000_000,
{
    let size: i128 = div_nearest(cfg.cursor_scale as i128, 10);
    div_nearest(size * 105, 100)
}

fn apart_of(cfg: &SkinConfig) -> (d: i128)
    requires
        magnitude(cfg.cursor_scale as int) <= 1_000_000_000_000,
        magnitude(cfg.cursor_trail_spacing as int) <= 1_000_000_000_000,
    ensures
        d == dot_distance(*cfg),
        2_000 <= d <= 400_000_000_000_000_000_000_000_000,
{
    let spacing: i128 = cfg.cursor_trail_spacing as i128;
    let head: i128 = head_of(cfg);
    assert(magnitude(spacing * head) <= 200_000_000_000_000_000_000_000_000) by (nonlinear_arith)
        requires
            -1_000_000_000_000 <= spacing <= 1_000_000_000_000,
            -200_000_000_000_000 <= head <= 200_000_000_000_000,
    ;
    let d: i128 = div_nearest(2 * (spacing * head), 1_000_000);
    if d > 2_000 {
        d
    } else {
        2_000
    }
}

fn back(frames: &[Frame], sorted: bool, t: i64, span: i128, i: u32) -> (at: (i128, i128))
    requires
        frames_in_range(frames@),
        sorted ==> frames_in_order(frames@),
        magnitude(t as int) <= 4_000_000_000_000_000_000,
        0 <= span <= 1_000_000_000_000_000_000,
        i <= PATH_STEPS,
    ensures
        (at.0 as int, at.1 as int) == step_back(frames@, t as int, span as int, i as int),
        magnitude(at.0 as int) <= 3 * COORDINATE_LIMIT,
        magnitude(at.1 as int) <= 3 * COORDINATE_LIMIT,
{
    assert(0 <= span * i <= span * 512) by (nonlinear_arith)
        requires
            0 <= span,
            0 <= i <= 512,
    ;
    let ago: i128 = div_nearest(span * i as i128, 512);
    assert(ago == (2 * (span * i) + 512) / 1024);
    cursor_in(frames, (t as i128 - ago) as i64, sorted)
}

fn distance(a: (i128, i128), b: (i128, i128)) -> (d: i128)
    requires
        magnitude(a.0 as int) <= 3 * COORDINATE_LIMIT,
        magnitude(a.1 as int) <= 3 * COORDINATE_LIMIT,
        magnitude(b.0 as int) <= 3 * COORDINATE_LIMIT,
        magnitude(b.1 as int) <= 3 * COORDINATE_LIMIT,
    ensures
        d == root((b.0 - a.0) * (b.0 - a.0) + (b.1 - a.1) * (b.1 - a.1)),
        0 <= d <= 9_000_000_000_000_000_000,
{
    let dx: i128 = b.0 - a.0;
    let dy: i128 = b.1 - a.1;
    assert(0 <= dx * dx <= 36_000_000_000_000_000_000_000_000_000_000_000_000) by (nonlinear_arith)
        requires
            -6_000_000_000_000_000_000 <= dx <= 6_000_000_000_000_000_000,
    ;
    assert(0 <= dy * dy <= 36_000_000_000_000_000_000_000_000_000_000_000_000) by (nonlinear_arith)
        requires
            -6_000_000_000_000_000_000 <= dy <= 6_000_000_000_000_000_000,
    ;
    let r: u64 = whole_root((dx * dx + dy * dy) as u128);
    assert(r <= 9_000_000_000_000_000_000) by (nonlinear_arith)
        requires
            is_root(r as int, dx * dx + dy * dy),
            dx * dx + dy * dy <= 72_000_000_000_000_000_000_000_000_000_000_000_000,
    ;
    r as i128
}

fn steepened(g: i128) -> (r: i128)
    requires
        0 <= g <= 1_000_000,
    ensures
        r == steep(g as int),
        0 <= r <= 1_000_000_000_000,
{
    assert(0 <= g * g <= 1_000_000_000_000) by (nonlinear_arith)
        requires
            0 <= g <= 1_000_000,
    ;
    assert(0 <= g * g * g <= 1_000_000_000_000_000_000) by (nonlinear_arith)
        requires
            0 <= g <= 1_000_000,
            0 <= g * g <= 1_000_000_000_000,
    ;
    assert(0 <= g * g * g * g <= 1_000_000_000_000_000_000_000_000) by (nonlinear_arith)
        requires
            0 <= g <= 1_000_000,
            0 <= g * g * g <= 1_000_000_000_000_000_000,
    ;
    let f: i128 = whole_fifth_root((g * g * g * g * 1_000_000) as u128) as i128;
    assert(0 <= g * f <= 1_000_000_000_000) by (nonlinear_arith)
        requires
            0 <= g <= 1_000_000,
            0 <= f <= 1_000_000,
    ;
    div_nearest(g * f, 1_000_000)
}

fn look_of(cfg: &SkinConfig, i: u32) -> (r: (i128, i128, Rgb))
    requires
        magnitude(cfg.cursor_scale as int) <= 1_000_000_000_000,
        magnitude(cfg.cursor_trail_opacity as int) <= 1_000_000_000_000,
        i <= PATH_STEPS,
    ensures
        r.0 == dot_size(*cfg, age_at(i as int)),
        r.1 == dot_alpha(*cfg, age_at(i as int)),
        r.2 == dot_color(*cfg, age_at(i as int)),
{
    let age: i128 = div_nearest(i as i128 * 1_000_000, 512);
    assert(age == (2 * (i * 1_000_000) + 512) / 1024);
    let head: i128 = head_of(cfg);
    let size: i128 = if cfg.cursor_trail_shrink {
        let left: i128 = 100_000_000 - 85 * curve(age);
        assert(magnitude(head * left) <= 20_000_000_000_000_000_000_000) by (nonlinear_arith)
            requires
                -200_000_000_000_000 <= head <= 200_000_000_000_000,
                0 <= left <= 100_000_000,
        ;
        div_nearest(head * left, 100_000_000)
    } else {
        head
    };
    let opacity: i128 = cfg.cursor_trail_opacity as i128;
    let fade: i128 = steepened(1_000_000 - age);
    assert(magnitude(opacity * fade) <= 1_000_000_000_000_000_000_000_000) by (nonlinear_arith)
        requires
            -1_000_000_000_000 <= opacity <= 1_000_000_000_000,
            0 <= fade <= 1_000_000_000_000,
    ;
    let alpha: i128 = div_nearest(opacity * fade, 1_000_000);
    let color: Rgb = if cfg.cursor_trail_gradient.len() > 0 {
        gradient_color(cfg.cursor_trail_gradient.as_slice(), age as i64)
    } else if cfg.cursor_trail_inherit {
        cfg.cursor_color
    } else {
        cfg.cursor_trail_color
    };
    (size, alpha, color)
}

fn on_leg(a: i128, b: i128, along: i128, whole: i128) -> (r: i128)
    requires
        magnitude(a as int) <= 3 * COORDINATE_LIMIT,
        magnitude(b as int) <= 3 * COORDINATE_LIMIT,
        0 <= along <= 9_000_000_000_000_000_000,
        0 < whole <= 9_000_000_000_000_000_001,
    ensures
        r == between(a as int, b as int, along as int, whole as int),
{
    let d: i128 = b - a;
    assert(magnitude(d * along) <= 54_000_000_000_000_000_000_000_000_000_000_000_000)
        by (nonlinear_arith)
        requires
            -6_000_000_000_000_000_000 <= d <= 6_000_000_000_000_000_000,
            0 <= along <= 9_000_000_000_000_000_000,
    ;
    a + div_nearest(d * along, whole)
}

proof fn lemma_length_grows(frames: Seq<Frame>, t: int, span: int, i: int, j: int)
    requires
        0 <= i <= j,
        forall|k: int| 1 <= k <= j ==> #[trigger] leg(frames, t, span, k) >= 0,
    ensures
        path_length(frames, t, span, i) <= path_length(frames, t, span, j),
    decreases j - i,
{
    if i < j {
        lemma_length_grows(frames, t, span, i, j - 1);
        assert(leg(frames, t, span, j) >= 0);
    }
}

proof fn lemma_step_at(frames: Seq<Frame>, t: int, span: int, distance: int, i: int, from: int)
    requires
        1 <= from <= i <= PATH_STEPS,
        forall|k: int| 1 <= k <= i ==> #[trigger] leg(frames, t, span, k) >= 0,
        path_length(frames, t, span, i - 1) < distance <= path_length(frames, t, span, i),
    ensures
        step_at(frames, t, span, distance, from) == i,
    decreases i - from,
{
    if from < i {
        lemma_length_grows(frames, t, span, from, i - 1);
        lemma_step_at(frames, t, span, distance, i, from + 1);
    }
}

/// How many whole distances lie in a length.
proof fn lemma_whole_distances(length: int, apart: int, k: int)
    requires
        apart > 0,
        k * apart <= length < (k + 1) * apart,
    ensures
        length / apart == k,
{
    assert((k + 1) * apart == k * apart + apart) by (nonlinear_arith);
    vstd::arithmetic::div_mod::lemma_fundamental_div_mod_converse(
        length,
        apart,
        k,
        length - k * apart,
    );
}

/// Lays out the dots of the trail at a song time, the oldest first.
pub fn trail(cfg: &SkinConfig, frames: &[Frame], song_time_ms: i64) -> (dots: Vec<TrailDot>)
    requires
        can_trail(*cfg, frames@, song_time_ms as int),
    ensures
        dots@ == trail_dots(*cfg, frames@, song_time_ms as int),
{
    let mut dots: Vec<TrailDot> = Vec::new();
    if !cfg.cursor_trail_enabled {
        assert(dots@ =~= Seq::empty());
        return dots;
    }
    let ghost t = song_time_ms as int;
    let sorted: bool = sorted_by_time(frames);
    let span: i128 = span_of(cfg);
    let apart: i128 = apart_of(cfg);
    let ghost f = dots_along(*cfg, frames@, t);
    let mut k: u32 = 0;
    let mut next: i128 = apart;
    let mut length: i128 = 0;
    let mut prev: (i128, i128) = back(frames, sorted, song_time_ms, span, 0);
    let mut i: u32 = 0;
    while i < PATH_STEPS && k < DOT_LIMIT
        invariant
            i <= PATH_STEPS,
            k <= DOT_LIMIT,
            can_trail(*cfg, frames@, t),
            sorted ==> frames_in_order(frames@),
            t == song_time_ms,
            span == trail_span(*cfg),
            apart == dot_distance(*cfg),
            1_000_000 <= span <= 1_000_000_000_000_000_000,
            2_000 <= apart <= 400_000_000_000_000_000_000_000_000,
            f == dots_along(*cfg, frames@, t),
            forall|j: int| 1 <= j <= i ==> #[trigger] leg(frames@, t, span as int, j) >= 0,
            (prev.0 as int, prev.1 as int) == step_back(frames@, t, span as int, i as int),
            magnitude(prev.0 as int) <= 3 * COORDINATE_LIMIT,
            magnitude(prev.1 as int) <= 3 * COORDINATE_LIMIT,
            length == path_length(frames@, t, span as int, i as int),
            0 <= length <= i * 9_000_000_000_000_000_000,
            next == (k + 1) * apart,
            k * apart <= length,
            k < DOT_LIMIT ==> length < next,
            dots@ == gather(f, k as nat),
        decreases PATH_STEPS - i,
    {
        let cur: (i128, i128) = back(frames, sorted, song_time_ms, span, i + 1);
        let seg: i128 = distance(prev, cur);
        let ghost si = i + 1;
        assert(seg == leg(frames@, t, span as int, si));
        let end: i128 = length + seg;
        assert(end == path_length(frames@, t, span as int, si));
        let (size, alpha, color) = look_of(cfg, i + 1);
        let whole: i128 = if seg > 1 {
            seg
        } else {
            1
        };
        while k < DOT_LIMIT && next <= end
            invariant
                si == i + 1,
                si <= PATH_STEPS,
                k <= DOT_LIMIT,
                apart == dot_distance(*cfg),
                2_000 <= apart <= 400_000_000_000_000_000_000_000_000,
                span == trail_span(*cfg),
                f == dots_along(*cfg, frames@, t),
                forall|j: int| 1 <= j <= si ==> #[trigger] leg(frames@, t, span as int, j) >= 0,
                (prev.0 as int, prev.1 as int) == step_back(frames@, t, span as int, i as int),
                (cur.0 as int, cur.1 as int) == step_back(frames@, t, span as int, si as int),
                magnitude(prev.0 as int) <= 3 * COORDINATE_LIMIT,
                magnitude(prev.1 as int) <= 3 * COORDINATE_LIMIT,
                magnitude(cur.0 as int) <= 3 * COORDINATE_LIMIT,
                magnitude(cur.1 as int) <= 3 * COORDINATE_LIMIT,
                seg == leg(frames@, t, span as int, si as int),
                0 <= seg <= 9_000_000_000_000_000_000,
                whole == greater(seg as int, 1),
                length == path_length(frames@, t, span as int, i as int),
                end == path_length(frames@, t, span as int, si as int),
                end == length + seg,
                0 <= length <= i * 9_000_000_000_000_000_000,
                size == dot_size(*cfg, age_at(si as int)),
                alpha == dot_alpha(*cfg, age_at(si as int)),
                color == dot_color(*cfg, age_at(si as int)),
                next == (k + 1) * apart,
                k * apart <= end,
                k < DOT_LIMIT ==> length < next,
                dots@ == gather(f, k as nat),
            decreases DOT_LIMIT - k,
        {
            proof {
                lemma_step_at(frames@, t, span as int, next as int, si as int, 1);
                assert((k + 2) * apart == (k + 1) * apart + apart) by (nonlinear_arith);
            }
            if size > 1_000 && alpha > 2_000 {
                let along: i128 = next - length;
                let dot: TrailDot = TrailDot {
                    x: on_leg(prev.0, cur.0, along, whole),
                    y: on_leg(prev.1, cur.1, along, whole),
                    size,
                    alpha,
                    color,
                };
                assert(f(k as int) == Some(dot));
                dots.push(dot);
            } else {
                assert(f(k as int) is None);
            }
            k = k + 1;
            next = next + apart;
        }
        length = end;
        prev = cur;
        i = i + 1;
    }
    proof {
        let total = path_length(frames@, t, span as int, PATH_STEPS as int);
        if k < DOT_LIMIT {
            lemma_whole_distances(total, apart as int, k as int);
        } else {
            lemma_enough(frames@, t, span as int, i as int, k as int, apart as int);
        }
    }
    assert(dots@ == gather(f, dot_count(frames@, t, span as int, apart as int) as nat));
    reversed(&dots)
}

proof fn lemma_legs(frames: Seq<Frame>, t: int, span: int)
    ensures
        forall|j: int| 1 <= j <= PATH_STEPS ==> #[trigger] leg(frames, t, span, j) >= 0,
{
    assert forall|j: int| 1 <= j <= PATH_STEPS implies #[trigger] leg(frames, t, span, j) >= 0 by {
        let (ax, ay) = step_back(frames, t, span, j - 1);
        let (bx, by) = step_back(frames, t, span, j);
        let v = (bx - ax) * (bx - ax) + (by - ay) * (by - ay);
        assert(v >= 0) by (nonlinear_arith)
            requires
                v == (bx - ax) * (bx - ax) + (by - ay) * (by - ay),
        ;
        crate::scene::lemma_root_exists(v);
    }
}

proof fn lemma_enough(
    frames: Seq<Frame>,
    t: int,
    span: int,
    i: int,
    k: int,
    apart: int,
)
    requires
        0 <= i <= PATH_STEPS,
        apart > 0,
        k == DOT_LIMIT,
        k * apart <= path_length(frames, t, span, i),
    ensures
        dot_count(frames, t, span, apart) == k,
{
    let total = path_length(frames, t, span, PATH_STEPS as int);
    lemma_legs(frames, t, span);
    lemma_length_grows(frames, t, span, i, PATH_STEPS as int);
    assert(total / apart >= k) by (nonlinear_arith)
        requires
            total >= k * apart,
            apart > 0,
    ;
}

fn reversed(dots: &Vec<TrailDot>) -> (r: Vec<TrailDot>)
    ensures
        r@ == dots@.reverse(),
{
    let mut r: Vec<TrailDot> = Vec::new();
    let mut i: usize = dots.len();
    while i > 0
        invariant
            i <= dots@.len(),
            r@.len() == dots@.len() - i,
            forall|k: int| 0 <= k < r@.len() ==> r@[k] == dots@[dots@.len() - 1 - k],
        decreases i,
    {
        i = i - 1;
        r.push(dots[i]);
    }
    assert(r@ =~= dots@.reverse());
    r
}

/// Whether frames come in order of time.
pub fn sorted_by_time(frames: &[Frame]) -> (r: bool)
    ensures
        r == frames_in_order(frames@),
{
    let mut i: usize = 1;
    while i < frames.len()
        invariant
            1 <= i,
            i <= frames@.len() || frames@.len() == 0,
            forall|a: int, b: int|
                0 <= a <= b < i && b < frames@.len() ==> frames@[a].ms <= frames@[b].ms,
        decreases frames@.len() - i,
    {
        if frames[i - 1].ms > frames[i].ms {
            return false;
        }
        i = i + 1;
    }
    true
}

/// Whether a trail can be worked out.
pub fn fits_trail(cfg: &SkinConfig, frames: &[Frame], song_time_ms: i64) -> (r: bool)
    ensures
        r == can_trail(*cfg, frames@, song_time_ms as int),
{
    frames_fit(frames) && small(song_time_ms, 4_000_000_000_000_000_000) && small(
        cfg.cursor_trail_fade_secs,
        1_000_000_000_000_000,
    ) && small(cfg.cursor_trail_spacing, 1_000_000_000_000) && small(cfg.cursor_scale, 1_000_000_000_000) && small(
        cfg.cursor_trail_opacity,
        1_000_000_000_000,
    )
}

fn small(v: i64, limit: i64) -> (r: bool)
    requires
        0 <= limit,
    ensures
        r == (magnitude(v as int) <= limit),
{
    -limit <= v && v <= limit
}

/// A trail never has more than a bounded number of dots.
pub proof fn law_trail_is_bounded(cfg: SkinConfig, frames: Seq<Frame>, t: int)
    ensures
        trail_dots(cfg, frames, t).len() <= DOT_LIMIT,
{
    let span = trail_span(cfg);
    let apart = dot_distance(cfg);
    let length = path_length(frames, t, span, PATH_STEPS as int);
    lemma_legs(frames, t, span);
    lemma_length_grows(frames, t, span, 0, PATH_STEPS as int);
    assert(length / apart >= 0) by (nonlinear_arith)
        requires
            length >= 0,
            apart > 0,
    ;
    lemma_gather_bound(dots_along(cfg, frames, t), dot_count(frames, t, span, apart) as nat);
}

proof fn lemma_gather_bound(f: spec_fn(int) -> Option<TrailDot>, n: nat)
    ensures
        gather(f, n).len() <= n,
    decreases n,
{
    if n > 0 {
        lemma_gather_bound(f, (n - 1) as nat);
    }
}

/// A trail fades and shrinks along its age: it starts with the cursor's own opacity, five percent
/// larger than the cursor, and ends at nothing, at 15 percent of its size where it shrinks.
pub proof fn law_trails_fade_with_age(cfg: SkinConfig, age: int, older: int)
    requires
        0 <= age <= older <= 1_000_000,
        cfg.cursor_trail_opacity >= 0,
        cfg.cursor_scale >= 0,
    ensures
        dot_alpha(cfg, 0) == cfg.cursor_trail_opacity,
        dot_alpha(cfg, 1_000_000) == 0,
        0 <= dot_alpha(cfg, older) <= dot_alpha(cfg, age),
        dot_size(cfg, 0) == head_size(cfg),
        dot_size(cfg, older) <= dot_size(cfg, age),
        !cfg.cursor_trail_shrink ==> dot_size(cfg, age) == dot_size(cfg, older),
        cfg.cursor_trail_shrink ==> 2 * magnitude(
            100 * dot_size(cfg, 1_000_000) - 15 * head_size(cfg),
        ) <= 100,
        2 * magnitude(10 * cursor_size(cfg) - cfg.cursor_scale) <= 10,
        2 * magnitude(100 * head_size(cfg) - 105 * cursor_size(cfg)) <= 100,
{
    let o = cfg.cursor_trail_opacity as int;
    let h = head_size(cfg);
    law_rounding_is_closest(cfg.cursor_scale as int, 10);
    law_rounding_is_closest(cursor_size(cfg) * 105, 100);
    law_rounding_is_monotone(0, cfg.cursor_scale as int, 10);
    law_rounding_keeps_whole_numbers(0, 0, 10);
    law_rounding_is_monotone(0, cursor_size(cfg) * 105, 100);
    law_rounding_keeps_whole_numbers(0, 0, 100);
    lemma_steep(1_000_000 - older, 1_000_000 - age);
    let (u, v) = (steep(1_000_000 - older), steep(1_000_000 - age));
    assert(0 <= o * u <= o * v) by (nonlinear_arith)
        requires
            o >= 0,
            0 <= u <= v,
    ;
    law_rounding_is_monotone(o * u, o * v, 1_000_000);
    law_rounding_is_monotone(0, o * u, 1_000_000);
    law_rounding_keeps_whole_numbers(0, 0, 1_000_000);
    law_rounding_keeps_whole_numbers(o, 0, 1_000_000);
    assert(o * 0 == 0);
    law_fades_only_rise(age, older);
    let (a, b) = (100_000_000 - 85 * curved(age), 100_000_000 - 85 * curved(older));
    assert(h * b <= h * a) by (nonlinear_arith)
        requires
            h >= 0,
            b <= a,
    ;
    law_rounding_is_monotone(h * b, h * a, 100_000_000);
    law_rounding_keeps_whole_numbers(h, 0, 100_000_000);
    law_rounding_is_closest(h * 15_000_000, 100_000_000);
    assert(h * (100_000_000 - 85 * curved(0)) == 100_000_000 * h) by (nonlinear_arith)
        requires
            curved(0) == 0,
    ;
    assert(h * (100_000_000 - 85 * curved(1_000_000)) == h * 15_000_000) by (nonlinear_arith)
        requires
            curved(1_000_000) == 1_000_000,
    ;
}

proof fn lemma_steep(a: int, b: int)
    requires
        0 <= a <= b <= 1_000_000,
    ensures
        steep(0) == 0,
        steep(1_000_000) == 1_000_000,
        0 <= steep(a) <= steep(b) <= 1_000_000,
{
    lemma_steep_rises(0, a);
    lemma_steep_rises(a, b);
    lemma_steep_rises(b, 1_000_000);
    let r = fifth_root(0int * 0 * 0 * 0 * 1_000_000);
    assert(0 * r == 1_000_000 * 0) by (nonlinear_arith);
    law_rounding_keeps_whole_numbers(0, 0, 1_000_000);
    lemma_fifth_root_of_one();
    law_rounding_keeps_whole_numbers(1_000_000, 0, 1_000_000);
}

proof fn lemma_steep_rises(a: int, b: int)
    requires
        0 <= a <= b,
    ensures
        steep(a) <= steep(b),
{
    let (va, vb) = (a * a * a * a * 1_000_000, b * b * b * b * 1_000_000);
    assert(0 <= a * a <= b * b) by (nonlinear_arith)
        requires
            0 <= a <= b,
    ;
    assert(0 <= (a * a) * a <= (b * b) * b) by (nonlinear_arith)
        requires
            0 <= a <= b,
            0 <= a * a <= b * b,
    ;
    assert(0 <= ((a * a) * a) * a <= ((b * b) * b) * b) by (nonlinear_arith)
        requires
            0 <= a <= b,
            0 <= (a * a) * a <= (b * b) * b,
    ;
    lemma_fifth_roots_rise(va, vb);
    let (ra, rb) = (fifth_root(va), fifth_root(vb));
    assert(a * ra <= b * rb) by (nonlinear_arith)
        requires
            0 <= a <= b,
            0 <= ra <= rb,
    ;
    law_rounding_is_monotone(a * ra, b * rb, 1_000_000);
}

/// The trail starts at the cursor and ends where that was when its fade began.
pub proof fn law_trails_start_at_the_cursor(cfg: SkinConfig, frames: Seq<Frame>, t: int)
    ensures
        step_back(frames, t, trail_span(cfg), 0) == cursor(frames, t),
        step_back(frames, t, trail_span(cfg), 512) == cursor(frames, t - trail_span(cfg)),
        cfg.cursor_trail_fade_secs >= 1_000 ==> trail_span(cfg) == 1000
            * cfg.cursor_trail_fade_secs,
{
    let span = trail_span(cfg);
    law_rounding_keeps_whole_numbers(0, 0, 512);
    law_rounding_keeps_whole_numbers(span, 0, 512);
    assert(span * 0 == 0) by (nonlinear_arith);
    assert(span * 512 == 512 * span) by (nonlinear_arith);
}

/// A dot lies on the way that the cursor took, between two of its places one after the other, as far
/// along it as all dots up to it are apart.
pub proof fn law_dots_lie_on_the_path(
    cfg: SkinConfig,
    frames: Seq<Frame>,
    t: int,
    k: int,
    dot: TrailDot,
)
    requires
        0 <= k < dot_count(frames, t, trail_span(cfg), dot_distance(cfg)),
        dot_at(cfg, frames, t, k) == Some(dot),
    ensures
        ({
            let i = step_at(frames, t, trail_span(cfg), (k + 1) * dot_distance(cfg), 1);
            let (ax, ay) = step_back(frames, t, trail_span(cfg), i - 1);
            let (bx, by) = step_back(frames, t, trail_span(cfg), i);
            let way = leg(frames, t, trail_span(cfg), i);
            let along = (k + 1) * dot_distance(cfg) - path_length(
                frames,
                t,
                trail_span(cfg),
                i - 1,
            );
            &&& 1 <= i <= 512
            &&& 0 < along <= way
            &&& dot.x == between(ax, bx, along, way) as i128
            &&& dot.y == between(ay, by, along, way) as i128
        }),
{
    let span = trail_span(cfg);
    let apart = dot_distance(cfg);
    let length = path_length(frames, t, span, PATH_STEPS as int);
    let distance = (k + 1) * apart;
    assert(0 < distance <= length) by (nonlinear_arith)
        requires
            distance == (k + 1) * apart,
            0 <= k < length / apart,
            apart > 0,
    ;
    lemma_reaches(frames, t, span, distance, 1);
}

/// The newest dot is drawn last, over all that are older.
pub proof fn law_the_newest_dot_is_on_top(
    cfg: SkinConfig,
    frames: Seq<Frame>,
    t: int,
    dot: TrailDot,
)
    requires
        cfg.cursor_trail_enabled,
        0 < dot_count(frames, t, trail_span(cfg), dot_distance(cfg)),
        dot_at(cfg, frames, t, 0) == Some(dot),
    ensures
        trail_dots(cfg, frames, t).len() > 0,
        trail_dots(cfg, frames, t)[trail_dots(cfg, frames, t).len() - 1] == dot,
{
    let f = dots_along(cfg, frames, t);
    let n = dot_count(frames, t, trail_span(cfg), dot_distance(cfg)) as nat;
    lemma_first_gathered(f, n, dot);
}

proof fn lemma_first_gathered(f: spec_fn(int) -> Option<TrailDot>, n: nat, dot: TrailDot)
    requires
        n > 0,
        f(0) == Some(dot),
    ensures
        gather(f, n).len() > 0,
        gather(f, n)[0] == dot,
    decreases n,
{
    if n > 1 {
        lemma_first_gathered(f, (n - 1) as nat, dot);
    } else {
        assert(gather(f, 0).len() == 0);
    }
}

proof fn lemma_reaches(frames: Seq<Frame>, t: int, span: int, distance: int, from: int)
    requires
        1 <= from <= PATH_STEPS,
        path_length(frames, t, span, from - 1) < distance <= path_length(
            frames,
            t,
            span,
            PATH_STEPS as int,
        ),
    ensures
        ({
            let i = step_at(frames, t, span, distance, from);
            &&& from <= i <= PATH_STEPS
            &&& path_length(frames, t, span, i - 1) < distance <= path_length(frames, t, span, i)
        }),
    decreases PATH_STEPS - from,
{
    if from < PATH_STEPS && path_length(frames, t, span, from) < distance {
        lemma_reaches(frames, t, span, distance, from + 1);
    }
}

} // verus!
