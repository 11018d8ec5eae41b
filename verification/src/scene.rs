//! The field in space: how far a note is away, how visible it is, and where the border and the
//! cursor stand. Depths and places are in millionths of a world unit.

use vstd::prelude::*;

use crate::config::SkinConfig;
use crate::fixed::{
    div_nearest, law_rounding_is_closest, law_rounding_is_monotone, law_rounding_keeps_whole_numbers,
    lesser, magnitude, nearest, within, ONE,
};
use crate::mods::{is_root, lemma_root_of, root, whole_root, ResolvedMods};

verus! {

/// World distance between neighbouring cells.
pub const GRID_SPACING: i64 = 1_000_000;

/// How far the drawn cursor stays from the edge of the field.
pub const CURSOR_EDGE_INSET: i64 = 131_250;

/// What a half-ghost note keeps of its opacity at the hit plane.
pub const HALFGHOST_FLOOR: i64 = 200_000;

/// Half the width of a note of scale 1.
pub const BASE_NOTE_SCALE: i64 = 450_000;

/// The largest distance, rate and place that a scene is worked out for.
pub const SCENE_LIMIT: i64 = 1_000_000_000_000_000;

/// Farther than any note is from the hit plane.
pub const DEPTH_LIMIT: i128 = 20_000_000_000_000_000_000_000_000_000_000_000;

/// Camera and approach.
#[derive(Debug, Clone, Copy, PartialEq, Eq, Structural)]
pub struct SceneParams {
    /// Vertical field of view, in degrees.
    pub fov_y_deg: i64,
    /// Distance of the camera from the hit plane.
    pub eye_z: i64,
    /// Half the width of a note.
    pub note_radius: i64,
    /// Depth at which a note appears.
    pub spawn_depth: i64,
    /// Units that a note travels per second of play, as the settings give it.
    pub approach_rate: i64,
    /// Share of the approach over which a note fades in.
    pub fade_length: i64,
    /// How far the camera follows the cursor.
    pub parallax: i64,
    /// Whether the camera turns with the cursor instead.
    pub spin: bool,
    /// Opacity of the notes.
    pub note_opacity: i64,
    /// Notes fade to a fifth before the hit plane.
    pub half_ghost: bool,
    /// Notes fade to nothing before the hit plane; goes before `half_ghost`.
    pub full_ghost: bool,
    /// Notes appear late in the approach.
    pub nearsighted: bool,
    /// How much wider than the normal one the grid is.
    pub grid_scale: i64,
    /// Playback speed that the approach is slowed down by in song time.
    pub speed: i64,
    /// Nearest depth that is drawn.
    pub near: i64,
    /// Farthest depth that is drawn.
    pub far: i64,
}

/// The scene of the game's own settings.
pub open spec fn default_scene() -> SceneParams {
    SceneParams {
        fov_y_deg: 70_000_000,
        eye_z: 3_500_000,
        note_radius: BASE_NOTE_SCALE,
        spawn_depth: 40_000_000,
        approach_rate: 40_000_000,
        fade_length: 500_000,
        parallax: 0,
        spin: false,
        note_opacity: 1_000_000,
        half_ghost: false,
        full_ghost: false,
        nearsighted: false,
        grid_scale: 1_000_000,
        speed: 1_000_000,
        near: 10_000,
        far: 1_000_000_000,
    }
}

impl Default for SceneParams {
    fn default() -> (p: SceneParams)
        ensures
            p == default_scene(),
    {
        SceneParams {
            fov_y_deg: 70_000_000,
            eye_z: 3_500_000,
            note_radius: BASE_NOTE_SCALE,
            spawn_depth: 40_000_000,
            approach_rate: 40_000_000,
            fade_length: 500_000,
            parallax: 0,
            spin: false,
            note_opacity: 1_000_000,
            half_ghost: false,
            full_ghost: false,
            nearsighted: false,
            grid_scale: 1_000_000,
            speed: 1_000_000,
            near: 10_000,
            far: 1_000_000_000,
        }
    }
}

/// The scene of a player's settings.
pub open spec fn scene_of(c: SkinConfig) -> SceneParams {
    SceneParams {
        fov_y_deg: c.camera_fov,
        note_radius: nearest(BASE_NOTE_SCALE * c.note_scale, 1_000_000) as i64,
        spawn_depth: c.spawn_distance,
        approach_rate: c.approach_rate,
        fade_length: c.fade_length,
        parallax: nearest(c.parallax * 25, 1000) as i64,
        spin: c.spin_camera,
        note_opacity: c.note_opacity,
        half_ghost: c.half_ghost,
        ..default_scene()
    }
}

/// Whether the numbers of a scene are small enough to work with.
pub open spec fn is_scene(p: SceneParams) -> bool {
    &&& magnitude(p.spawn_depth as int) <= SCENE_LIMIT
    &&& magnitude(p.approach_rate as int) <= SCENE_LIMIT
    &&& magnitude(p.fade_length as int) <= SCENE_LIMIT
    &&& magnitude(p.note_opacity as int) <= SCENE_LIMIT
    &&& magnitude(p.grid_scale as int) <= SCENE_LIMIT
    &&& 0 < p.speed <= SCENE_LIMIT
}

/// Where a cell stands on the hit plane: the middle one at the origin, rows counted downwards.
pub open spec fn world_of(gx: int, gy: int) -> (int, int) {
    (gx - ONE, ONE - gy)
}

/// Where a grid coordinate stands on the hit plane.
pub fn grid_to_world(gx: i64, gy: i64) -> (at: (i128, i128))
    ensures
        (at.0 as int, at.1 as int) == world_of(gx as int, gy as int),
{
    (gx as i128 - ONE as i128, ONE as i128 - gy as i128)
}

/// The fifth power.
pub open spec fn fifth(x: int) -> int {
    x * x * x * x * x
}

/// The whole part of a fifth root.
pub open spec fn is_fifth_root(r: int, v: int) -> bool {
    &&& r >= 0
    &&& fifth(r) <= v < fifth(r + 1)
}

/// The whole part of the fifth root.
pub open spec fn fifth_root(v: int) -> int {
    choose|r: int| is_fifth_root(r, v)
}

proof fn lemma_fifth_grows(a: int, b: int)
    requires
        0 <= a <= b,
    ensures
        0 <= fifth(a) <= fifth(b),
        a < b ==> fifth(a) < fifth(b),
{
    let a2 = a * a;
    let b2 = b * b;
    assert(0 <= a2 <= b2 && (a < b ==> a2 < b2)) by (nonlinear_arith)
        requires
            0 <= a <= b,
            a2 == a * a,
            b2 == b * b,
    ;
    let a4 = a2 * a2;
    let b4 = b2 * b2;
    assert(0 <= a4 <= b4 && (a < b ==> a4 < b4)) by (nonlinear_arith)
        requires
            0 <= a2 <= b2,
            a < b ==> a2 < b2,
            a4 == a2 * a2,
            b4 == b2 * b2,
    ;
    assert(0 <= a4 * a <= b4 * b && (a < b ==> a4 * a < b4 * b)) by (nonlinear_arith)
        requires
            0 <= a4 <= b4,
            0 <= a <= b,
            a < b ==> a4 < b4,
    ;
    assert(fifth(a) == a4 * a) by (nonlinear_arith)
        requires
            a4 == a2 * a2,
            a2 == a * a,
    ;
    assert(fifth(b) == b4 * b) by (nonlinear_arith)
        requires
            b4 == b2 * b2,
            b2 == b * b,
    ;
}

proof fn lemma_fifth_root_is_unique(r: int, v: int)
    requires
        is_fifth_root(r, v),
    ensures
        r == fifth_root(v),
{
    let s = fifth_root(v);
    assert(is_fifth_root(s, v));
    if r < s {
        lemma_fifth_grows(r + 1, s);
    }
    if s < r {
        lemma_fifth_grows(s + 1, r);
    }
}

fn to_the_fifth(x: u128) -> (v: u128)
    requires
        x <= 1_000_001,
    ensures
        v == fifth(x as int),
{
    assert(x * x <= 1_000_001 * 1_000_001) by (nonlinear_arith)
        requires
            0 <= x <= 1_000_001,
    ;
    let x2: u128 = x * x;
    assert(x2 * x <= 1_000_001 * 1_000_001 * 1_000_001) by (nonlinear_arith)
        requires
            0 <= x <= 1_000_001,
            0 <= x2 <= 1_000_001 * 1_000_001,
    ;
    let x3: u128 = x2 * x;
    assert(x3 * x <= 1_000_001 * 1_000_001 * 1_000_001 * 1_000_001) by (nonlinear_arith)
        requires
            0 <= x <= 1_000_001,
            0 <= x3 <= 1_000_001 * 1_000_001 * 1_000_001,
    ;
    let x4: u128 = x3 * x;
    assert(x4 * x <= 1_000_001 * 1_000_001 * 1_000_001 * 1_000_001 * 1_000_001)
        by (nonlinear_arith)
        requires
            0 <= x <= 1_000_001,
            0 <= x4 <= 1_000_001 * 1_000_001 * 1_000_001 * 1_000_001,
    ;
    x4 * x
}

/// The whole part of the fifth root of a number up to a millionth power of five.
pub fn whole_fifth_root(v: u128) -> (r: u128)
    requires
        v <= 1_000_000_000_000_000_000_000_000_000_000,
    ensures
        r == fifth_root(v as int),
        r <= 1_000_000,
{
    let mut lo: u128 = 0;
    let mut hi: u128 = 1_000_001;
    assert(fifth(1_000_001) > v) by {
        assert(fifth(1_000_001) == 1_000_001 * 1_000_001 * 1_000_001 * 1_000_001 * 1_000_001);
    }
    while hi - lo > 1
        invariant
            0 <= lo < hi <= 1_000_001,
            fifth(lo as int) <= v < fifth(hi as int),
        decreases hi - lo,
    {
        let mid: u128 = lo + (hi - lo) / 2;
        if to_the_fifth(mid) <= v {
            lo = mid;
        } else {
            hi = mid;
        }
    }
    proof {
        lemma_fifth_root_is_unique(lo as int, v as int);
    }
    lo
}

/// The curve of the fades, a share to the power of 1.3: the share times the tenth root of its
/// cube, which is the square root of a fifth root; each root to the millionth below.
pub open spec fn curved(t: int) -> int {
    let fifth_of_cube = fifth_root(t * t * t * 1_000_000_000_000);
    nearest(t * root(fifth_of_cube * 1_000_000), 1_000_000)
}

/// A share in millionths to the power of 1.3.
pub fn curve(t: i128) -> (r: i128)
    requires
        0 <= t <= 1_000_000,
    ensures
        r == curved(t as int),
        0 <= r <= 1_000_000,
{
    assert(0 <= t * t * t <= 1_000_000_000_000_000_000) by (nonlinear_arith)
        requires
            0 <= t <= 1_000_000,
    ;
    assert(0 <= t * t <= 1_000_000_000_000) by (nonlinear_arith)
        requires
            0 <= t <= 1_000_000,
    ;
    let fifth_of_cube: u128 = whole_fifth_root((t * t * t * 1_000_000_000_000) as u128);
    let tenth: i128 = whole_root(fifth_of_cube * 1_000_000) as i128;
    assert(tenth <= 1_000_000) by (nonlinear_arith)
        requires
            is_root(tenth as int, fifth_of_cube * 1_000_000),
            fifth_of_cube <= 1_000_000,
    ;
    assert(0 <= t * tenth <= 1_000_000_000_000) by (nonlinear_arith)
        requires
            0 <= t <= 1_000_000,
            0 <= tenth <= 1_000_000,
    ;
    let r: i128 = div_nearest(t * tenth, 1_000_000);
    assert(r == (2 * (t * tenth) + 1_000_000) / 2_000_000);
    r
}

/// How far a value is on the way from `a` to `b`, in millionths.
pub open spec fn step_between(a: int, b: int, x: int) -> int {
    if a < b {
        within(nearest((x - a) * 1_000_000, b - a), 0, 1_000_000)
    } else if b < a {
        within(nearest((a - x) * 1_000_000, a - b), 0, 1_000_000)
    } else if x > a {
        1_000_000
    } else {
        0
    }
}

/// Past either end, a step is none or the whole one.
proof fn lemma_step_ends(part: int, whole: int)
    requires
        whole > 0,
    ensures
        part <= 0 ==> nearest(part * 1_000_000, whole) <= 0,
        part >= whole ==> nearest(part * 1_000_000, whole) >= 1_000_000,
{
    let n = part * 1_000_000;
    crate::fixed::lemma_nearest_bound(n, whole);
    if part >= whole {
        assert((2 * n + whole) / (2 * whole) >= 1_000_000) by (nonlinear_arith)
            requires
                n >= 1_000_000 * whole,
                whole > 0,
        ;
    }
}

fn linstep(a: i128, b: i128, x: i128) -> (r: i128)
    requires
        magnitude(a as int) <= 4_000_000_000_000_000_000_000_000_000_000,
        magnitude(b as int) <= 4_000_000_000_000_000_000_000_000_000_000,
        magnitude(x as int) <= DEPTH_LIMIT,
    ensures
        r == step_between(a as int, b as int, x as int),
        0 <= r <= 1_000_000,
{
    proof {
        if a < b {
            lemma_step_ends(x - a, b - a);
        } else if b < a {
            lemma_step_ends(a - x, a - b);
        }
    }
    if a < b {
        if x <= a {
            0
        } else if x >= b {
            1_000_000
        } else {
            clip(div_nearest((x - a) * 1_000_000, b - a))
        }
    } else if b < a {
        if x >= a {
            0
        } else if x <= b {
            1_000_000
        } else {
            clip(div_nearest((a - x) * 1_000_000, a - b))
        }
    } else if x > a {
        1_000_000
    } else {
        0
    }
}

fn clip(v: i128) -> (r: i128)
    ensures
        r == within(v as int, 0, 1_000_000),
        0 <= r <= 1_000_000,
{
    if v < 0 {
        0
    } else if v > 1_000_000 {
        1_000_000
    } else {
        v
    }
}

/// How far a note has faded in: over the first part of the approach; late for the nearsighted.
pub open spec fn fade_in(p: SceneParams, depth: int) -> int {
    let rate = p.approach_rate as int;
    if p.nearsighted {
        curved(step_between(nearest(rate * 3, 5), nearest(rate, 10), depth))
    } else if p.fade_length != 0 {
        curved(
            step_between(
                p.spawn_depth as int,
                nearest(p.spawn_depth * (1_000_000 - p.fade_length), 1_000_000),
                depth,
            ),
        )
    } else {
        1_000_000
    }
}

/// How much of a note has not faded out: to nothing for ghosts, to a fifth for half-ghosts.
pub open spec fn fade_out(p: SceneParams, depth: int) -> int {
    let rate = p.approach_rate as int;
    if p.full_ghost {
        curved(step_between(nearest(rate * 3, 25), nearest(rate * 9, 25), depth))
    } else if p.half_ghost {
        HALFGHOST_FLOOR + nearest(
            curved(step_between(nearest(rate * 3, 50), nearest(rate * 6, 25), depth)) * 800_000,
            1_000_000,
        )
    } else {
        1_000_000
    }
}

/// The opacity of a note at a depth.
pub open spec fn opacity_at(p: SceneParams, depth: int) -> int {
    nearest(lesser(fade_in(p, depth), fade_out(p, depth)) * p.note_opacity, 1_000_000)
}

/// The depth of a note: how far it travels until its time; none once it is over or before it
/// appears.
pub open spec fn depth_at(p: SceneParams, note_ms: int, song_ms: int) -> Option<int> {
    let depth = nearest((note_ms - song_ms) * p.approach_rate, 1000 * p.speed);
    if note_ms < song_ms || depth > p.spawn_depth {
        None
    } else {
        Some(depth)
    }
}

/// How long a note is on its way, in millionths of a millisecond of song time.
pub open spec fn approach_time(p: SceneParams) -> int {
    let n = 1000 * p.spawn_depth * p.speed;
    if p.approach_rate > 0 {
        nearest(n, p.approach_rate as int)
    } else {
        -nearest(n, -p.approach_rate as int)
    }
}

/// The drawn cursor, which stays in the field.
pub open spec fn held_inside(p: SceneParams, at: (int, int)) -> (int, int) {
    let b = p.grid_scale + 500_000 - CURSOR_EDGE_INSET;
    (within(at.0, -b, b), within(at.1, -b, b))
}

/// The speed that a scene takes, from a quarter to three times the normal one.
pub open spec fn taken_speed(speed: int) -> int {
    within(speed, 250_000, 3_000_000)
}

impl SceneParams {
    /// The scene of a player's settings.
    pub fn from_config(c: &SkinConfig) -> (p: SceneParams)
        requires
            magnitude(c.note_scale as int) <= SCENE_LIMIT,
        ensures
            p == scene_of(*c),
    {
        let scale: i128 = c.note_scale as i128;
        let radius: i128 = div_nearest(450_000 * scale, 1_000_000);
        let parallax: i128 = div_nearest(c.parallax as i128 * 25, 1000);
        assert(magnitude(parallax as int) <= magnitude(c.parallax as int)) by {
            let m = magnitude(c.parallax * 25);
            assert(magnitude(parallax as int) == (2 * m + 1000) / 2000);
        }
        assert(magnitude(radius as int) <= SCENE_LIMIT) by {
            let m = magnitude(450_000 * scale);
            assert(magnitude(radius as int) == (2 * m + 1_000_000) / 2_000_000);
        }
        SceneParams {
            fov_y_deg: c.camera_fov,
            eye_z: 3_500_000,
            note_radius: radius as i64,
            spawn_depth: c.spawn_distance,
            approach_rate: c.approach_rate,
            fade_length: c.fade_length,
            parallax: parallax as i64,
            spin: c.spin_camera,
            note_opacity: c.note_opacity,
            half_ghost: c.half_ghost,
            full_ghost: false,
            nearsighted: false,
            grid_scale: 1_000_000,
            speed: 1_000_000,
            near: 10_000,
            far: 1_000_000_000,
        }
    }

    /// Whether the numbers are small enough to work with.
    pub fn is_usable(&self) -> (r: bool)
        ensures
            r == is_scene(*self),
    {
        small(self.spawn_depth) && small(self.approach_rate) && small(self.fade_length) && small(
            self.note_opacity,
        ) && small(self.grid_scale) && 0 < self.speed && self.speed <= SCENE_LIMIT
    }

    /// Slows the approach down in song time by a playback speed, so that it lasts as long on
    /// screen as in the game.
    pub fn apply_speed(&mut self, speed: i64)
        ensures
            *final(self) == (SceneParams {
                speed: taken_speed(speed as int) as i64,
                ..*old(self)
            }),
    {
        self.speed = if speed < 250_000 {
            250_000
        } else if speed > 3_000_000 {
            3_000_000
        } else {
            speed
        };
    }

    /// Takes over the grid of a run, which its mods may have widened.
    pub fn apply_mods(&mut self, mods: &ResolvedMods)
        ensures
            *final(self) == (SceneParams { grid_scale: mods.grid_scale, ..*old(self) }),
    {
        self.grid_scale = mods.grid_scale;
    }

    /// How long a note is on its way, in millionths of a millisecond of song time.
    pub fn approach_ms(&self) -> (ms: i128)
        requires
            is_scene(*self),
            self.approach_rate != 0,
        ensures
            ms == approach_time(*self),
    {
        let d: i128 = 1000 * self.spawn_depth as i128;
        let s: i128 = self.speed as i128;
        assert(magnitude(d * s) <= 1_000_000_000_000_000_000_000_000_000_000_000)
            by (nonlinear_arith)
            requires
                -1_000_000_000_000_000_000 <= d <= 1_000_000_000_000_000_000,
                0 < s <= 1_000_000_000_000_000,
        ;
        let rate: i128 = self.approach_rate as i128;
        if rate > 0 {
            div_nearest(d * s, rate)
        } else {
            -div_nearest(d * s, -rate)
        }
    }

    /// Half the side of the border, just outside the cells.
    pub fn playfield_half(&self) -> (h: i128)
        ensures
            h == self.grid_scale + 520_000,
    {
        self.grid_scale as i128 + 520_000
    }

    /// How far the drawn cursor goes.
    pub fn cursor_bound(&self) -> (b: i128)
        ensures
            b == self.grid_scale + 500_000 - CURSOR_EDGE_INSET,
    {
        self.grid_scale as i128 + 500_000 - CURSOR_EDGE_INSET as i128
    }

    /// The drawn cursor: recorded ones can leave the field.
    pub fn clamp_cursor(&self, at: (i128, i128)) -> (r: (i128, i128))
        requires
            self.grid_scale + 500_000 >= CURSOR_EDGE_INSET,
        ensures
            (r.0 as int, r.1 as int) == held_inside(*self, (at.0 as int, at.1 as int)),
    {
        let b: i128 = self.cursor_bound();
        (bound(at.0, b), bound(at.1, b))
    }

    /// The depth of a note at a song time; none where it is not on screen.
    pub fn note_depth(&self, note_time_ms: i64, song_time_ms: i64) -> (d: Option<i128>)
        requires
            is_scene(*self),
        ensures
            match (d, depth_at(*self, note_time_ms as int, song_time_ms as int)) {
                (Some(a), Some(b)) => a == b,
                (None, None) => true,
                _ => false,
            },
            d matches Some(v) ==> v <= SCENE_LIMIT && magnitude(v as int) <= DEPTH_LIMIT,
    {
        if note_time_ms < song_time_ms {
            return None;
        }
        let ahead: i128 = note_time_ms as i128 - song_time_ms as i128;
        let rate: i128 = self.approach_rate as i128;
        assert(magnitude(ahead * rate) <= 20_000_000_000_000_000_000_000_000_000_000_000)
            by (nonlinear_arith)
            requires
                0 <= ahead <= 0xffff_ffff_ffff_ffff,
                -1_000_000_000_000_000 <= rate <= 1_000_000_000_000_000,
        ;
        let depth: i128 = div_nearest(ahead * rate, 1000 * self.speed as i128);
        if depth > self.spawn_depth as i128 {
            None
        } else {
            Some(depth)
        }
    }

    /// The opacity of a note at a depth, in millionths.
    pub fn note_opacity(&self, depth: i128) -> (o: i128)
        requires
            is_scene(*self),
            magnitude(depth as int) <= DEPTH_LIMIT,
        ensures
            o == opacity_at(*self, depth as int),
    {
        let rate: i128 = self.approach_rate as i128;
        let spawn: i128 = self.spawn_depth as i128;
        let shown: i128 = if self.nearsighted {
            curve(linstep(div_nearest(rate * 3, 5), div_nearest(rate, 10), depth))
        } else if self.fade_length != 0 {
            let rest: i128 = 1_000_000 - self.fade_length as i128;
            assert(magnitude(spawn * rest) <= 3_000_000_000_000_000_000_000_000_000_000)
                by (nonlinear_arith)
                requires
                    -1_000_000_000_000_000 <= spawn <= 1_000_000_000_000_000,
                    -2_000_000_000_000_000 <= rest <= 2_000_000_000_000_000,
            ;
            curve(linstep(spawn, div_nearest(spawn * rest, 1_000_000), depth))
        } else {
            1_000_000
        };
        let left: i128 = if self.full_ghost {
            curve(linstep(div_nearest(rate * 3, 25), div_nearest(rate * 9, 25), depth))
        } else if self.half_ghost {
            let t: i128 = curve(linstep(div_nearest(rate * 3, 50), div_nearest(rate * 6, 25), depth));
            let part: i128 = div_nearest(t * 800_000, 1_000_000);
            assert(part == (2 * (t * 800_000) + 1_000_000) / 2_000_000);
            HALFGHOST_FLOOR as i128 + part
        } else {
            1_000_000
        };
        let share: i128 = if shown < left {
            shown
        } else {
            left
        };
        let own: i128 = self.note_opacity as i128;
        assert(magnitude(share * own) <= 1_000_000_000_000_000_000_000) by (nonlinear_arith)
            requires
                0 <= share <= 1_000_000,
                -1_000_000_000_000_000 <= own <= 1_000_000_000_000_000,
        ;
        div_nearest(share * own, 1_000_000)
    }
}

fn small(v: i64) -> (r: bool)
    ensures
        r == (magnitude(v as int) <= SCENE_LIMIT),
{
    -SCENE_LIMIT <= v && v <= SCENE_LIMIT
}

fn bound(v: i128, b: i128) -> (r: i128)
    requires
        0 <= b < i128::MAX,
    ensures
        r == within(v as int, -b, b as int),
{
    if v < -b {
        -b
    } else if v > b {
        b
    } else {
        v
    }
}

/// The centre of the grid is the origin; columns run to the right and rows downwards.
pub proof fn law_rows_run_down(gx: int, gy: int)
    ensures
        world_of(1_000_000, 1_000_000) == (0int, 0int),
        gx < 1_000_000 <==> world_of(gx, gy).0 < 0,
        gy < 1_000_000 <==> world_of(gx, gy).1 > 0,
{
}

/// A speed mod slows the approach in song time but leaves the fades at their depths.
pub proof fn law_speed_keeps_the_fades(p: SceneParams, speed: i64, depth: int)
    ensures
        opacity_at(SceneParams { speed, ..p }, depth) == opacity_at(p, depth),
{
}

/// At its own time a note is on the plane, and where notes come towards the player it is never
/// in front of it before.
pub proof fn law_notes_arrive_on_time(p: SceneParams, ms: int, t: int)
    requires
        is_scene(p),
        p.spawn_depth >= 0,
    ensures
        depth_at(p, ms, ms) == Some(0int),
        p.approach_rate >= 0 && depth_at(p, ms, t) is Some ==> depth_at(p, ms, t)->0 >= 0,
{
    if p.approach_rate >= 0 && t <= ms {
        let n = (ms - t) * p.approach_rate;
        let d = 1000 * p.speed;
        assert(n >= 0) by (nonlinear_arith)
            requires
                n == (ms - t) * p.approach_rate,
                p.approach_rate >= 0,
                t <= ms,
        ;
        assert((2 * n + d) / (2 * d) >= 0) by (nonlinear_arith)
            requires
                n >= 0,
                d > 0,
        ;
    }
    crate::fixed::lemma_nearest_bound(0, 1000 * p.speed);
    assert((ms - ms) * p.approach_rate == 0) by (nonlinear_arith);
}

/// A note that is no full ghost never fades below the floor of a half-ghost one.
pub proof fn law_half_ghosts_stay_visible(p: SceneParams, depth: int)
    requires
        !p.full_ghost,
    ensures
        fade_out(p, depth) >= HALFGHOST_FLOOR,
{
    let rate = p.approach_rate as int;
    let t = step_between(nearest(rate * 3, 50), nearest(rate * 6, 25), depth);
    lemma_curved_bound(t);
    crate::fixed::lemma_nearest_bound(curved(t) * 800_000, 1_000_000);
}

proof fn lemma_curved_bound(t: int)
    requires
        0 <= t <= 1_000_000,
    ensures
        curved(t) >= 0,
{
    let v = t * t * t * 1_000_000_000_000;
    assert(v >= 0) by (nonlinear_arith)
        requires
            v == t * t * t * 1_000_000_000_000,
            t >= 0,
    ;
    lemma_fifth_root_exists(v);
    let f = fifth_root(v) * 1_000_000;
    lemma_root_exists(f);
    let q = root(f);
    assert(t * q >= 0) by (nonlinear_arith)
        requires
            t >= 0,
            q >= 0,
    ;
    crate::fixed::lemma_nearest_bound(t * q, 1_000_000);
}

proof fn lemma_fifth_root_exists(v: int)
    requires
        0 <= v,
    ensures
        is_fifth_root(fifth_root(v), v),
{
    lemma_fifth_root_up_to(v);
}

proof fn lemma_fifth_root_up_to(v: int)
    requires
        0 <= v,
    ensures
        exists|r: int| is_fifth_root(r, v),
    decreases v,
{
    if v == 0 {
        assert(fifth(0) == 0 && fifth(1) == 1) by (nonlinear_arith);
        assert(is_fifth_root(0, v));
    } else {
        lemma_fifth_root_up_to(v - 1);
        let w = v - 1;
        let r = choose|r: int| is_fifth_root(r, w);
        if v < fifth(r + 1) {
            assert(is_fifth_root(r, v));
        } else {
            lemma_fifth_grows(r + 1, r + 2);
            assert(is_fifth_root(r + 1, v));
        }
    }
}

pub proof fn lemma_root_exists(v: int)
    requires
        0 <= v,
    ensures
        is_root(root(v), v),
{
    lemma_root_up_to(v);
}

proof fn lemma_root_up_to(v: int)
    requires
        0 <= v,
    ensures
        exists|r: int| is_root(r, v),
    decreases v,
{
    if v == 0 {
        assert(is_root(0, v)) by (nonlinear_arith)
            requires
                v == 0,
        ;
    } else {
        lemma_root_up_to(v - 1);
        let w = v - 1;
        let r = choose|r: int| is_root(r, w);
        if v < (r + 1) * (r + 1) {
            assert(is_root(r, v));
        } else {
            assert((r + 1) * (r + 1) < (r + 2) * (r + 2)) by (nonlinear_arith)
                requires
                    r >= 0,
            ;
            assert(is_root(r + 1, v));
        }
    }
}

/// A note is as far away as it still has to travel: its approach rate times the play time left,
/// which the speed shortens. It comes nearer as the song goes on and is gone once its time is past.
pub proof fn law_notes_come_nearer(p: SceneParams, ms: int, t: int, later: int)
    requires
        is_scene(p),
        p.approach_rate >= 0,
        t <= later,
    ensures
        depth_at(p, ms, t) matches Some(d) ==> {
            &&& t <= ms
            &&& d <= p.spawn_depth
            &&& 2 * magnitude(1000 * p.speed * d - p.approach_rate * (ms - t)) <= 1000 * p.speed
        },
        depth_at(p, ms, t) is Some && later <= ms ==> depth_at(p, ms, later) is Some && depth_at(
            p,
            ms,
            later,
        )->0 <= depth_at(p, ms, t)->0,
        t > ms ==> depth_at(p, ms, t) is None,
        t <= ms && 2 * p.approach_rate * (ms - t) <= 1000 * p.speed * (2 * p.spawn_depth - 1)
            ==> depth_at(p, ms, t) is Some,
        t <= ms && 2 * p.approach_rate * (ms - t) > 1000 * p.speed * (2 * p.spawn_depth + 1)
            ==> depth_at(p, ms, t) is None,
{
    let d = 1000 * p.speed;
    let (n, m) = ((ms - t) * p.approach_rate, (ms - later) * p.approach_rate);
    law_rounding_is_closest(n, d);
    assert(m <= n) by (nonlinear_arith)
        requires
            m == (ms - later) * p.approach_rate,
            n == (ms - t) * p.approach_rate,
            t <= later,
            p.approach_rate >= 0,
    ;
    law_rounding_is_monotone(m, n, d);
    assert(p.approach_rate * (ms - t) == n) by (nonlinear_arith)
        requires
            n == (ms - t) * p.approach_rate,
    ;
    assert(2 * p.approach_rate * (ms - t) == 2 * n) by (nonlinear_arith)
        requires
            n == (ms - t) * p.approach_rate,
    ;
    let q = nearest(n, d);
    let s = p.spawn_depth as int;
    assert(2 * n <= d * (2 * s - 1) ==> q <= s) by (nonlinear_arith)
        requires
            2 * magnitude(d * q - n) <= d,
            d > 0,
    ;
    assert(2 * n > d * (2 * s + 1) ==> q > s) by (nonlinear_arith)
        requires
            2 * magnitude(d * q - n) <= d,
            d > 0,
    ;
}

/// A step goes from 0 at the one bound to 1 at the other, whichever is the greater, and never leaves
/// these.
pub proof fn law_steps_go_from_bound_to_bound(a: int, b: int, x: int, y: int)
    requires
        a != b,
    ensures
        step_between(a, b, a) == 0,
        step_between(a, b, b) == 1_000_000,
        0 <= step_between(a, b, x) <= 1_000_000,
        a < b && x <= a ==> step_between(a, b, x) == 0,
        a < b && x >= b ==> step_between(a, b, x) == 1_000_000,
        a > b && x >= a ==> step_between(a, b, x) == 0,
        a > b && x <= b ==> step_between(a, b, x) == 1_000_000,
        a < b && x <= y ==> step_between(a, b, x) <= step_between(a, b, y),
        a > b && x <= y ==> step_between(a, b, x) >= step_between(a, b, y),
{
    if a < b {
        lemma_step_ends(0, b - a);
        lemma_step_ends(b - a, b - a);
        lemma_step_ends(x - a, b - a);
        if x <= y {
            law_rounding_is_monotone((x - a) * 1_000_000, (y - a) * 1_000_000, b - a);
        }
    } else {
        lemma_step_ends(0, a - b);
        lemma_step_ends(a - b, a - b);
        lemma_step_ends(a - x, a - b);
        if x <= y {
            law_rounding_is_monotone((a - y) * 1_000_000, (a - x) * 1_000_000, a - b);
        }
    }
}

/// The curve of the fades starts at nothing, ends at full, and only rises.
pub proof fn law_fades_only_rise(t: int, more: int)
    requires
        0 <= t <= more <= 1_000_000,
    ensures
        curved(0) == 0,
        curved(1_000_000) == 1_000_000,
        0 <= curved(t) <= curved(more) <= 1_000_000,
{
    lemma_curved_rises(0, t);
    lemma_curved_rises(t, more);
    lemma_curved_rises(more, 1_000_000);
    assert(curved(0) == 0) by {
        let r = root(fifth_root(0) * 1_000_000);
        assert(0 * r == 1_000_000 * 0) by (nonlinear_arith);
        law_rounding_keeps_whole_numbers(0, 0, 1_000_000);
    }
    assert(curved(1_000_000) == 1_000_000) by {
        let v = 1_000_000 * 1_000_000 * 1_000_000 * 1_000_000_000_000int;
        assert(is_fifth_root(1_000_000, v)) by {
            assert(fifth(1_000_000) == v);
            assert(fifth(1_000_001) > v);
        }
        lemma_fifth_root_is_unique(1_000_000, v);
        lemma_root_of(1_000_000_000_000);
        let r = root(1_000_000_000_000);
        assert(r == 1_000_000) by (nonlinear_arith)
            requires
                r >= 0,
                r * r <= 1_000_000_000_000,
                1_000_000_000_000 < (r + 1) * (r + 1),
        ;
        law_rounding_keeps_whole_numbers(1_000_000, 0, 1_000_000);
    }
}

proof fn lemma_curved_rises(a: int, b: int)
    requires
        0 <= a <= b <= 1_000_000,
    ensures
        curved(a) <= curved(b),
{
    let (va, vb) = (a * a * a * 1_000_000_000_000, b * b * b * 1_000_000_000_000);
    assert(0 <= a * a * a <= b * b * b) by {
        assert(0 <= a * a <= b * b) by (nonlinear_arith)
            requires
                0 <= a <= b,
        ;
        assert(0 <= (a * a) * a <= (b * b) * b) by (nonlinear_arith)
            requires
                0 <= a <= b,
                0 <= a * a <= b * b,
        ;
    }
    lemma_fifth_root_exists(va);
    lemma_fifth_root_exists(vb);
    let (fa, fb) = (fifth_root(va), fifth_root(vb));
    assert(fa <= fb) by {
        if fa > fb {
            lemma_fifth_grows(fb + 1, fa);
        }
    }
    lemma_root_of(fa * 1_000_000);
    lemma_root_of(fb * 1_000_000);
    let (ra, rb) = (root(fa * 1_000_000), root(fb * 1_000_000));
    let (u, v) = (fa * 1_000_000, fb * 1_000_000);
    assert(ra <= rb) by (nonlinear_arith)
        requires
            ra >= 0,
            rb >= 0,
            ra * ra <= u,
            u <= v,
            v < (rb + 1) * (rb + 1),
    ;
    assert(a * ra <= b * rb) by (nonlinear_arith)
        requires
            0 <= a <= b,
            0 <= ra <= rb,
    ;
    law_rounding_is_monotone(a * ra, b * rb, 1_000_000);
}

/// A note appears out of nothing where it spawns and is fully there after its share of the way;
/// nearsighted, it is hidden until six tenths of a second of travel are left and fully there from
/// a tenth on. It only gains as it comes nearer.
pub proof fn law_notes_fade_in(p: SceneParams, depth: int, nearer: int)
    requires
        p.approach_rate > 10,
        p.spawn_depth > 0,
        nearer <= depth,
    ensures
        !p.nearsighted && 0 < p.fade_length <= 1_000_000 && p.spawn_depth * p.fade_length
            >= 1_000_000 ==> {
            &&& depth >= p.spawn_depth ==> fade_in(p, depth) == 0
            &&& 1_000_000 * (depth + 1) <= p.spawn_depth * (1_000_000 - p.fade_length) ==> fade_in(
                p,
                depth,
            ) == 1_000_000
            &&& fade_in(p, depth) <= fade_in(p, nearer)
        },
        !p.nearsighted && p.fade_length == 0 ==> fade_in(p, depth) == 1_000_000,
        p.nearsighted ==> {
            &&& 5 * (depth - 1) >= 3 * p.approach_rate ==> fade_in(p, depth) == 0
            &&& 10 * (depth + 1) <= p.approach_rate ==> fade_in(p, depth) == 1_000_000
            &&& fade_in(p, depth) <= fade_in(p, nearer)
        },
{
    let rate = p.approach_rate as int;
    if p.nearsighted {
        let (a, b) = (nearest(rate * 3, 5), nearest(rate, 10));
        law_rounding_is_closest(rate * 3, 5);
        law_rounding_is_closest(rate, 10);
        law_steps_go_from_bound_to_bound(a, b, depth, depth);
        law_steps_go_from_bound_to_bound(a, b, nearer, depth);
        law_fades_only_rise(step_between(a, b, depth), step_between(a, b, nearer));
    } else if 0 < p.fade_length <= 1_000_000 && p.spawn_depth * p.fade_length >= 1_000_000 {
        let a = p.spawn_depth as int;
        let n = p.spawn_depth * (1_000_000 - p.fade_length);
        let b = nearest(n, 1_000_000);
        law_rounding_is_closest(n, 1_000_000);
        assert(n == 1_000_000 * a - p.spawn_depth * p.fade_length) by (nonlinear_arith)
            requires
                n == p.spawn_depth * (1_000_000 - p.fade_length),
                a == p.spawn_depth,
        ;
        law_steps_go_from_bound_to_bound(a, b, depth, depth);
        law_steps_go_from_bound_to_bound(a, b, nearer, depth);
        law_fades_only_rise(step_between(a, b, depth), step_between(a, b, nearer));
    }
}

/// A ghost note is gone in the last 0.12 s of travel and untouched until 0.36 s are left; a half
/// ghost keeps a fifth in the last 0.06 s and is untouched until 0.24 s are left; other notes do not
/// fade out. What is nearer is never plainer.
pub proof fn law_ghosts_fade_out(p: SceneParams, depth: int, nearer: int)
    requires
        p.approach_rate > 100,
        nearer <= depth,
    ensures
        p.full_ghost ==> {
            &&& 25 * (depth + 1) <= 3 * p.approach_rate ==> fade_out(p, depth) == 0
            &&& 25 * (depth - 1) >= 9 * p.approach_rate ==> fade_out(p, depth) == 1_000_000
            &&& fade_out(p, nearer) <= fade_out(p, depth)
        },
        !p.full_ghost && p.half_ghost ==> {
            &&& 50 * (depth + 1) <= 3 * p.approach_rate ==> fade_out(p, depth) == 200_000
            &&& 25 * (depth - 1) >= 6 * p.approach_rate ==> fade_out(p, depth) == 1_000_000
            &&& fade_out(p, nearer) <= fade_out(p, depth)
        },
        !p.full_ghost && !p.half_ghost ==> fade_out(p, depth) == 1_000_000,
{
    let rate = p.approach_rate as int;
    if p.full_ghost {
        let (a, b) = (nearest(rate * 3, 25), nearest(rate * 9, 25));
        law_rounding_is_closest(rate * 3, 25);
        law_rounding_is_closest(rate * 9, 25);
        law_steps_go_from_bound_to_bound(a, b, depth, depth);
        law_steps_go_from_bound_to_bound(a, b, nearer, depth);
        law_fades_only_rise(step_between(a, b, nearer), step_between(a, b, depth));
    } else if p.half_ghost {
        let (a, b) = (nearest(rate * 3, 50), nearest(rate * 6, 25));
        law_rounding_is_closest(rate * 3, 50);
        law_rounding_is_closest(rate * 6, 25);
        law_steps_go_from_bound_to_bound(a, b, depth, depth);
        law_steps_go_from_bound_to_bound(a, b, nearer, depth);
        let (u, v) = (step_between(a, b, nearer), step_between(a, b, depth));
        law_fades_only_rise(u, v);
        law_rounding_is_monotone(curved(u) * 800_000, curved(v) * 800_000, 1_000_000);
        law_rounding_keeps_whole_numbers(800_000, 0, 1_000_000);
        law_rounding_keeps_whole_numbers(0, 0, 1_000_000);
    }
}

/// A note is no plainer than its opacity, has all of it where nothing fades it, and none where a
/// fade hides it.
pub proof fn law_opacity_is_bounded(p: SceneParams, depth: int)
    requires
        p.note_opacity >= 0,
    ensures
        fade_in(p, depth) == 1_000_000 && fade_out(p, depth) == 1_000_000 ==> opacity_at(p, depth)
            == p.note_opacity,
        fade_in(p, depth) == 0 && fade_out(p, depth) >= 0 ==> opacity_at(p, depth) == 0,
        fade_out(p, depth) == 0 && fade_in(p, depth) >= 0 ==> opacity_at(p, depth) == 0,
        fade_in(p, depth) <= 1_000_000 ==> opacity_at(p, depth) <= p.note_opacity,
{
    let f = lesser(fade_in(p, depth), fade_out(p, depth));
    let o = p.note_opacity as int;
    law_rounding_keeps_whole_numbers(o, 0, 1_000_000);
    law_rounding_keeps_whole_numbers(0, 0, 1_000_000);
    assert(0 * o == 0) by (nonlinear_arith);
    if f <= 1_000_000 {
        assert(f * o <= 1_000_000 * o) by (nonlinear_arith)
            requires
                f <= 1_000_000,
                o >= 0,
        ;
        law_rounding_is_monotone(f * o, 1_000_000 * o, 1_000_000);
    }
}

/// The scene takes what the settings say: notes of normal size are 0.45 cells to each side and
/// grow with their scale; rate, distance, fade and view are those of the settings.
pub proof fn law_scenes_follow_the_settings(c: SkinConfig)
    requires
        magnitude(c.note_scale as int) <= SCENE_LIMIT,
    ensures
        2 * magnitude(scene_of(c).note_radius * 1_000_000 - 450_000 * c.note_scale) <= 1_000_000,
        c.note_scale == 1_000_000 ==> scene_of(c).note_radius == 450_000,
        scene_of(c).approach_rate == c.approach_rate,
        scene_of(c).spawn_depth == c.spawn_distance,
        scene_of(c).fade_length == c.fade_length,
        scene_of(c).fov_y_deg == c.camera_fov,
        scene_of(c).note_opacity == c.note_opacity,
        scene_of(c).half_ghost == c.half_ghost,
        scene_of(c).spin == c.spin_camera,
        scene_of(c).speed == 1_000_000,
        scene_of(c).grid_scale == 1_000_000,
{
    law_rounding_is_closest(450_000 * c.note_scale, 1_000_000);
}

/// Greater numbers have no smaller fifth root.
pub proof fn lemma_fifth_roots_rise(a: int, b: int)
    requires
        0 <= a <= b,
    ensures
        0 <= fifth_root(a) <= fifth_root(b),
{
    lemma_fifth_root_exists(a);
    lemma_fifth_root_exists(b);
    if fifth_root(a) > fifth_root(b) {
        lemma_fifth_grows(fifth_root(b) + 1, fifth_root(a));
    }
}

/// The fifth root of a full step is a full step.
pub proof fn lemma_fifth_root_of_one()
    ensures
        fifth_root(1_000_000int * 1_000_000 * 1_000_000 * 1_000_000 * 1_000_000) == 1_000_000,
{
    let v = 1_000_000int * 1_000_000 * 1_000_000 * 1_000_000 * 1_000_000;
    assert(is_fifth_root(1_000_000, v)) by {
        assert(fifth(1_000_000) == v);
        assert(fifth(1_000_001) > v);
    }
    lemma_fifth_root_is_unique(1_000_000, v);
}

/// A note is on its way for as long as it takes to come from where it spawns: so long before its
/// time it is there, to the rounding.
pub proof fn law_notes_spawn_one_approach_ahead(p: SceneParams, ms: int)
    requires
        is_scene(p),
        p.approach_rate > 0,
        p.spawn_depth >= 0,
    ensures
        2 * magnitude(p.approach_rate * approach_time(p) - 1000 * p.spawn_depth * p.speed)
            <= p.approach_rate,
        approach_time(p) >= 0,
        ({
            let t = approach_time(p);
            let d = nearest((ms - (ms - t)) * p.approach_rate, 1000 * p.speed);
            2 * magnitude(1000 * p.speed * (d - p.spawn_depth)) <= 1000 * p.speed + p.approach_rate
        }),
{
    let n = 1000 * p.spawn_depth * p.speed;
    let (r, v) = (p.approach_rate as int, 1000 * p.speed);
    assert(n >= 0) by (nonlinear_arith)
        requires
            n == 1000 * p.spawn_depth * p.speed,
            p.spawn_depth >= 0,
            p.speed > 0,
    ;
    law_rounding_is_closest(n, r);
    law_rounding_is_monotone(0, n, r);
    law_rounding_keeps_whole_numbers(0, 0, r);
    let t = approach_time(p);
    assert((ms - (ms - t)) * r == r * t) by (nonlinear_arith);
    let d = nearest(r * t, v);
    law_rounding_is_closest(r * t, v);
    assert(v * (d - p.spawn_depth) == v * d - n) by (nonlinear_arith)
        requires
            n == 1000 * p.spawn_depth * p.speed,
            v == 1000 * p.speed,
    ;
}

/// The cursor is drawn where it is as long as it is in the field, and at the edge where it leaves it,
/// in both directions alike; the edge lies within the border.
pub proof fn law_the_cursor_stays_in_the_field(p: SceneParams, x: int, y: int)
    requires
        p.grid_scale >= 0,
    ensures
        ({
            let b = p.grid_scale + 368_750;
            let (u, v) = held_inside(p, (x, y));
            &&& -b <= u <= b && -b <= v <= b
            &&& -b <= x <= b ==> u == x
            &&& -b <= y <= b ==> v == y
            &&& x > b ==> u == b
            &&& y > b ==> v == b
            &&& x < -b ==> u == -b
            &&& y < -b ==> v == -b
            &&& held_inside(p, (y, x)) == (v, u)
            &&& b < p.grid_scale + 520_000
        }),
{
}

} // verus!
