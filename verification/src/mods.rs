//! Geometry mods recorded in a replay, applied to the note grid so that the render
//! shows the field the player actually saw. Speed mods are in the replay's frame
//! times already. Chaos randomises positions with a seed that the replay does not
//! store, and is left as it is.

use vstd::prelude::*;

use crate::fixed::{between, interpolate, magnitude, nearest, COORDINATE_LIMIT, ONE};
use crate::hitreg::{
    attribution, first_not_before, flagged, law_flags_are_shared_out, match_hits_timing_only,
    MatchOutcome, DEFAULT_WINDOW_MS,
};
use crate::replay::{frames_in_range, notes_in_range, Beatmap, Frame, Note, Replay};
use crate::text::same_text;
use crate::timebase::{scale_time, scaled_time};

verus! {

/// Hardrock scales the note grid outward around its centre by this much, in
/// millionths.
pub const HARDROCK_GRID_SCALE: i64 = 1_150_000;

/// What was applied to the notes.
#[derive(Debug, Clone, Copy, PartialEq, Eq, Structural)]
pub struct ResolvedMods {
    /// Half the extent of the grid that this run was played on, in millionths.
    pub grid_scale: i64,
    /// Whether the notes were mirrored left to right.
    pub flip_x: bool,
    /// Whether the notes were mirrored top to bottom.
    pub flip_y: bool,
}

impl ResolvedMods {
    /// Nothing applied.
    pub open spec fn nothing() -> ResolvedMods {
        ResolvedMods { grid_scale: ONE, flip_x: false, flip_y: false }
    }

    /// Nothing applied.
    pub fn none() -> (r: ResolvedMods)
        ensures
            r == ResolvedMods::nothing(),
    {
        ResolvedMods { grid_scale: ONE, flip_x: false, flip_y: false }
    }
}

/// The texts of a list.
pub open spec fn texts(list: Seq<String>) -> Seq<Seq<char>> {
    Seq::new(list.len(), |i: int| list[i]@)
}

/// What `serde_json::from_str` reads from a text as a list of texts; none where it
/// reports an error.
pub uninterp spec fn json_names(text: Seq<char>) -> Option<Seq<Seq<char>>>;

/// `serde_json::from_str` into a list of texts. The result is the list that the
/// text holds as JSON, or none where it is not such a list; it depends on the text
/// alone.
#[verifier::external_body]
pub(crate) fn read_json_names(text: &str) -> (names: Option<Vec<String>>)
    ensures
        names is Some == json_names(text@) is Some,
        names is Some ==> texts(names->0@) == json_names(text@)->0,
{
    serde_json::from_str::<Vec<String>>(text).ok()
}

/// The names of the mods in a replay's list; none where it cannot be read.
pub open spec fn mod_names(mods: Seq<char>) -> Seq<Seq<char>> {
    match json_names(mods) {
        Some(names) => names,
        None => Seq::empty(),
    }
}

/// The names of the mods of a replay.
pub fn mod_list(replay: &Replay) -> (names: Vec<String>)
    ensures
        texts(names@) == mod_names(replay.mods@),
{
    match read_json_names(replay.mods.as_str()) {
        Some(names) => names,
        None => {
            let names: Vec<String> = Vec::new();
            assert(texts(names@) =~= Seq::empty());
            names
        },
    }
}

/// Whether a mod is in a list of names.
pub open spec fn has(names: Seq<Seq<char>>, name: Seq<char>) -> bool {
    exists|i: int| 0 <= i < names.len() && #[trigger] names[i] == name
}

/// Whether a mod is in a list of names.
pub fn has_mod(names: &[String], name: &str) -> (r: bool)
    ensures
        r == has(texts(names@), name@),
{
    let mut i: usize = 0;
    while i < names.len()
        invariant
            i <= names@.len(),
            forall|j: int| 0 <= j < i ==> #[trigger] texts(names@)[j] != name@,
        decreases names@.len() - i,
    {
        if same_text(names[i].as_str(), name) {
            assert(texts(names@)[i as int] == name@);
            return true;
        }
        i = i + 1;
    }
    false
}

/// The cursor at a song time: that of the first frame at the time, the nearest end
/// outside the recording, and in between the straight line between two frames.
pub open spec fn cursor(frames: Seq<Frame>, ms: int) -> (int, int) {
    let i = first_not_before(frames, 0, ms);
    if frames.len() == 0 {
        (0, 0)
    } else if i == frames.len() {
        (frames.last().x as int, frames.last().y as int)
    } else if i == 0 || frames[i].ms == ms {
        (frames[i].x as int, frames[i].y as int)
    } else {
        let a = frames[i - 1];
        let b = frames[i];
        let part = ms - a.ms;
        let whole = b.ms - a.ms;
        (
            between(a.x as int, b.x as int, part, whole),
            between(a.y as int, b.y as int, part, whole),
        )
    }
}

/// The whole part of a square root.
pub open spec fn is_root(r: int, v: int) -> bool {
    &&& r >= 0
    &&& r * r <= v
    &&& v < (r + 1) * (r + 1)
}

/// The distance of the cursor at a song time from a note, with the note mirrored or
/// not, in whole millionths of a world unit: its square.
pub open spec fn distance_squared(
    frames: Seq<Frame>,
    ms: int,
    note: Note,
    flip_x: bool,
    flip_y: bool,
) -> int {
    let (cx, cy) = cursor(frames, ms);
    let gx = if flip_x {
        2 * ONE - note.x
    } else {
        note.x as int
    };
    let gy = if flip_y {
        2 * ONE - note.y
    } else {
        note.y as int
    };
    let dx = cx - (gx - ONE);
    let dy = cy - (ONE - gy);
    dx * dx + dy * dy
}

/// The root of a square, to the whole millionth below.
pub open spec fn root(v: int) -> int {
    choose|r: int| is_root(r, v)
}

/// The distances of the cursor from the first `n` notes at the moments they were
/// hit, added up. `times` holds the hit time of each note that was hit.
pub open spec fn flip_cost(
    notes: Seq<Note>,
    frames: Seq<Frame>,
    times: Seq<Option<i64>>,
    flip_x: bool,
    flip_y: bool,
    n: nat,
) -> int
    decreases n,
{
    if n == 0 {
        0
    } else {
        flip_cost(notes, frames, times, flip_x, flip_y, (n - 1) as nat) + match times[n - 1] {
            Some(ms) => root(distance_squared(frames, ms as int, notes[n - 1], flip_x, flip_y)),
            None => 0,
        }
    }
}

/// When each note was hit, by timing alone.
pub open spec fn hit_times(notes: Seq<Note>, frames: Seq<Frame>) -> Seq<Option<i64>> {
    let owned = attribution(notes, frames, DEFAULT_WINDOW_MS as int, false);
    let flags = flagged(frames);
    Seq::new(
        notes.len(),
        |i: int|
            match owned[i] {
                Some(k) => Some(flags[k].ms),
                None => None::<i64>,
            },
    )
}

/// The cheapest of four flips, the later one where two cost the same. The order is
/// none, rows, columns, both.
pub open spec fn cheapest(none: int, rows: int, columns: int, both: int) -> (bool, bool) {
    if both <= none && both <= rows && both <= columns {
        (true, true)
    } else if columns <= none && columns <= rows {
        (true, false)
    } else if rows <= none {
        (false, true)
    } else {
        (false, false)
    }
}

/// The flip whose note positions best match the cursor at the moments of the hits;
/// the fallback where nothing was hit.
pub open spec fn flip_of(
    notes: Seq<Note>,
    frames: Seq<Frame>,
    fallback: (bool, bool),
) -> (bool, bool) {
    let times = hit_times(notes, frames);
    let n = notes.len();
    if forall|i: int| 0 <= i < n ==> #[trigger] times[i] is None {
        fallback
    } else {
        cheapest(
            flip_cost(notes, frames, times, false, false, n),
            flip_cost(notes, frames, times, false, true, n),
            flip_cost(notes, frames, times, true, false, n),
            flip_cost(notes, frames, times, true, true, n),
        )
    }
}

/// Whether distances can be measured: every coordinate is within the limit.
pub open spec fn measurable(notes: Seq<Note>, frames: Seq<Frame>) -> bool {
    notes_in_range(notes) && frames_in_range(frames)
}

proof fn lemma_root_is_unique(a: int, b: int, v: int)
    requires
        is_root(a, v),
        is_root(b, v),
    ensures
        a == b,
{
    if a < b {
        assert((a + 1) * (a + 1) <= b * b) by (nonlinear_arith)
            requires
                0 <= a < b,
        ;
    } else if b < a {
        assert((b + 1) * (b + 1) <= a * a) by (nonlinear_arith)
            requires
                0 <= b < a,
        ;
    }
}

/// The whole part of a square root.
pub fn whole_root(v: u128) -> (r: u64)
    ensures
        is_root(r as int, v as int),
        r == root(v as int),
{
    let mut lo: u128 = 0;
    let mut hi: u128 = 0x1_0000_0000_0000_0000;
    assert(v < hi * hi) by (nonlinear_arith)
        requires
            hi == 0x1_0000_0000_0000_0000,
            v <= u128::MAX,
    ;
    while hi - lo > 1
        invariant
            0 <= lo < hi <= 0x1_0000_0000_0000_0000,
            lo * lo <= v < hi * hi,
        decreases hi - lo,
    {
        let mid: u128 = lo + (hi - lo) / 2;
        assert(mid * mid <= 0xffff_ffff_ffff_ffff * 0xffff_ffff_ffff_ffff) by (nonlinear_arith)
            requires
                0 <= mid <= 0xffff_ffff_ffff_ffff,
        ;
        if mid * mid <= v {
            lo = mid;
        } else {
            hi = mid;
        }
    }
    proof {
        assert(hi == lo + 1);
        assert(is_root(lo as int, v as int));
        lemma_root_is_unique(lo as int, root(v as int), v as int);
    }
    lo as u64
}

/// The cursor at a song time.
pub fn cursor_at(frames: &[Frame], ms: i64) -> (at: (i128, i128))
    requires
        frames_in_range(frames@),
    ensures
        at.0 == cursor(frames@, ms as int).0,
        at.1 == cursor(frames@, ms as int).1,
        magnitude(at.0 as int) <= 3 * COORDINATE_LIMIT,
        magnitude(at.1 as int) <= 3 * COORDINATE_LIMIT,
{
    if frames.len() == 0 {
        return (0, 0);
    }
    let mut i: usize = 0;
    while i < frames.len() && frames[i].ms < ms
        invariant
            i <= frames@.len(),
            first_not_before(frames@, 0, ms as int) == first_not_before(
                frames@,
                i as int,
                ms as int,
            ),
            i > 0 ==> frames@[i - 1].ms < ms,
        decreases frames@.len() - i,
    {
        i = i + 1;
    }
    if i == frames.len() {
        let f: Frame = frames[i - 1];
        return (f.x as i128, f.y as i128);
    }
    if i == 0 || frames[i].ms == ms {
        let f: Frame = frames[i];
        return (f.x as i128, f.y as i128);
    }
    let a: Frame = frames[i - 1];
    let b: Frame = frames[i];
    let part: i128 = ms as i128 - a.ms as i128;
    let whole: i128 = b.ms as i128 - a.ms as i128;
    (interpolate(a.x, b.x, part, whole), interpolate(a.y, b.y, part, whole))
}

fn distance(cx: i128, cy: i128, note: &Note, flip_x: bool, flip_y: bool) -> (d: u64)
    requires
        magnitude(cx as int) <= 3 * COORDINATE_LIMIT,
        magnitude(cy as int) <= 3 * COORDINATE_LIMIT,
        magnitude(note.x as int) <= COORDINATE_LIMIT,
        magnitude(note.y as int) <= COORDINATE_LIMIT,
    ensures
        d == root(
            {
                let gx = if flip_x {
                    2 * ONE - note.x
                } else {
                    note.x as int
                };
                let gy = if flip_y {
                    2 * ONE - note.y
                } else {
                    note.y as int
                };
                let dx = cx - (gx - ONE);
                let dy = cy - (ONE - gy);
                dx * dx + dy * dy
            },
        ),
{
    let one: i128 = ONE as i128;
    let gx: i128 = if flip_x {
        2 * one - note.x as i128
    } else {
        note.x as i128
    };
    let gy: i128 = if flip_y {
        2 * one - note.y as i128
    } else {
        note.y as i128
    };
    let dx: i128 = cx - (gx - one);
    let dy: i128 = cy - (one - gy);
    assert(0 <= dx * dx <= 17_000_000_000_000_000_000_000_000_000_000_000_000) by (nonlinear_arith)
        requires
            -4_100_000_000_000_000_000 <= dx <= 4_100_000_000_000_000_000,
    ;
    assert(0 <= dy * dy <= 17_000_000_000_000_000_000_000_000_000_000_000_000) by (nonlinear_arith)
        requires
            -4_100_000_000_000_000_000 <= dy <= 4_100_000_000_000_000_000,
    ;
    whole_root((dx * dx + dy * dy) as u128)
}

/// The flip that the run itself shows. The mirror axis is a setting of the game that
/// the replay does not store: the cursor followed the mirrored notes.
pub fn detect_flip(notes: &[Note], frames: &[Frame], fallback: (bool, bool)) -> (flip: (bool, bool))
    requires
        frames@.len() <= u32::MAX,
        measurable(notes@, frames@),
    ensures
        flip == flip_of(notes@, frames@, fallback),
{
    let outcome: MatchOutcome = match_hits_timing_only(notes, frames, DEFAULT_WINDOW_MS);
    let ghost times = hit_times(notes@, frames@);
    let mut none: u128 = 0;
    let mut rows: u128 = 0;
    let mut columns: u128 = 0;
    let mut both: u128 = 0;
    let mut any: bool = false;
    let mut i: usize = 0;
    proof {
        law_flags_are_shared_out(notes@, frames@, DEFAULT_WINDOW_MS as int, false);
    }
    while i < notes.len()
        invariant
            i <= notes@.len(),
            measurable(notes@, frames@),
            times == hit_times(notes@, frames@),
            outcome.results@.len() == notes@.len(),
            forall|j: int|
                0 <= j < notes@.len() ==> (#[trigger] outcome.results@[j]).hit_ms == times[j],
            none == flip_cost(notes@, frames@, times, false, false, i as nat),
            rows == flip_cost(notes@, frames@, times, false, true, i as nat),
            columns == flip_cost(notes@, frames@, times, true, false, i as nat),
            both == flip_cost(notes@, frames@, times, true, true, i as nat),
            none <= i * 0xffff_ffff_ffff_ffff,
            rows <= i * 0xffff_ffff_ffff_ffff,
            columns <= i * 0xffff_ffff_ffff_ffff,
            both <= i * 0xffff_ffff_ffff_ffff,
            any == exists|j: int| 0 <= j < i && #[trigger] times[j] is Some,
        decreases notes@.len() - i,
    {
        assert(outcome.results@[i as int].hit_ms == times[i as int]);
        if let Some(ms) = outcome.results[i].hit_ms {
            let (cx, cy) = cursor_at(frames, ms);
            let note: Note = notes[i];
            assert(i * 0xffff_ffff_ffff_ffff + 0xffff_ffff_ffff_ffff <= u128::MAX) by (nonlinear_arith)
                requires
                    i <= 0xffff_ffff_ffff_fffe,
            ;
            none = none + distance(cx, cy, &note, false, false) as u128;
            rows = rows + distance(cx, cy, &note, false, true) as u128;
            columns = columns + distance(cx, cy, &note, true, false) as u128;
            both = both + distance(cx, cy, &note, true, true) as u128;
            any = true;
            assert(times[i as int] is Some);
        }
        i = i + 1;
    }
    if !any {
        assert(forall|j: int| 0 <= j < notes@.len() ==> #[trigger] times[j] is None);
        return fallback;
    }
    if both <= none && both <= rows && both <= columns {
        (true, true)
    } else if columns <= none && columns <= rows {
        (true, false)
    } else if rows <= none {
        (false, true)
    } else {
        (false, false)
    }
}

/// What a list of mods does to the notes of a run.
pub open spec fn resolved(
    names: Seq<Seq<char>>,
    notes: Seq<Note>,
    frames: Seq<Frame>,
) -> ResolvedMods {
    let double = has(names, "mod_double_mirror"@);
    let flip = if has(names, "mod_mirror"@) || double {
        flip_of(notes, frames, (true, double))
    } else {
        (false, false)
    };
    ResolvedMods {
        grid_scale: if has(names, "mod_hardrock"@) {
            HARDROCK_GRID_SCALE
        } else {
            ONE
        },
        flip_x: flip.0,
        flip_y: flip.1,
    }
}

/// A coordinate on the grid of a run.
pub open spec fn placed(v: i64, flip: bool, scale: i64) -> int {
    let m = if flip {
        2 * ONE - v
    } else {
        v as int
    };
    ONE + scaled_time(m - ONE, scale as int)
}

/// A note on the grid of a run.
pub open spec fn placed_note(note: Note, mods: ResolvedMods) -> Note {
    Note {
        time_ms: note.time_ms,
        x: placed(note.x, mods.flip_x, mods.grid_scale) as i64,
        y: placed(note.y, mods.flip_y, mods.grid_scale) as i64,
    }
}

/// Notes on the grid of a run.
pub open spec fn placed_notes(notes: Seq<Note>, mods: ResolvedMods) -> Seq<Note> {
    Seq::new(notes.len(), |i: int| placed_note(notes[i], mods))
}

fn place(v: i64, flip: bool, scale: i64) -> (r: i64)
    requires
        magnitude(v as int) <= COORDINATE_LIMIT,
        scale == ONE || scale == HARDROCK_GRID_SCALE,
    ensures
        r == placed(v, flip, scale),
{
    let m: i64 = if flip {
        2 * ONE - v
    } else {
        v
    };
    let t: i64 = scale_time(m - ONE, scale);
    proof {
        lemma_placed_bound((m - ONE) as int, scale as int);
    }
    ONE + t
}

proof fn lemma_placed_bound(m: int, scale: int)
    requires
        magnitude(m) <= COORDINATE_LIMIT + 2 * ONE,
        scale == ONE || scale == HARDROCK_GRID_SCALE,
    ensures
        magnitude(scaled_time(m, scale)) <= 2 * magnitude(m) + 1,
        scale == ONE ==> scaled_time(m, scale) == m,
{
    let n = m * scale;
    assert(n == m * 1_000_000 || n == m * 1_150_000);
    assert(2 * (ONE as int) == 2_000_000);
    if n >= 0 {
        assert(nearest(n, ONE as int) == (2 * n + 1_000_000) / 2_000_000);
    } else {
        assert(nearest(n, ONE as int) == -((2 * -n + 1_000_000) / 2_000_000));
    }
}

/// Applies a list of mods to the notes of a run: mirror flips and the hardrock
/// spread.
pub fn apply_mods(names: &[String], notes: &[Note], frames: &[Frame]) -> (r: (
    Vec<Note>,
    ResolvedMods,
))
    requires
        frames@.len() <= u32::MAX,
        measurable(notes@, frames@),
    ensures
        r.1 == resolved(texts(names@), notes@, frames@),
        r.0@ == placed_notes(notes@, r.1),
{
    let double: bool = has_mod(names, "mod_double_mirror");
    let mirror: bool = has_mod(names, "mod_mirror");
    let hardrock: bool = has_mod(names, "mod_hardrock");
    let mut mods: ResolvedMods = ResolvedMods::none();
    if mirror || double {
        let flip: (bool, bool) = detect_flip(notes, frames, (true, double));
        mods.flip_x = flip.0;
        mods.flip_y = flip.1;
    }
    if hardrock {
        mods.grid_scale = HARDROCK_GRID_SCALE;
    }
    let mut out: Vec<Note> = Vec::new();
    let mut i: usize = 0;
    while i < notes.len()
        invariant
            i <= notes@.len(),
            measurable(notes@, frames@),
            mods.grid_scale == ONE || mods.grid_scale == HARDROCK_GRID_SCALE,
            out@ == placed_notes(notes@.take(i as int), mods),
        decreases notes@.len() - i,
    {
        let n: Note = notes[i];
        assert(magnitude(notes@[i as int].x as int) <= COORDINATE_LIMIT);
        let x: i64 = place(n.x, mods.flip_x, mods.grid_scale);
        let y: i64 = place(n.y, mods.flip_y, mods.grid_scale);
        out.push(Note { time_ms: n.time_ms, x, y });
        i = i + 1;
        proof {
            assert(out@ =~= placed_notes(notes@.take(i as int), mods));
        }
    }
    assert(notes@.take(i as int) =~= notes@);
    (out, mods)
}

/// The map as this replay's player saw it, and what was applied. The sides of a race resolve
/// this independently.
pub fn map_for_replay(map: &Beatmap, replay: &Replay) -> (r: (Beatmap, ResolvedMods))
    requires
        replay.frames@.len() <= u32::MAX,
        measurable(map.notes@, replay.frames@),
    ensures
        r.1 == resolved(mod_names(replay.mods@), map.notes@, replay.frames@),
        r.0.notes@ == placed_notes(map.notes@, r.1),
        r.0.meta.same(map.meta),
{
    let names: Vec<String> = mod_list(replay);
    let (notes, mods) = apply_mods(
        names.as_slice(),
        map.notes.as_slice(),
        replay.frames.as_slice(),
    );
    (Beatmap { meta: map.meta.copy(), notes }, mods)
}

/// Without mods the notes stay as they are.
pub proof fn law_no_mods_is_identity(notes: Seq<Note>, frames: Seq<Frame>)
    requires
        measurable(notes, frames),
    ensures
        placed_notes(notes, ResolvedMods::nothing()) == notes,
{
    assert forall|i: int| 0 <= i < notes.len() implies placed_note(
        notes[i],
        ResolvedMods::nothing(),
    ) == notes[i] by {
        assert(magnitude(notes[i].x as int) <= COORDINATE_LIMIT);
        lemma_placed_bound(notes[i].x - ONE, ONE as int);
        lemma_placed_bound(notes[i].y - ONE, ONE as int);
    }
    assert(placed_notes(notes, ResolvedMods::nothing()) =~= notes);
}

/// The centre of the grid stays put under every flip and spread.
pub proof fn law_centre_stays(time_ms: i64, mods: ResolvedMods)
    ensures
        placed_note(Note { time_ms, x: ONE, y: ONE }, mods) == (Note { time_ms, x: ONE, y: ONE }),
{
    assert(0 * mods.grid_scale == 0);
    assert(2 * (ONE as int) == 2_000_000);
    assert(nearest(0, ONE as int) == 1_000_000int / 2_000_000int);
}

/// Mirroring twice gives the note back.
pub proof fn law_mirror_twice_is_identity(note: Note, flip_x: bool, flip_y: bool)
    requires
        magnitude(note.x as int) <= COORDINATE_LIMIT,
        magnitude(note.y as int) <= COORDINATE_LIMIT,
    ensures
        ({
            let mods = ResolvedMods { grid_scale: ONE, flip_x, flip_y };
            placed_note(placed_note(note, mods), mods) == note
        }),
{
    let mods = ResolvedMods { grid_scale: ONE, flip_x, flip_y };
    lemma_placed_bound(note.x - ONE, ONE as int);
    lemma_placed_bound(note.y - ONE, ONE as int);
    lemma_placed_bound(ONE - note.x, ONE as int);
    lemma_placed_bound(ONE - note.y, ONE as int);
}

/// The two axes are treated alike: a note with its axes exchanged, under flips that are exchanged
/// too, lands where the note does, with its axes exchanged.
pub proof fn law_both_axes_are_placed_alike(
    note: Note,
    turned: Note,
    mods: ResolvedMods,
    turned_mods: ResolvedMods,
)
    requires
        turned.x == note.y,
        turned.y == note.x,
        turned_mods.grid_scale == mods.grid_scale,
        turned_mods.flip_x == mods.flip_y,
        turned_mods.flip_y == mods.flip_x,
    ensures
        placed_note(turned, turned_mods).x == placed_note(note, mods).y,
        placed_note(turned, turned_mods).y == placed_note(note, mods).x,
{
}

/// A spread moves notes away from the centre of the grid: in each axis a note lies on its own side,
/// or on the other one where it is mirrored, at its distance times the scale, to the nearest
/// millionth. Its time stays.
pub proof fn law_notes_spread_from_the_centre(note: Note, mods: ResolvedMods)
    requires
        magnitude(note.x as int) <= COORDINATE_LIMIT,
        magnitude(note.y as int) <= COORDINATE_LIMIT,
        mods.grid_scale == 1_000_000 || mods.grid_scale == 1_150_000,
    ensures
        ({
            let seen = placed_note(note, mods);
            let dx = if mods.flip_x {
                1_000_000 - note.x
            } else {
                note.x - 1_000_000
            };
            let dy = if mods.flip_y {
                1_000_000 - note.y
            } else {
                note.y - 1_000_000
            };
            &&& seen.time_ms == note.time_ms
            &&& 2 * magnitude((seen.x - 1_000_000) * 1_000_000 - dx * mods.grid_scale) <= 1_000_000
            &&& 2 * magnitude((seen.y - 1_000_000) * 1_000_000 - dy * mods.grid_scale) <= 1_000_000
        }),
{
    let dx = if mods.flip_x {
        1_000_000 - note.x
    } else {
        note.x - 1_000_000
    };
    let dy = if mods.flip_y {
        1_000_000 - note.y
    } else {
        note.y - 1_000_000
    };
    lemma_placed_bound(dx, mods.grid_scale as int);
    lemma_placed_bound(dy, mods.grid_scale as int);
    crate::fixed::law_rounding_is_closest(dx * mods.grid_scale, ONE as int);
    crate::fixed::law_rounding_is_closest(dy * mods.grid_scale, ONE as int);
}

/// What a list of mods does: hardrock and nothing else spreads the grid, by 15 percent; without a
/// mirror nothing is flipped; and a mirror on a run without hits flips left and right, the double
/// one top and bottom too.
pub proof fn law_mods_do_what_they_are_named_for(
    names: Seq<Seq<char>>,
    notes: Seq<Note>,
    frames: Seq<Frame>,
)
    ensures
        ({
            let r = resolved(names, notes, frames);
            let mirror = names.contains("mod_mirror"@);
            let double = names.contains("mod_double_mirror"@);
            &&& 100 * r.grid_scale == if names.contains("mod_hardrock"@) {
                115_000_000int
            } else {
                100_000_000
            }
            &&& !mirror && !double ==> !r.flip_x && !r.flip_y
            &&& (mirror || double) && flagged(frames).len() == 0 ==> r.flip_x && r.flip_y == double
        }),
{
    assert forall|name: Seq<char>| names.contains(name) implies #[trigger] has(names, name) by {
        let i = choose|i: int| 0 <= i < names.len() && names[i] == name;
        assert(names[i] == name);
    }
    assert(names.contains("mod_mirror"@) == has(names, "mod_mirror"@));
    assert(names.contains("mod_double_mirror"@) == has(names, "mod_double_mirror"@));
    assert(names.contains("mod_hardrock"@) == has(names, "mod_hardrock"@));
    if flagged(frames).len() == 0 {
        law_flags_are_shared_out(notes, frames, DEFAULT_WINDOW_MS as int, false);
        let times = hit_times(notes, frames);
        let owned = attribution(notes, frames, DEFAULT_WINDOW_MS as int, false);
        assert forall|i: int| 0 <= i < notes.len() implies #[trigger] times[i] is None by {
            assert(!(owned[i] is Some));
        }
    }
}

/// A square has one root, which is zero for zero alone.
pub proof fn lemma_root_of(v: int)
    requires
        v >= 0,
    ensures
        is_root(root(v), v),
        root(v) == 0 <==> v == 0,
{
    crate::scene::lemma_root_exists(v);
    let r = root(v);
    if v == 0 {
        assert(is_root(0, 0));
        lemma_root_is_unique(r, 0, 0);
    } else if r == 0 {
        assert((r + 1) * (r + 1) == 1) by (nonlinear_arith)
            requires
                r == 0,
        ;
    }
}

/// Squares are never negative.
pub proof fn lemma_squares(a: int, b: int)
    ensures
        a * a + b * b >= 0,
        a * a + b * b == 0 <==> a == 0 && b == 0,
{
    assert(a * a >= 0 && (a * a == 0 <==> a == 0)) by (nonlinear_arith);
    assert(b * b >= 0 && (b * b == 0 <==> b == 0)) by (nonlinear_arith);
}

/// Whether a flip puts every note that was hit under the cursor.
spec fn follows(
    notes: Seq<Note>,
    frames: Seq<Frame>,
    times: Seq<Option<i64>>,
    flip_x: bool,
    flip_y: bool,
    n: nat,
) -> bool {
    forall|i: int|
        0 <= i < n && (#[trigger] times[i]) is Some ==> distance_squared(
            frames,
            times[i]->0 as int,
            notes[i],
            flip_x,
            flip_y,
        ) == 0
}

proof fn lemma_cost_of_nothing(
    notes: Seq<Note>,
    frames: Seq<Frame>,
    times: Seq<Option<i64>>,
    flip_x: bool,
    flip_y: bool,
    n: nat,
)
    ensures
        flip_cost(notes, frames, times, flip_x, flip_y, n) >= 0,
        flip_cost(notes, frames, times, flip_x, flip_y, n) == 0 <==> follows(
            notes,
            frames,
            times,
            flip_x,
            flip_y,
            n,
        ),
    decreases n,
{
    if n > 0 {
        let m = (n - 1) as nat;
        lemma_cost_of_nothing(notes, frames, times, flip_x, flip_y, m);
        let note = notes[n - 1];
        if let Some(ms) = times[n - 1] {
            let (cx, cy) = cursor(frames, ms as int);
            let gx = if flip_x {
                2 * ONE - note.x
            } else {
                note.x as int
            };
            let gy = if flip_y {
                2 * ONE - note.y
            } else {
                note.y as int
            };
            lemma_squares(cx - (gx - ONE), cy - (ONE - gy));
            lemma_root_of(distance_squared(frames, ms as int, note, flip_x, flip_y));
        }
        if follows(notes, frames, times, flip_x, flip_y, n) {
            assert(follows(notes, frames, times, flip_x, flip_y, m));
            assert(times[n - 1] is Some ==> distance_squared(
                frames,
                times[n - 1]->0 as int,
                note,
                flip_x,
                flip_y,
            ) == 0);
        }
        if flip_cost(notes, frames, times, flip_x, flip_y, n) == 0 {
            assert forall|i: int| 0 <= i < n && (#[trigger] times[i]) is Some implies distance_squared(
                frames,
                times[i]->0 as int,
                notes[i],
                flip_x,
                flip_y,
            ) == 0 by {
                if i < m {
                    assert(follows(notes, frames, times, flip_x, flip_y, m));
                }
            }
        }
    }
}

/// A mirrored run shows its cursor on the notes: where some mirroring puts the cursor exactly on
/// every note at the moment it was hit, the mirroring that is found does so too. Columns count to
/// the right and rows downwards, the cursor to the right and upwards.
pub proof fn law_mirrors_are_found_by_the_cursor(
    notes: Seq<Note>,
    frames: Seq<Frame>,
    fallback: (bool, bool),
    flip_x: bool,
    flip_y: bool,
    i: int,
)
    requires
        measurable(notes, frames),
        forall|j: int|
            0 <= j < notes.len() && (#[trigger] hit_times(notes, frames)[j]) is Some ==> cursor(
                frames,
                hit_times(notes, frames)[j]->0 as int,
            ) == (
                if flip_x {
                    1_000_000 - notes[j].x
                } else {
                    notes[j].x - 1_000_000
                },
                if flip_y {
                    notes[j].y - 1_000_000
                } else {
                    1_000_000 - notes[j].y
                },
            ),
        0 <= i < notes.len(),
        hit_times(notes, frames)[i] is Some,
    ensures
        ({
            let found = flip_of(notes, frames, fallback);
            let seen = placed_note(
                notes[i],
                ResolvedMods { grid_scale: ONE, flip_x: found.0, flip_y: found.1 },
            );
            cursor(frames, hit_times(notes, frames)[i]->0 as int) == (
                seen.x - 1_000_000,
                1_000_000 - seen.y,
            )
        }),
{
    let times = hit_times(notes, frames);
    let n = notes.len();
    let found = flip_of(notes, frames, fallback);
    assert forall|j: int| 0 <= j < n && (#[trigger] times[j]) is Some implies distance_squared(
        frames,
        times[j]->0 as int,
        notes[j],
        flip_x,
        flip_y,
    ) == 0 by {
        assert(0 * 0 == 0int);
    }
    lemma_cost_of_nothing(notes, frames, times, flip_x, flip_y, n);
    lemma_cost_of_nothing(notes, frames, times, false, false, n);
    lemma_cost_of_nothing(notes, frames, times, false, true, n);
    lemma_cost_of_nothing(notes, frames, times, true, false, n);
    lemma_cost_of_nothing(notes, frames, times, true, true, n);
    assert(follows(notes, frames, times, flip_x, flip_y, n));
    assert(flip_cost(notes, frames, times, found.0, found.1, n) == 0);
    assert(times[i] is Some);
    let (cx, cy) = cursor(frames, times[i]->0 as int);
    let note = notes[i];
    let gx = if found.0 {
        2 * ONE - note.x
    } else {
        note.x as int
    };
    let gy = if found.1 {
        2 * ONE - note.y
    } else {
        note.y as int
    };
    lemma_squares(cx - (gx - ONE), cy - (ONE - gy));
    assert(magnitude(note.x as int) <= COORDINATE_LIMIT);
    lemma_placed_bound(gx - ONE, ONE as int);
    lemma_placed_bound(gy - ONE, ONE as int);
}

/// The cursor is where its frames say: on a frame at its time, at rest before the first and behind
/// the last, and in between on the straight line from frame to frame, never beyond either.
pub proof fn law_the_cursor_follows_its_frames(frames: Seq<Frame>, i: int, ms: int)
    requires
        crate::hitreg::frames_in_time(frames),
        0 <= i < frames.len(),
        i == 0 || frames[i - 1].ms < frames[i].ms,
    ensures
        cursor(frames, frames[i].ms as int) == (frames[i].x as int, frames[i].y as int),
        ms <= frames[0].ms ==> cursor(frames, ms) == (frames[0].x as int, frames[0].y as int),
        ms > frames.last().ms ==> cursor(frames, ms) == (
            frames.last().x as int,
            frames.last().y as int,
        ),
        i > 0 && frames[i - 1].ms <= ms <= frames[i].ms ==> ({
            let (a, b) = (frames[i - 1], frames[i]);
            let (x, y) = cursor(frames, ms);
            let (part, whole) = (ms - a.ms, b.ms - a.ms);
            &&& ms > a.ms ==> 2 * magnitude(whole * (x - a.x) - (b.x - a.x) * part) <= whole
            &&& ms > a.ms ==> 2 * magnitude(whole * (y - a.y) - (b.y - a.y) * part) <= whole
        }),
{
    lemma_first_is(frames, 0, i, frames[i].ms as int);
    if ms <= frames[0].ms {
        lemma_first_is(frames, 0, 0, ms);
    }
    if ms > frames.last().ms {
        lemma_first_is(frames, 0, frames.len() as int, ms);
    }
    if i > 0 && frames[i - 1].ms < ms <= frames[i].ms {
        lemma_first_is(frames, 0, i, ms);
        let (a, b) = (frames[i - 1], frames[i]);
        let (part, whole) = (ms - a.ms, b.ms - a.ms);
        crate::fixed::law_rounding_is_closest((b.x - a.x) * part, whole);
        crate::fixed::law_rounding_is_closest((b.y - a.y) * part, whole);
        let (dx, dy) = (b.x - a.x, b.y - a.y);
        assert(part == whole ==> whole * dx == dx * part && whole * dy == dy * part)
            by (nonlinear_arith);
    }
}

proof fn lemma_first_is(frames: Seq<Frame>, from: int, i: int, ms: int)
    requires
        crate::hitreg::frames_in_time(frames),
        0 <= from <= i <= frames.len(),
        i > 0 ==> frames[i - 1].ms < ms,
        i < frames.len() ==> frames[i].ms >= ms,
    ensures
        first_not_before(frames, from, ms) == i,
    decreases i - from,
{
    if from < i {
        assert(frames[from].ms <= frames[i - 1].ms);
        lemma_first_is(frames, from + 1, i, ms);
    }
}

/// The mirror that is taken costs no more than any other; none is taken only where every one costs
/// more, and mirroring both ways goes before what costs the same.
pub proof fn law_the_cheapest_mirror_is_taken(none: int, rows: int, columns: int, both: int)
    ensures
        ({
            let (x, y) = cheapest(none, rows, columns, both);
            let cost = if x && y {
                both
            } else if x {
                columns
            } else if y {
                rows
            } else {
                none
            };
            &&& cost <= none && cost <= rows && cost <= columns && cost <= both
            &&& !x && !y <==> none < rows && none < columns && none < both
            &&& both <= none && both <= rows && both <= columns ==> x && y
        }),
{
}

} // verus!
