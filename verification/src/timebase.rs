//! Which clock a speed-mod replay was recorded on.
//!
//! Most replays store their frame times in song time, some in wall-clock time. The
//! base is detected per replay: only in the correct base do the recorded hit flags
//! line up with the map's note times.

use vstd::prelude::*;

use crate::fixed::{
    div_nearest, law_rounding_is_closest, law_rounding_is_monotone, law_rounding_keeps_whole_numbers,
    magnitude, nearest, within, ONE,
};
use crate::hitreg::{
    attribution, flagged, frames_in_time, law_every_flag_is_accounted_for, match_hits, owners, MatchOutcome,
    DEFAULT_WINDOW_MS,
};
use crate::replay::{Beatmap, Frame, Note, Replay};

verus! {

/// A time multiplied by a speed, to the nearest millionth, limited to the range of
/// times.
pub open spec fn scaled_time(ms: int, speed: int) -> int {
    within(nearest(ms * speed, ONE as int), i64::MIN as int, i64::MAX as int)
}

/// A frame on another clock.
pub open spec fn scaled_frame(frame: Frame, speed: int) -> Frame {
    Frame { ms: scaled_time(frame.ms as int, speed) as i64, ..frame }
}

/// Frames on another clock.
pub open spec fn scaled_frames(frames: Seq<Frame>, speed: int) -> Seq<Frame> {
    Seq::new(frames.len(), |i: int| scaled_frame(frames[i], speed))
}

/// How many notes the flags of these frames hit.
pub open spec fn matched(notes: Seq<Note>, frames: Seq<Frame>) -> nat {
    owners(attribution(notes, frames, DEFAULT_WINDOW_MS as int, true))
}

/// The least number of hits that a rescaled replay has to recover: half of those
/// in the header, and at least four.
pub open spec fn evidence_floor(header_hits: i32) -> int {
    if header_hits / 2 < 4 {
        4
    } else {
        (header_hits / 2) as int
    }
}

/// Whether the rescaled frames win clearly, backed by real evidence.
pub open spec fn clear_win(as_is: nat, rescaled: nat, header_hits: i32) -> bool {
    &&& rescaled >= evidence_floor(header_hits)
    &&& 100 * rescaled > 105 * as_is
}

/// Whether the frame times are wall-clock times: rescaling wins clearly, and once it is done
/// there is nothing left to win by doing it again.
pub open spec fn wall_clock(notes: Seq<Note>, frames: Seq<Frame>, speed: i64, header_hits: i32) -> bool {
    let once = scaled_frames(frames, speed as int);
    let twice = scaled_frames(once, speed as int);
    &&& magnitude(speed - ONE) >= 5_000
    &&& frames.len() > 0
    &&& notes.len() > 0
    &&& clear_win(matched(notes, frames), matched(notes, once), header_hits)
    &&& !clear_win(matched(notes, once), matched(notes, twice), header_hits)
}

/// Multiplies a time by a speed.
pub fn scale_time(ms: i64, speed: i64) -> (t: i64)
    ensures
        t == scaled_time(ms as int, speed as int),
{
    let a: i128 = ms as i128;
    let b: i128 = speed as i128;
    assert(-0x4000_0000_0000_0000_0000_0000_0000_0000 <= a * b
        <= 0x4000_0000_0000_0000_0000_0000_0000_0000) by (nonlinear_arith)
        requires
            -0x8000_0000_0000_0000 <= a <= 0x7fff_ffff_ffff_ffff,
            -0x8000_0000_0000_0000 <= b <= 0x7fff_ffff_ffff_ffff,
    ;
    let p: i128 = a * b;
    let one: i128 = ONE as i128;
    proof {
        assert(p as int == ms * speed);
    }
    let q: i128 = if p >= 0 {
        p / one + (p % one + one / 2) / one
    } else {
        -((-p) / one + ((-p) % one + one / 2) / one)
    };
    proof {
        lemma_split_rounding(magnitude(p as int));
        assert(q == nearest(p as int, ONE as int));
    }
    if q < i64::MIN as i128 {
        i64::MIN
    } else if q > i64::MAX as i128 {
        i64::MAX
    } else {
        q as i64
    }
}

/// Rounding to whole millions works on the remainder alone.
proof fn lemma_split_rounding(m: int)
    requires
        m >= 0,
    ensures
        m / 1_000_000 + (m % 1_000_000 + 500_000) / 1_000_000 == (2 * m + 1_000_000) / 2_000_000,
{
}

/// Puts frames on another clock.
pub fn scale_frames(frames: &[Frame], speed: i64) -> (out: Vec<Frame>)
    ensures
        out@ == scaled_frames(frames@, speed as int),
{
    let mut out: Vec<Frame> = Vec::new();
    let mut i: usize = 0;
    while i < frames.len()
        invariant
            i <= frames@.len(),
            out@ == scaled_frames(frames@.take(i as int), speed as int),
        decreases frames@.len() - i,
    {
        let f: Frame = frames[i];
        out.push(Frame { ms: scale_time(f.ms, speed), x: f.x, y: f.y, health: f.health, hit: f.hit });
        i = i + 1;
        proof {
            assert(out@ =~= scaled_frames(frames@.take(i as int), speed as int));
        }
    }
    assert(frames@.take(i as int) =~= frames@);
    out
}

fn count_matched(notes: &[Note], frames: &[Frame]) -> (n: u32)
    requires
        notes@.len() <= u32::MAX,
        frames@.len() <= u32::MAX,
    ensures
        n == matched(notes@, frames@),
{
    let outcome: MatchOutcome = match_hits(notes, frames, DEFAULT_WINDOW_MS);
    proof {
        law_every_flag_is_accounted_for(
            outcome,
            notes@,
            frames@,
            DEFAULT_WINDOW_MS as int,
            true,
        );
    }
    outcome.derived_hits()
}

fn wins_clearly(as_is: u32, rescaled: u32, header_hits: i32) -> (r: bool)
    ensures
        r == clear_win(as_is as nat, rescaled as nat, header_hits),
{
    let half: u32 = if header_hits < 0 {
        0
    } else {
        header_hits as u32 / 2
    };
    let floor: u32 = if half < 4 {
        4
    } else {
        half
    };
    rescaled >= floor && 100 * rescaled as u64 > 105 * as_is as u64
}

/// The factor by which frame times become song time, in millionths: one where they
/// already are, or the replay's speed where they are wall-clock times.
pub fn time_scale(map: &Beatmap, replay: &Replay) -> (scale: i64)
    requires
        map.notes@.len() <= u32::MAX,
        replay.frames@.len() <= u32::MAX,
    ensures
        scale == if wall_clock(map.notes@, replay.frames@, replay.speed, replay.hits) {
            replay.speed
        } else {
            ONE
        },
{
    let speed: i64 = replay.speed;
    if (speed > ONE - 5_000 && speed < ONE + 5_000) || replay.frames.len() == 0 || map.notes.len()
        == 0 {
        return ONE;
    }
    let as_is: u32 = count_matched(map.notes.as_slice(), replay.frames.as_slice());
    let scaled: Vec<Frame> = scale_frames(replay.frames.as_slice(), speed);
    let rescaled: u32 = count_matched(map.notes.as_slice(), scaled.as_slice());
    if !wins_clearly(as_is, rescaled, replay.hits) {
        return ONE;
    }
    let twice: Vec<Frame> = scale_frames(scaled.as_slice(), speed);
    let again: u32 = count_matched(map.notes.as_slice(), twice.as_slice());
    if wins_clearly(rescaled, again, replay.hits) {
        ONE
    } else {
        speed
    }
}

/// A whole number of milliseconds on another clock, where it is a time at all.
pub open spec fn scaled_whole(ms: i32, speed: int) -> i32 {
    if ms > 0 {
        within(nearest(ms * speed, ONE as int), i32::MIN as int, i32::MAX as int) as i32
    } else {
        ms
    }
}

/// A replay with its frames, fail time and start on another clock.
pub open spec fn is_rescaled(after: Replay, before: Replay, speed: int) -> bool {
    &&& after.frames@ == scaled_frames(before.frames@, speed)
    &&& after == Replay {
        frames: after.frames,
        fail_time_ms: scaled_whole(before.fail_time_ms, speed),
        start_from_ms: scaled_whole(before.start_from_ms, speed),
        ..before
    }
}

fn scale_whole(ms: i32, speed: i64) -> (t: i32)
    ensures
        t == scaled_whole(ms, speed as int),
{
    if ms <= 0 {
        return ms;
    }
    let a: i128 = ms as i128;
    let b: i128 = speed as i128;
    assert(-0x1_0000_0000_0000_0000_0000_0000 < a * b < 0x1_0000_0000_0000_0000_0000_0000)
        by (nonlinear_arith)
        requires
            0 <= a <= 0x7fff_ffff,
            -0x8000_0000_0000_0000 <= b <= 0x7fff_ffff_ffff_ffff,
    ;
    let q: i128 = div_nearest(a * b, ONE as i128);
    if q < i32::MIN as i128 {
        i32::MIN
    } else if q > i32::MAX as i128 {
        i32::MAX
    } else {
        q as i32
    }
}

/// Rescales a wall-clock replay into song time in place: frames, fail time and
/// start. Returns whether it did. Whatever it returned, a second call changes nothing.
pub fn normalize(replay: &mut Replay, map: &Beatmap) -> (rescaled: bool)
    requires
        map.notes@.len() <= u32::MAX,
        old(replay).frames@.len() <= u32::MAX,
    ensures
        rescaled == wall_clock(
            map.notes@,
            old(replay).frames@,
            old(replay).speed,
            old(replay).hits,
        ),
        rescaled ==> is_rescaled(*final(replay), *old(replay), old(replay).speed as int),
        !rescaled ==> *final(replay) == *old(replay),
        !wall_clock(
            map.notes@,
            final(replay).frames@,
            final(replay).speed,
            final(replay).hits,
        ),
{
    let scale: i64 = time_scale(map, replay);
    if scale == ONE {
        return false;
    }
    let frames: Vec<Frame> = scale_frames(replay.frames.as_slice(), scale);
    replay.frames = frames;
    replay.fail_time_ms = scale_whole(replay.fail_time_ms, scale);
    replay.start_from_ms = scale_whole(replay.start_from_ms, scale);
    true
}

/// Normalizing twice changes nothing more: a rescaled replay is in song time.
pub proof fn law_normalize_is_idempotent(before: Replay, after: Replay, map: Beatmap)
    requires
        wall_clock(map.notes@, before.frames@, before.speed, before.hits),
        is_rescaled(after, before, before.speed as int),
    ensures
        !wall_clock(map.notes@, after.frames@, after.speed, after.hits),
{
}

/// Where frame times recover twenty of every twenty-one flags they are song time: rescaling
/// can never win.
pub proof fn law_recovered_base_is_final(notes: Seq<Note>, frames: Seq<Frame>, speed: i64, hits: i32)
    requires
        21 * matched(notes, frames) >= 20 * flagged(frames).len(),
    ensures
        !wall_clock(notes, frames, speed, hits),
{
    let again = scaled_frames(frames, speed as int);
    lemma_scaling_keeps_flags(frames, speed as int);
    lemma_matched_bound(notes, again);
}

proof fn lemma_scaling_keeps_flags(frames: Seq<Frame>, speed: int)
    ensures
        flagged(scaled_frames(frames, speed)).len() == flagged(frames).len(),
    decreases frames.len(),
{
    if frames.len() > 0 {
        lemma_scaling_keeps_flags(frames.drop_last(), speed);
        assert(scaled_frames(frames, speed).drop_last() =~= scaled_frames(
            frames.drop_last(),
            speed,
        ));
    }
}

proof fn lemma_matched_bound(notes: Seq<Note>, frames: Seq<Frame>)
    ensures
        matched(notes, frames) <= flagged(frames).len(),
{
    crate::hitreg::law_hits_are_flags(notes, frames, DEFAULT_WINDOW_MS as int, true);
}

/// Scaling a time multiplies it by the speed, to the nearest millionth; normal speed leaves every
/// time as it is, and what came first stays first.
pub proof fn law_times_scale_with_the_speed(ms: int, later: int, speed: int)
    requires
        i64::MIN <= ms <= later <= i64::MAX,
        speed > 0,
    ensures
        i64::MIN <= nearest(ms * speed, 1_000_000) <= i64::MAX ==> 2 * magnitude(
            1_000_000 * scaled_time(ms, speed) - ms * speed,
        ) <= 1_000_000,
        scaled_time(ms, speed) <= scaled_time(later, speed),
        scaled_time(ms, 1_000_000) == ms,
        scaled_time(0, speed) == 0,
{
    law_rounding_is_closest(ms * speed, 1_000_000);
    assert(ms * speed <= later * speed) by (nonlinear_arith)
        requires
            ms <= later,
            speed > 0,
    ;
    law_rounding_is_monotone(ms * speed, later * speed, 1_000_000);
    law_rounding_keeps_whole_numbers(ms, 0, 1_000_000);
    assert(0 * speed == 0);
    law_rounding_keeps_whole_numbers(0, 0, 1_000_000);
}

/// Scaling a recording changes when its frames are and nothing else of them; frames in order stay
/// in order, and normal speed changes nothing.
pub proof fn law_scaling_moves_frames_in_time_only(frames: Seq<Frame>, speed: int, i: int)
    requires
        0 <= i < frames.len(),
        speed > 0,
    ensures
        scaled_frames(frames, speed).len() == frames.len(),
        ({
            let (a, b) = (frames[i], scaled_frames(frames, speed)[i]);
            &&& b.ms == scaled_time(a.ms as int, speed)
            &&& b == Frame { ms: b.ms, ..a }
        }),
        frames_in_time(frames) ==> frames_in_time(scaled_frames(frames, speed)),
        scaled_frames(frames, 1_000_000) =~= frames,
{
    let out = scaled_frames(frames, speed);
    assert forall|k: int| 0 <= k < frames.len() implies scaled_frames(frames, 1_000_000)[k]
        == #[trigger] frames[k] by {
        law_times_scale_with_the_speed(frames[k].ms as int, frames[k].ms as int, 1_000_000);
    }
    if frames_in_time(frames) {
        assert forall|j: int, k: int| 0 <= j <= k < out.len() implies (#[trigger] out[j]).ms <= (
        #[trigger] out[k]).ms by {
            assert(frames[j].ms <= frames[k].ms);
            law_times_scale_with_the_speed(frames[j].ms as int, frames[k].ms as int, speed);
        }
    }
}

/// A recording is taken to be in wall clock time on evidence alone: at a speed that differs from
/// the normal one, with four matches or more, half as many as the header's hits or more, and over
/// five percent more than without scaling.
pub proof fn law_wall_clock_needs_evidence(
    notes: Seq<Note>,
    frames: Seq<Frame>,
    speed: i64,
    hits: i32,
)
    requires
        wall_clock(notes, frames, speed, hits),
    ensures
        speed != 1_000_000,
        ({
            let (before, after) = (
                matched(notes, frames),
                matched(notes, scaled_frames(frames, speed as int)),
            );
            &&& after >= 4
            &&& hits >= 0 ==> 2 * after + 1 >= hits
            &&& 20 * after > 21 * before
        }),
{
}

/// The times that a replay names scale as its frames do, where they are set.
pub proof fn law_named_times_scale_like_frames(ms: i32, speed: int)
    requires
        speed > 0,
    ensures
        ms <= 0 ==> scaled_whole(ms, speed) == ms,
        ms > 0 && scaled_time(ms as int, speed) <= i32::MAX ==> scaled_whole(ms, speed)
            == scaled_time(ms as int, speed),
        scaled_whole(ms, 1_000_000) == ms,
{
    assert(ms > 0 ==> ms * speed >= 0) by (nonlinear_arith)
        requires
            speed > 0,
    ;
    if ms > 0 {
        law_rounding_is_monotone(0, ms * speed, 1_000_000);
        law_rounding_keeps_whole_numbers(0, 0, 1_000_000);
    }
    law_rounding_keeps_whole_numbers(ms as int, 0, 1_000_000);
}

} // verus!
