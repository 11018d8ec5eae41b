//! One player's side of a render: the run in song time, the map as that player saw it, and the
//! hits that came of both.

use vstd::prelude::*;

use crate::fixed::ONE;
use crate::hitreg::{hits_in, is_outcome, NoteResult, DEFAULT_WINDOW_MS};
use crate::hud::{
    all_known, are_stats, details_of, law_combo_is_the_streak, law_every_note_is_counted, run_after,
    HudState, HudStats, NOTE_LIMIT,
};
use crate::mods::{map_for_replay, mod_names, placed_notes, resolved, ResolvedMods};
use crate::race::RaceSide;
use crate::replay::{
    frames_fit, frames_in_range, notes_fit, notes_in_range, Beatmap, Frame, Note, Replay,
};
use crate::timebase::{is_rescaled, normalize, scaled_frames, wall_clock};

verus! {

/// One player's side.
pub struct Side {
    /// The run, in song time.
    pub replay: Replay,
    /// The map as its player saw it.
    pub map: Beatmap,
    /// What was applied to the map.
    pub mods: ResolvedMods,
    /// The hits.
    pub state: HudState,
}

/// The frames of a run in song time.
pub open spec fn song_frames(replay: Replay, map: Beatmap) -> Seq<Frame> {
    if wall_clock(map.notes@, replay.frames@, replay.speed, replay.hits) {
        scaled_frames(replay.frames@, replay.speed as int)
    } else {
        replay.frames@
    }
}

/// The mods of a run as they show on its frames.
pub open spec fn side_mods(replay: Replay, map: Beatmap) -> ResolvedMods {
    resolved(mod_names(replay.mods@), map.notes@, song_frames(replay, map))
}

/// Whether the numbers of a run and its map are small enough to work with.
pub open spec fn is_workable(replay: Replay, map: Beatmap) -> bool {
    &&& map.notes@.len() <= NOTE_LIMIT
    &&& replay.frames@.len() <= u32::MAX
    &&& notes_in_range(map.notes@)
    &&& frames_in_range(song_frames(replay, map))
    &&& notes_in_range(placed_notes(map.notes@, side_mods(replay, map)))
}

/// Whether a side was made of a run and a map.
pub open spec fn is_side(s: Side, replay: Replay, map: Beatmap) -> bool {
    &&& if wall_clock(map.notes@, replay.frames@, replay.speed, replay.hits) {
        is_rescaled(s.replay, replay, replay.speed as int)
    } else {
        s.replay == replay
    }
    &&& s.mods == side_mods(replay, map)
    &&& s.map.meta.same(map.meta)
    &&& s.map.notes@ == placed_notes(map.notes@, s.mods)
    &&& is_outcome(
        s.state.outcome,
        s.map.notes@,
        s.replay.frames@,
        DEFAULT_WINDOW_MS as int,
        true,
    )
    &&& s.state.hit_details@ == details_of(
        s.state.outcome.results@,
        s.map.notes@,
        s.replay.frames@,
    )
}

/// The moment at which a run is over for its results: a failed one ends with its fail time and
/// the hit window, so that the miss that ended it still counts.
pub open spec fn results_time(replay: Replay) -> int {
    if replay.failed {
        replay.fail_time_ms * ONE + DEFAULT_WINDOW_MS + ONE
    } else {
        i64::MAX as int
    }
}

/// Whether numbers are the last ones of a run; one that did not fail shows the score that the
/// game wrote.
pub open spec fn are_final(stats: HudStats, s: Side) -> bool {
    exists|live: HudStats| #[trigger]
        are_stats(
            live,
            s.state.outcome.results@,
            s.map.notes@,
            s.replay,
            results_time(s.replay),
        ) && stats == (HudStats {
            score: if s.replay.failed {
                live.score
            } else {
                s.replay.total_score
            },
            ..live
        })
}

impl Side {
    /// Whether the numbers of the side can be read at any time.
    pub open spec fn wf(&self) -> bool {
        &&& self.state.wf()
        &&& self.state.fits(self.map.notes@)
        &&& self.state.outcome.results@.len() <= NOTE_LIMIT
        &&& frames_in_range(self.replay.frames@)
    }

    /// Makes a player's side: the run is brought to song time, its mods are applied to the map,
    /// and the hits are resolved. None where numbers are too large to work with.
    pub fn prepare(replay: Replay, map: Beatmap) -> (r: Option<Side>)
        ensures
            match r {
                Some(s) => is_workable(replay, map) && is_side(s, replay, map) && s.wf(),
                None => !is_workable(replay, map),
            },
    {
        let ghost given = replay;
        let ghost chart = map;
        if map.notes.len() > NOTE_LIMIT || replay.frames.len() > u32::MAX as usize || !notes_fit(
            map.notes.as_slice(),
        ) {
            return None;
        }
        let mut replay: Replay = replay;
        normalize(&mut replay, &map);
        assert(replay.frames@ == song_frames(given, chart));
        assert(replay.mods == given.mods);
        if !frames_fit(replay.frames.as_slice()) {
            return None;
        }
        let (map, mods) = map_for_replay(&map, &replay);
        if !notes_fit(map.notes.as_slice()) {
            return None;
        }
        let state: HudState = HudState::new(&map, &replay);
        let s: Side = Side { replay, map, mods, state };
        assert(s.state.outcome.results@.len() == s.map.notes@.len());
        Some(s)
    }

    /// The side as a race reads it.
    pub fn race(&self) -> (r: RaceSide)
        requires
            self.wf(),
        ensures
            *r.map == self.map,
            *r.replay == self.replay,
            *r.state == self.state,
            r.wf(),
    {
        RaceSide { map: &self.map, replay: &self.replay, state: &self.state }
    }

    /// The last numbers of the run, as the results show them.
    pub fn final_stats(&self) -> (stats: HudStats)
        requires
            self.wf(),
        ensures
            are_final(stats, *self),
    {
        let end: i64 = if self.replay.failed {
            self.replay.fail_time_ms as i64 * ONE + DEFAULT_WINDOW_MS + ONE
        } else {
            i64::MAX
        };
        let live: HudStats = self.state.stats_at(self.map.notes.as_slice(), &self.replay, end);
        let mut stats: HudStats = live;
        if !self.replay.failed {
            stats.score = self.replay.total_score;
        }
        assert(are_stats(
            live,
            self.state.outcome.results@,
            self.map.notes@,
            self.replay,
            results_time(self.replay),
        ));
        stats
    }
}

/// The results of a run that was played to its end count every note, as hit or as missed, and show
/// the score that the replay was saved with; those of a failed run show the score up to there.
pub proof fn law_results_count_every_note(stats: HudStats, s: Side, replay: Replay, map: Beatmap)
    requires
        is_side(s, replay, map),
        are_final(stats, s),
        s.map.notes@.len() <= usize::MAX,
        forall|i: int|
            0 <= i < s.map.notes@.len() ==> (#[trigger] s.map.notes@[i]).time_ms * 1_000_000
                + 80_000_000 < i64::MAX,
    ensures
        !s.replay.failed ==> {
            &&& stats.score == s.replay.total_score
            &&& stats.hits == hits_in(s.state.outcome.results@)
            &&& stats.hits + stats.misses == s.map.notes@.len()
            &&& stats.resolved == s.map.notes@.len()
        },
        s.replay.failed ==> stats.score == 100 * run_after(
            s.state.outcome.results@,
            s.map.notes@,
            s.replay.fail_time_ms * 1_000_000 + 81_000_000,
            s.state.outcome.results@.len(),
        ).weight,
        stats.score >= 0 || !s.replay.failed,
{
    let results = s.state.outcome.results@;
    let notes = s.map.notes@;
    let t = results_time(s.replay);
    if !s.replay.failed {
        assert(all_known(results, notes, t, results.len())) by {
            assert forall|i: int| 0 <= i < results.len() implies {
                let note = notes[(#[trigger] results[i]).note_index as int];
                &&& results[i].hit ==> match results[i].hit_ms {
                    Some(ms) => ms <= t,
                    None => note.time_ms * 1_000_000 <= t,
                }
                &&& !results[i].hit ==> note.time_ms * 1_000_000 + 80_000_000 < t
            } by {
                assert(results[i].note_index == i);
                assert(notes[i].time_ms * 1_000_000 + 80_000_000 < i64::MAX);
            }
        }
        law_every_note_is_counted(results, notes, t, results.len());
        law_combo_is_the_streak(results, notes, t, results.len());
    }
    lemma_weight(results, notes, t, results.len());
}

proof fn lemma_weight(results: Seq<NoteResult>, notes: Seq<Note>, t: int, n: nat)
    requires
        n <= results.len(),
    ensures
        run_after(results, notes, t, n).weight >= 0,
        run_after(results, notes, t, n).combo >= 0,
    decreases n,
{
    if n > 0 {
        lemma_weight(results, notes, t, (n - 1) as nat);
    }
}

} // verus!
