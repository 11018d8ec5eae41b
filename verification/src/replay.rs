//! Notes of a map and frames of a recorded play.

use vstd::prelude::*;

use crate::fixed::{magnitude, COORDINATE_LIMIT};
use crate::hitreg::flagged;

verus! {

/// One note of a map. The grid runs from 0 to 2 in both directions; off-grid
/// (quantum) notes sit anywhere.
#[derive(Debug, Clone, Copy, PartialEq, Eq, Structural)]
pub struct Note {
    /// Chart time in whole milliseconds.
    pub time_ms: i64,
    /// Column, in millionths of a cell.
    pub x: i64,
    /// Row, in millionths of a cell.
    pub y: i64,
}

/// One recorded frame.
#[derive(Debug, Clone, Copy, PartialEq, Eq, Structural)]
pub struct Frame {
    /// Song time, in millionths of a millisecond.
    pub ms: i64,
    /// Cursor, in millionths of a world unit.
    pub x: i64,
    /// Cursor, in millionths of a world unit.
    pub y: i64,
    /// Health from 0 to 1, in millionths.
    pub health: i64,
    /// Set on the frame that hit a note.
    pub hit: bool,
}

/// Whether a number is small enough to work out positions in between.
pub open spec fn in_range(v: i64) -> bool {
    magnitude(v as int) <= COORDINATE_LIMIT
}

/// Whether every note has coordinates in range.
pub open spec fn notes_in_range(notes: Seq<Note>) -> bool {
    forall|i: int|
        0 <= i < notes.len() ==> in_range((#[trigger] notes[i]).x) && in_range(notes[i].y)
}

/// Whether every frame has a cursor and a health in range.
pub open spec fn frames_in_range(frames: Seq<Frame>) -> bool {
    forall|i: int|
        0 <= i < frames.len() ==> in_range((#[trigger] frames[i]).x) && in_range(frames[i].y)
            && in_range(frames[i].health)
}

fn fits(v: i64) -> (r: bool)
    ensures
        r == in_range(v),
{
    -COORDINATE_LIMIT <= v && v <= COORDINATE_LIMIT
}

/// Whether every note has coordinates in range.
pub fn notes_fit(notes: &[Note]) -> (r: bool)
    ensures
        r == notes_in_range(notes@),
{
    let mut i: usize = 0;
    while i < notes.len()
        invariant
            i <= notes@.len(),
            forall|k: int|
                0 <= k < i ==> in_range((#[trigger] notes@[k]).x) && in_range(notes@[k].y),
        decreases notes@.len() - i,
    {
        if !(fits(notes[i].x) && fits(notes[i].y)) {
            return false;
        }
        i = i + 1;
    }
    true
}

/// Whether every frame has a cursor and a health in range.
pub fn frames_fit(frames: &[Frame]) -> (r: bool)
    ensures
        r == frames_in_range(frames@),
{
    let mut i: usize = 0;
    while i < frames.len()
        invariant
            i <= frames@.len(),
            forall|k: int|
                0 <= k < i ==> in_range((#[trigger] frames@[k]).x) && in_range(frames@[k].y)
                    && in_range(frames@[k].health),
        decreases frames@.len() - i,
    {
        if !(fits(frames[i].x) && fits(frames[i].y) && fits(frames[i].health)) {
            return false;
        }
        i = i + 1;
    }
    true
}

/// What a map says about itself.
#[derive(Debug, Clone)]
pub struct MapMeta {
    /// Id on the server, where it has one.
    pub online_id: Option<i64>,
    /// Id of the map format, empty where unknown.
    pub legacy_id: String,
    /// Song title.
    pub song_name: String,
    /// Difficulty number.
    pub difficulty: i32,
    /// The mapper's own name for the difficulty, empty where there is none.
    pub custom_difficulty_name: String,
    /// Who made the map.
    pub mappers: Vec<String>,
    /// Length in whole milliseconds.
    pub duration_ms: i64,
}

/// A beatmap: its notes, sorted by time, and what it says about itself.
#[derive(Debug, Clone)]
pub struct Beatmap {
    /// Names, ids and length.
    pub meta: MapMeta,
    /// The notes, sorted by time.
    pub notes: Vec<Note>,
}

impl MapMeta {
    /// Whether two maps say the same about themselves.
    pub open spec fn same(&self, other: MapMeta) -> bool {
        &&& self.online_id == other.online_id
        &&& self.legacy_id@ == other.legacy_id@
        &&& self.song_name@ == other.song_name@
        &&& self.difficulty == other.difficulty
        &&& self.custom_difficulty_name@ == other.custom_difficulty_name@
        &&& self.mappers@.len() == other.mappers@.len()
        &&& forall|i: int|
            0 <= i < self.mappers@.len() ==> (#[trigger] self.mappers@[i])@ == other.mappers@[i]@
        &&& self.duration_ms == other.duration_ms
    }

    /// The same again.
    pub fn copy(&self) -> (m: MapMeta)
        ensures
            m.same(*self),
    {
        let mut mappers: Vec<String> = Vec::new();
        let mut i: usize = 0;
        while i < self.mappers.len()
            invariant
                i <= self.mappers@.len(),
                mappers@.len() == i,
                forall|j: int| 0 <= j < i ==> (#[trigger] mappers@[j])@ == self.mappers@[j]@,
            decreases self.mappers@.len() - i,
        {
            mappers.push(self.mappers[i].clone());
            i = i + 1;
        }
        MapMeta {
            online_id: self.online_id,
            legacy_id: self.legacy_id.clone(),
            song_name: self.song_name.clone(),
            difficulty: self.difficulty,
            custom_difficulty_name: self.custom_difficulty_name.clone(),
            mappers,
            duration_ms: self.duration_ms,
        }
    }
}

/// A recorded play: the header that the game wrote, and the frames.
#[derive(Debug, Clone)]
pub struct Replay {
    /// When it was recorded, in ticks of 100 ns since the year 1.
    pub timestamp_ticks: i64,
    /// Who played.
    pub player_name: String,
    /// Id of the map format, empty where unknown.
    pub legacy_map_id: String,
    /// Id of the map on the server.
    pub map_id: i32,
    /// Where the run was started, in whole milliseconds of song time.
    pub start_from_ms: i32,
    /// Whether the run ended early.
    pub failed: bool,
    /// The mods as a JSON list of names.
    pub mods: String,
    /// Playback speed, in millionths.
    pub speed: i64,
    /// Score that the game wrote.
    pub total_score: i64,
    /// Accuracy that the game wrote, in millionths of a percent.
    pub accuracy_pct: i64,
    /// Hits that the game wrote.
    pub hits: i32,
    /// Misses that the game wrote.
    pub misses: i32,
    /// Points that the game wrote, in millionths.
    pub points: i64,
    /// When the run ended early, in whole milliseconds of song time.
    pub fail_time_ms: i32,
    /// Length of the recording, in millionths of a millisecond.
    pub length_ms: i64,
    /// The frames in recorded order.
    pub frames: Vec<Frame>,
    /// Bytes left over behind the last frame.
    pub trailing_bytes: u64,
}

impl Replay {
    /// The number of frames that carry a hit flag.
    pub fn flagged_frames(&self) -> (n: u32)
        requires
            self.frames@.len() <= u32::MAX,
        ensures
            n == flagged(self.frames@).len(),
    {
        let mut n: u32 = 0;
        let mut i: usize = 0;
        while i < self.frames.len()
            invariant
                i <= self.frames@.len() <= u32::MAX,
                n == flagged(self.frames@.take(i as int)).len(),
                n <= i,
            decreases self.frames@.len() - i,
        {
            assert(self.frames@.take(i + 1).drop_last() =~= self.frames@.take(i as int));
            if self.frames[i].hit {
                n = n + 1;
            }
            i = i + 1;
        }
        assert(self.frames@.take(i as int) =~= self.frames@);
        n
    }
}

} // verus!
