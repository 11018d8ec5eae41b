//! Matches the replay's per-frame hit flags to individual map notes.
//!
//! Each frame carries a flag set exactly on the frame where a note was hit.
//! Notes are hit in chronological order, so flagged frames form an
//! order-preserving subsequence of the notes: the alignment is a monotonic
//! two-pointer walk. A flag that can no longer match any future note is
//! counted as an orphan and skipped, so it never stalls the walk.
//!
//! Timing alone cannot tell near-simultaneous notes apart. A second phase
//! moves a flag from its note to a missed neighbour where the recorded cursor
//! covered the missed note's hit area and not the attributed one's. Totals
//! never change: each move trades one hit and one miss.

use vstd::prelude::*;

use crate::count::{lemma_tally_bound, lemma_tally_change, lemma_tally_grows, lemma_tally_same, tally};
use crate::fixed::{magnitude, ONE};
use crate::replay::{Frame, Note};

verus! {

/// Tolerance between a flagged frame and its note, in millionths of a
/// millisecond: 80 ms, the largest distance seen on real replays.
pub const DEFAULT_WINDOW_MS: i64 = 80_000_000;

/// Half the width of the game's hit area around a note's centre, in millionths
/// of a world unit.
pub const HITBOX_HALF: i64 = 568_750;

/// How far a flag may precede the note it moves to, in millionths of a
/// millisecond: one frame of stamp quantization.
pub const EARLY_SLACK_MS: i64 = 17_000_000;

/// What became of one note.
#[derive(Debug, Clone, Copy, PartialEq, Eq, Structural)]
pub struct NoteResult {
    /// Index into the notes this result belongs to.
    pub note_index: usize,
    /// Whether a flag was attributed to the note.
    pub hit: bool,
    /// Song time of the flagged frame that hit this note.
    pub hit_ms: Option<i64>,
}

/// The notes of a map matched against the flags of a replay.
#[derive(Debug, Clone)]
pub struct MatchOutcome {
    /// One entry per input note, in note order.
    pub results: Vec<NoteResult>,
    /// Flagged frames that matched no note within the window.
    pub orphan_flags: u32,
}

/// The frames that carry a hit flag, in order.
pub open spec fn flagged(frames: Seq<Frame>) -> Seq<Frame>
    decreases frames.len(),
{
    if frames.len() == 0 {
        Seq::empty()
    } else if frames.last().hit {
        flagged(frames.drop_last()).push(frames.last())
    } else {
        flagged(frames.drop_last())
    }
}

/// A note's chart time on the replay's clock.
pub open spec fn chart_time(note: Note) -> int {
    note.time_ms * ONE
}

/// Whether the cursor of `frame` lies in the hit area of `note`. The grid maps
/// to the world by `(x - 1, 1 - y)`.
pub open spec fn covered(frame: Frame, note: Note) -> bool {
    &&& magnitude(frame.x - (note.x - ONE)) <= HITBOX_HALF
    &&& magnitude(frame.y - (ONE - note.y)) <= HITBOX_HALF
}

/// The first flag at or after `from` that is not earlier than `t`; the number
/// of flags where there is none.
pub open spec fn first_not_before(flags: Seq<Frame>, from: int, t: int) -> int
    decreases flags.len() - from,
{
    if from < 0 || from >= flags.len() || flags[from].ms >= t {
        from
    } else {
        first_not_before(flags, from + 1, t)
    }
}

/// The walk over the first `n` notes: which flag each note takes, and the first
/// flag that is still free. A note takes the first free flag that is not more
/// than the window early, if that flag is not more than the window late.
pub open spec fn walk(notes: Seq<Note>, flags: Seq<Frame>, window: int, n: nat) -> (
    Seq<Option<int>>,
    int,
)
    decreases n,
{
    if n == 0 {
        (Seq::empty(), 0)
    } else {
        let (owned, free) = walk(notes, flags, window, (n - 1) as nat);
        let t = chart_time(notes[n - 1]);
        let k = first_not_before(flags, free, t - window);
        if k < flags.len() && magnitude(flags[k].ms - t) <= window {
            (owned.push(Some(k)), k + 1)
        } else {
            (owned.push(None), k)
        }
    }
}

/// Whether missed note `mi` takes the flag of note `hi`: the flag fits the
/// missed note in time, and the cursor is unambiguous.
pub open spec fn takes(
    notes: Seq<Note>,
    flags: Seq<Frame>,
    window: int,
    owned: Seq<Option<int>>,
    mi: int,
    hi: int,
) -> bool {
    &&& owned[mi] is None
    &&& owned[hi] matches Some(k) && {
        &&& flags[k].ms - chart_time(notes[mi]) <= window
        &&& chart_time(notes[mi]) - flags[k].ms <= EARLY_SLACK_MS
        &&& covered(flags[k], notes[mi])
        &&& !covered(flags[k], notes[hi])
    }
}

/// The first note at or after `from` whose flag note `mi` takes; the number of
/// notes where there is none.
pub open spec fn donor(
    notes: Seq<Note>,
    flags: Seq<Frame>,
    window: int,
    owned: Seq<Option<int>>,
    mi: int,
    from: int,
) -> int
    decreases owned.len() - from,
{
    if from < 0 || from >= owned.len() || takes(notes, flags, window, owned, mi, from) {
        from
    } else {
        donor(notes, flags, window, owned, mi, from + 1)
    }
}

/// Moves a flag to note `mi` where one is to be taken.
pub open spec fn settle_note(
    notes: Seq<Note>,
    flags: Seq<Frame>,
    window: int,
    owned: Seq<Option<int>>,
    mi: int,
) -> Seq<Option<int>> {
    let hi = donor(notes, flags, window, owned, mi, 0);
    if owned[mi] is None && hi < owned.len() {
        owned.update(mi, owned[hi]).update(hi, None)
    } else {
        owned
    }
}

/// One pass over the first `n` notes, in order.
pub open spec fn settle_pass(
    notes: Seq<Note>,
    flags: Seq<Frame>,
    window: int,
    owned: Seq<Option<int>>,
    n: nat,
) -> Seq<Option<int>>
    decreases n,
{
    if n == 0 {
        owned
    } else {
        settle_note(
            notes,
            flags,
            window,
            settle_pass(notes, flags, window, owned, (n - 1) as nat),
            n - 1,
        )
    }
}

/// `passes` passes over all notes.
pub open spec fn settle(
    notes: Seq<Note>,
    flags: Seq<Frame>,
    window: int,
    owned: Seq<Option<int>>,
    passes: nat,
) -> Seq<Option<int>>
    decreases passes,
{
    if passes == 0 {
        owned
    } else {
        settle(
            notes,
            flags,
            window,
            settle_pass(notes, flags, window, owned, owned.len()),
            (passes - 1) as nat,
        )
    }
}

/// Which flag each note ends up with: the walk, then, where the cursor guides,
/// one pass per note.
pub open spec fn attribution(
    notes: Seq<Note>,
    frames: Seq<Frame>,
    window: int,
    cursor_guided: bool,
) -> Seq<Option<int>> {
    let flags = flagged(frames);
    let owned = walk(notes, flags, window, notes.len()).0;
    if cursor_guided {
        settle(notes, flags, window, owned, notes.len())
    } else {
        owned
    }
}

/// How many notes own a flag.
pub open spec fn owners(owned: Seq<Option<int>>) -> nat {
    tally(|i: int| owned[i] is Some, owned.len())
}

/// How many notes own a flag whose cursor covered them.
pub open spec fn consistent_owners(
    notes: Seq<Note>,
    flags: Seq<Frame>,
    owned: Seq<Option<int>>,
) -> nat {
    tally(|i: int| owned[i] is Some && covered(flags[owned[i]->0], notes[i]), owned.len())
}

/// How many results are hits.
pub open spec fn hits_in(results: Seq<NoteResult>) -> nat {
    tally(|i: int| results[i].hit, results.len())
}

/// The result of a note that owns flag `own`.
pub open spec fn result_of(flags: Seq<Frame>, i: int, own: Option<int>) -> NoteResult {
    NoteResult {
        note_index: i as usize,
        hit: own is Some,
        hit_ms: match own {
            Some(k) => Some(flags[k].ms),
            None => None,
        },
    }
}

/// Whether `out` is what matching these notes and frames gives.
pub open spec fn is_outcome(
    out: MatchOutcome,
    notes: Seq<Note>,
    frames: Seq<Frame>,
    window: int,
    cursor_guided: bool,
) -> bool {
    let flags = flagged(frames);
    let owned = attribution(notes, frames, window, cursor_guided);
    &&& out.results@.len() == notes.len()
    &&& forall|i: int|
        0 <= i < notes.len() ==> #[trigger] out.results@[i] == result_of(flags, i, owned[i])
    &&& out.orphan_flags == flags.len() - owners(owned)
}

impl MatchOutcome {
    /// The number of notes that were hit.
    pub fn derived_hits(&self) -> (hits: u32)
        requires
            self.results@.len() <= u32::MAX,
        ensures
            hits == hits_in(self.results@),
    {
        let mut n: u32 = 0;
        let mut i: usize = 0;
        let ghost p = |i: int| self.results@[i].hit;
        while i < self.results.len()
            invariant
                i <= self.results@.len() <= u32::MAX,
                p == (|i: int| self.results@[i].hit),
                n == tally(p, i as nat),
                n <= i,
            decreases self.results@.len() - i,
        {
            if self.results[i].hit {
                n = n + 1;
            }
            i = i + 1;
        }
        n
    }
}

/// Whether the cursor of `frame` lies in the hit area of `note`.
pub fn covers(frame: &Frame, note: &Note) -> (r: bool)
    ensures
        r == covered(*frame, *note),
{
    let dx: i128 = frame.x as i128 - (note.x as i128 - ONE as i128);
    let dy: i128 = frame.y as i128 - (ONE as i128 - note.y as i128);
    let half: i128 = HITBOX_HALF as i128;
    -half <= dx && dx <= half && -half <= dy && dy <= half
}

proof fn lemma_first_not_before(flags: Seq<Frame>, from: int, t: int)
    requires
        0 <= from <= flags.len(),
    ensures
        from <= first_not_before(flags, from, t) <= flags.len(),
        first_not_before(flags, from, t) < flags.len() ==> flags[first_not_before(
            flags,
            from,
            t,
        )].ms >= t,
    decreases flags.len() - from,
{
    if from < flags.len() && flags[from].ms < t {
        lemma_first_not_before(flags, from + 1, t);
    }
}

/// Every flag a note owns after the walk lies within the window of the note,
/// and later notes own later flags.
pub open spec fn in_order(owned: Seq<Option<int>>, free: int) -> bool {
    &&& forall|i: int| 0 <= i < owned.len() && #[trigger] owned[i] is Some ==> 0 <= owned[i]->0 < free
    &&& forall|i: int, j: int|
        0 <= i < j < owned.len() && #[trigger] owned[i] is Some && #[trigger] owned[j] is Some
            ==> owned[i]->0 < owned[j]->0
}

/// No two notes own the same flag, and every owned flag exists.
pub open spec fn distinct_owners(owned: Seq<Option<int>>, flags: int) -> bool {
    &&& forall|i: int| 0 <= i < owned.len() && #[trigger] owned[i] is Some ==> 0 <= owned[i]->0 < flags
    &&& forall|i: int, j: int|
        0 <= i < j < owned.len() && #[trigger] owned[i] is Some && #[trigger] owned[j] is Some
            ==> owned[i]->0 != owned[j]->0
}

proof fn lemma_walk(notes: Seq<Note>, flags: Seq<Frame>, window: int, n: nat)
    requires
        n <= notes.len(),
    ensures
        ({
            let (owned, free) = walk(notes, flags, window, n);
            &&& owned.len() == n
            &&& 0 <= free <= flags.len()
            &&& in_order(owned, free)
            &&& owners(owned) <= free
            &&& forall|i: int|
                0 <= i < n && #[trigger] owned[i] is Some ==> magnitude(
                    flags[owned[i]->0].ms - chart_time(notes[i]),
                ) <= window
        }),
    decreases n,
{
    if n > 0 {
        lemma_walk(notes, flags, window, (n - 1) as nat);
        let (before, free) = walk(notes, flags, window, (n - 1) as nat);
        let t = chart_time(notes[n - 1]);
        lemma_first_not_before(flags, free, t - window);
    lemma_all_before(flags, free, t - window);
        let owned = walk(notes, flags, window, n).0;
        assert forall|i: int| 0 <= i < n - 1 implies owned[i] == before[i] by {}
        lemma_tally_same(
            |i: int| owned[i] is Some,
            |i: int| before[i] is Some,
            (n - 1) as nat,
        );
    }
}

proof fn lemma_donor(
    notes: Seq<Note>,
    flags: Seq<Frame>,
    window: int,
    owned: Seq<Option<int>>,
    mi: int,
    from: int,
)
    requires
        0 <= from <= owned.len(),
    ensures
        ({
            let hi = donor(notes, flags, window, owned, mi, from);
            &&& from <= hi <= owned.len()
            &&& hi < owned.len() ==> takes(notes, flags, window, owned, mi, hi)
            &&& forall|h: int| from <= h < hi ==> !takes(notes, flags, window, owned, mi, h)
        }),
    decreases owned.len() - from,
{
    if from < owned.len() && !takes(notes, flags, window, owned, mi, from) {
        lemma_donor(notes, flags, window, owned, mi, from + 1);
    }
}

/// What every step of the second phase keeps.
pub open spec fn kept(
    notes: Seq<Note>,
    flags: Seq<Frame>,
    window: int,
    before: Seq<Option<int>>,
    after: Seq<Option<int>>,
) -> bool {
    &&& after.len() == before.len()
    &&& owners(after) == owners(before)
    &&& distinct_owners(before, flags.len() as int) ==> distinct_owners(after, flags.len() as int)
    &&& fitting(notes, flags, window, before) ==> fitting(notes, flags, window, after)
}

/// Every owned flag fits its note in time: at most the window late, and at most
/// the window or the early slack early.
pub open spec fn fitting(
    notes: Seq<Note>,
    flags: Seq<Frame>,
    window: int,
    owned: Seq<Option<int>>,
) -> bool {
    forall|i: int|
        0 <= i < owned.len() && #[trigger] owned[i] is Some ==> {
            let late = flags[owned[i]->0].ms - chart_time(notes[i]);
            late <= window && (-late <= window || -late <= EARLY_SLACK_MS)
        }
}

proof fn lemma_settle_note(
    notes: Seq<Note>,
    flags: Seq<Frame>,
    window: int,
    owned: Seq<Option<int>>,
    mi: int,
)
    requires
        0 <= mi < owned.len(),
    ensures
        ({
            let after = settle_note(notes, flags, window, owned, mi);
            &&& kept(notes, flags, window, owned, after)
            &&& ({
                ||| after == owned && forall|hi: int|
                    0 <= hi < owned.len() ==> !takes(notes, flags, window, owned, mi, hi)
                ||| consistent_owners(notes, flags, after) == consistent_owners(notes, flags, owned)
                    + 1
            })
        }),
{
    lemma_donor(notes, flags, window, owned, mi, 0);
    let hi = donor(notes, flags, window, owned, mi, 0);
    let after = settle_note(notes, flags, window, owned, mi);
    if owned[mi] is None && hi < owned.len() {
        let mid = owned.update(mi, owned[hi]);
        let n = owned.len();
        lemma_tally_change(|i: int| owned[i] is Some, |i: int| mid[i] is Some, n, mi);
        lemma_tally_change(|i: int| mid[i] is Some, |i: int| after[i] is Some, n, hi);
        let p = |i: int| owned[i] is Some && covered(flags[owned[i]->0], notes[i]);
        let q = |i: int| mid[i] is Some && covered(flags[mid[i]->0], notes[i]);
        let r = |i: int| after[i] is Some && covered(flags[after[i]->0], notes[i]);
        lemma_tally_change(p, q, n, mi);
        lemma_tally_change(q, r, n, hi);
        assert(!q(hi));
        assert(!r(hi));
        assert(!p(mi));
        assert(q(mi));
    }
}

proof fn lemma_settle_pass(
    notes: Seq<Note>,
    flags: Seq<Frame>,
    window: int,
    owned: Seq<Option<int>>,
    n: nat,
)
    requires
        n <= owned.len(),
    ensures
        ({
            let after = settle_pass(notes, flags, window, owned, n);
            &&& kept(notes, flags, window, owned, after)
            &&& ({
                ||| after == owned && forall|mi: int, hi: int|
                    0 <= mi < n && 0 <= hi < owned.len() ==> !takes(
                        notes,
                        flags,
                        window,
                        owned,
                        mi,
                        hi,
                    )
                ||| consistent_owners(notes, flags, after) > consistent_owners(notes, flags, owned)
            })
        }),
    decreases n,
{
    if n > 0 {
        lemma_settle_pass(notes, flags, window, owned, (n - 1) as nat);
        let mid = settle_pass(notes, flags, window, owned, (n - 1) as nat);
        lemma_settle_note(notes, flags, window, mid, n - 1);
    }
}

/// No missed note can take a flag any more.
pub open spec fn settled(
    notes: Seq<Note>,
    flags: Seq<Frame>,
    window: int,
    owned: Seq<Option<int>>,
) -> bool {
    forall|mi: int, hi: int|
        0 <= mi < owned.len() && 0 <= hi < owned.len() ==> !takes(
            notes,
            flags,
            window,
            owned,
            mi,
            hi,
        )
}

proof fn lemma_settled_stays(
    notes: Seq<Note>,
    flags: Seq<Frame>,
    window: int,
    owned: Seq<Option<int>>,
    n: nat,
)
    requires
        settled(notes, flags, window, owned),
        n <= owned.len(),
    ensures
        settle_pass(notes, flags, window, owned, n) == owned,
    decreases n,
{
    if n > 0 {
        lemma_settled_stays(notes, flags, window, owned, (n - 1) as nat);
        lemma_donor(notes, flags, window, owned, n - 1, 0);
    }
}

proof fn lemma_settled_for_good(
    notes: Seq<Note>,
    flags: Seq<Frame>,
    window: int,
    owned: Seq<Option<int>>,
    passes: nat,
)
    requires
        settled(notes, flags, window, owned),
    ensures
        settle(notes, flags, window, owned, passes) == owned,
    decreases passes,
{
    if passes > 0 {
        lemma_settled_stays(notes, flags, window, owned, owned.len());
        lemma_settled_for_good(notes, flags, window, owned, (passes - 1) as nat);
    }
}

proof fn lemma_settle(
    notes: Seq<Note>,
    flags: Seq<Frame>,
    window: int,
    owned: Seq<Option<int>>,
    passes: nat,
)
    ensures
        ({
            let after = settle(notes, flags, window, owned, passes);
            &&& kept(notes, flags, window, owned, after)
            &&& settled(notes, flags, window, after) || consistent_owners(notes, flags, after)
                >= consistent_owners(notes, flags, owned) + passes
        }),
    decreases passes,
{
    if passes > 0 {
        let next = settle_pass(notes, flags, window, owned, owned.len());
        lemma_settle_pass(notes, flags, window, owned, owned.len());
        if next == owned && settled(notes, flags, window, owned) {
            lemma_settled_for_good(notes, flags, window, owned, passes);
        } else {
            lemma_settle(notes, flags, window, next, (passes - 1) as nat);
        }
    }
}

proof fn lemma_enough_passes(
    notes: Seq<Note>,
    flags: Seq<Frame>,
    window: int,
    owned: Seq<Option<int>>,
)
    ensures
        settled(notes, flags, window, settle(notes, flags, window, owned, owned.len())),
{
    let after = settle(notes, flags, window, owned, owned.len());
    lemma_settle(notes, flags, window, owned, owned.len());
    if !settled(notes, flags, window, after) {
        let p = |i: int| after[i] is Some && covered(flags[after[i]->0], notes[i]);
        lemma_tally_bound(p, after.len());
        assert(forall|i: int| 0 <= i < after.len() ==> #[trigger] p(i));
        assert forall|mi: int, hi: int|
            0 <= mi < after.len() && 0 <= hi < after.len() implies !takes(
            notes,
            flags,
            window,
            after,
            mi,
            hi,
        ) by {
            assert(p(mi));
        }
    }
}

/// The second phase never changes totals: as many notes are hit, and as many
/// flags are orphans, as timing alone gives.
pub proof fn law_totals_are_kept(notes: Seq<Note>, frames: Seq<Frame>, window: int)
    ensures
        owners(attribution(notes, frames, window, true)) == owners(
            attribution(notes, frames, window, false),
        ),
{
    let flags = flagged(frames);
    lemma_walk(notes, flags, window, notes.len());
    lemma_settle(
        notes,
        flags,
        window,
        walk(notes, flags, window, notes.len()).0,
        notes.len(),
    );
}

/// When each note was hit, where it was.
pub open spec fn hit_times(results: Seq<NoteResult>) -> Seq<Option<i64>> {
    Seq::new(results.len(), |i: int| results[i].hit_ms)
}

spec fn times_of(flags: Seq<Frame>, owned: Seq<Option<int>>) -> Seq<Option<i64>> {
    Seq::new(owned.len(), |i: int| result_of(flags, i, owned[i]).hit_ms)
}

proof fn lemma_settle_note_times(
    notes: Seq<Note>,
    flags: Seq<Frame>,
    window: int,
    owned: Seq<Option<int>>,
    mi: int,
)
    requires
        0 <= mi < owned.len(),
    ensures
        ({
            let after = settle_note(notes, flags, window, owned, mi);
            &&& after.len() == owned.len()
            &&& times_of(flags, after).to_multiset() == times_of(flags, owned).to_multiset()
        }),
{
    lemma_donor(notes, flags, window, owned, mi, 0);
    let hi = donor(notes, flags, window, owned, mi, 0);
    let after = settle_note(notes, flags, window, owned, mi);
    if owned[mi] is None && hi < owned.len() {
        let t = times_of(flags, owned);
        let mid = t.update(mi, t[hi]);
        assert(t[mi] is None);
        assert(mi != hi);
        assert(times_of(flags, after) =~= mid.update(hi, None));
        vstd::seq_lib::to_multiset_update(t, mi, t[hi]);
        vstd::seq_lib::to_multiset_update(mid, hi, None);
        broadcast use vstd::multiset::group_multiset_axioms;
        broadcast use vstd::seq_lib::group_to_multiset_ensures;

        assert(t.to_multiset().count(None) > 0) by {
            assert(t.contains(t[mi]));
        }
        assert(mid.update(hi, None).to_multiset() =~= t.to_multiset());
    }
}

proof fn lemma_settle_pass_times(
    notes: Seq<Note>,
    flags: Seq<Frame>,
    window: int,
    owned: Seq<Option<int>>,
    n: nat,
)
    requires
        n <= owned.len(),
    ensures
        ({
            let after = settle_pass(notes, flags, window, owned, n);
            &&& after.len() == owned.len()
            &&& times_of(flags, after).to_multiset() == times_of(flags, owned).to_multiset()
        }),
    decreases n,
{
    if n > 0 {
        lemma_settle_pass_times(notes, flags, window, owned, (n - 1) as nat);
        let mid = settle_pass(notes, flags, window, owned, (n - 1) as nat);
        lemma_settle_note_times(notes, flags, window, mid, n - 1);
    }
}

proof fn lemma_settle_times(
    notes: Seq<Note>,
    flags: Seq<Frame>,
    window: int,
    owned: Seq<Option<int>>,
    passes: nat,
)
    ensures
        ({
            let after = settle(notes, flags, window, owned, passes);
            &&& after.len() == owned.len()
            &&& times_of(flags, after).to_multiset() == times_of(flags, owned).to_multiset()
        }),
    decreases passes,
{
    if passes > 0 {
        let next = settle_pass(notes, flags, window, owned, owned.len());
        lemma_settle_pass_times(notes, flags, window, owned, owned.len());
        lemma_settle_times(notes, flags, window, next, (passes - 1) as nat);
    }
}

/// The second phase only passes hits on: the same hit times come out, each as often as timing
/// alone gives it.
pub proof fn law_hit_times_are_kept(
    guided: MatchOutcome,
    timed: MatchOutcome,
    notes: Seq<Note>,
    frames: Seq<Frame>,
    window: int,
)
    requires
        is_outcome(guided, notes, frames, window, true),
        is_outcome(timed, notes, frames, window, false),
    ensures
        hit_times(guided.results@).to_multiset() == hit_times(timed.results@).to_multiset(),
{
    let flags = flagged(frames);
    let owned = walk(notes, flags, window, notes.len()).0;
    lemma_walk(notes, flags, window, notes.len());
    lemma_settle_times(notes, flags, window, owned, notes.len());
    assert(hit_times(timed.results@) =~= times_of(flags, owned));
    assert(hit_times(guided.results@) =~= times_of(
        flags,
        attribution(notes, frames, window, true),
    ));
}

/// Each flag is attributed to at most one note, and every attributed flag fits
/// its note in time: within the window, or, where the cursor moved it, at most
/// the early slack before the note.
pub proof fn law_flags_are_shared_out(
    notes: Seq<Note>,
    frames: Seq<Frame>,
    window: int,
    cursor_guided: bool,
)
    ensures
        attribution(notes, frames, window, cursor_guided).len() == notes.len(),
        distinct_owners(
            attribution(notes, frames, window, cursor_guided),
            flagged(frames).len() as int,
        ),
        fitting(notes, flagged(frames), window, attribution(notes, frames, window, cursor_guided)),
{
    let flags = flagged(frames);
    lemma_walk(notes, flags, window, notes.len());
    lemma_settle(
        notes,
        flags,
        window,
        walk(notes, flags, window, notes.len()).0,
        notes.len(),
    );
}

/// No more notes are hit than frames carry a flag.
pub proof fn law_hits_are_flags(
    notes: Seq<Note>,
    frames: Seq<Frame>,
    window: int,
    cursor_guided: bool,
)
    ensures
        owners(attribution(notes, frames, window, cursor_guided)) <= flagged(frames).len(),
{
    lemma_walk(notes, flagged(frames), window, notes.len());
    law_totals_are_kept(notes, frames, window);
}

/// Timing alone keeps the order: a later note owns a later flag.
pub proof fn law_timing_keeps_order(notes: Seq<Note>, frames: Seq<Frame>, window: int)
    ensures
        in_order(attribution(notes, frames, window, false), flagged(frames).len() as int),
{
    lemma_walk(notes, flagged(frames), window, notes.len());
}

/// One pass per note is enough: afterwards no missed note was covered by the
/// cursor of a flag that belongs to it in time and whose own note the cursor did
/// not cover.
pub proof fn law_attribution_settles(notes: Seq<Note>, frames: Seq<Frame>, window: int)
    ensures
        settled(notes, flagged(frames), window, attribution(notes, frames, window, true)),
{
    let flags = flagged(frames);
    lemma_walk(notes, flags, window, notes.len());
    lemma_enough_passes(notes, flags, window, walk(notes, flags, window, notes.len()).0);
}

/// The second phase never makes the attribution agree less with the cursor.
pub proof fn law_cursor_agreement_grows(notes: Seq<Note>, frames: Seq<Frame>, window: int)
    ensures
        consistent_owners(notes, flagged(frames), attribution(notes, frames, window, true))
            >= consistent_owners(
            notes,
            flagged(frames),
            attribution(notes, frames, window, false),
        ),
{
    let flags = flagged(frames);
    lemma_agreement_grows(
        notes,
        flags,
        window,
        walk(notes, flags, window, notes.len()).0,
        notes.len(),
    );
}

proof fn lemma_agreement_grows(
    notes: Seq<Note>,
    flags: Seq<Frame>,
    window: int,
    owned: Seq<Option<int>>,
    passes: nat,
)
    ensures
        consistent_owners(notes, flags, settle(notes, flags, window, owned, passes))
            >= consistent_owners(notes, flags, owned),
    decreases passes,
{
    if passes > 0 {
        lemma_settle_pass(notes, flags, window, owned, owned.len());
        lemma_agreement_grows(
            notes,
            flags,
            window,
            settle_pass(notes, flags, window, owned, owned.len()),
            (passes - 1) as nat,
        );
    }
}

/// The outcome accounts for every flag: hits and orphans together are the
/// flagged frames. A note is hit exactly when its hit time is known.
pub proof fn law_every_flag_is_accounted_for(
    out: MatchOutcome,
    notes: Seq<Note>,
    frames: Seq<Frame>,
    window: int,
    cursor_guided: bool,
)
    requires
        is_outcome(out, notes, frames, window, cursor_guided),
    ensures
        hits_in(out.results@) == owners(attribution(notes, frames, window, cursor_guided)),
        hits_in(out.results@) + out.orphan_flags == flagged(frames).len(),
        forall|i: int|
            0 <= i < out.results@.len() ==> (#[trigger] out.results@[i]).hit
                == out.results@[i].hit_ms is Some,
{
    let owned = attribution(notes, frames, window, cursor_guided);
    law_flags_are_shared_out(notes, frames, window, cursor_guided);
    lemma_tally_same(
        |i: int| out.results@[i].hit,
        |i: int| owned[i] is Some,
        notes.len(),
    );
}

/// The indices of `owned` as mathematical integers.
spec fn ints(owned: Seq<Option<usize>>) -> Seq<Option<int>> {
    Seq::new(
        owned.len(),
        |i: int|
            match owned[i] {
                Some(k) => Some(k as int),
                None => None::<int>,
            },
    )
}

/// Collects the flagged frames.
fn flag_frames(frames: &[Frame]) -> (flags: Vec<Frame>)
    ensures
        flags@ == flagged(frames@),
        flags@.len() <= frames@.len(),
{
    let mut flags: Vec<Frame> = Vec::new();
    let mut i: usize = 0;
    while i < frames.len()
        invariant
            i <= frames@.len(),
            flags@ == flagged(frames@.take(i as int)),
            flags@.len() <= i,
        decreases frames@.len() - i,
    {
        assert(frames@.take(i + 1).drop_last() =~= frames@.take(i as int));
        if frames[i].hit {
            flags.push(frames[i]);
        }
        i = i + 1;
    }
    assert(frames@.take(i as int) =~= frames@);
    flags
}

/// The walk over all notes: which flag each note takes.
fn walk_notes(notes: &[Note], flags: &[Frame], window_ms: i64) -> (owned: Vec<Option<usize>>)
    ensures
        ints(owned@) == walk(notes@, flags@, window_ms as int, notes@.len()).0,
{
    let mut owned: Vec<Option<usize>> = Vec::new();
    let mut fi: usize = 0;
    let mut ni: usize = 0;
    while ni < notes.len()
        invariant
            ni <= notes@.len(),
            owned@.len() == ni,
            fi <= flags@.len(),
            (ints(owned@), fi as int) == walk(notes@, flags@, window_ms as int, ni as nat),
        decreases notes@.len() - ni,
    {
        let ms: i128 = notes[ni].time_ms as i128;
        assert(-0x8000_0000_0000_0000 <= ms <= 0x7fff_ffff_ffff_ffff);
        let t: i128 = ms * 1_000_000;
        assert(t == chart_time(notes@[ni as int]));
        let earliest: i128 = t - window_ms as i128;
        let ghost free = fi as int;
        while fi < flags.len() && (flags[fi].ms as i128) < earliest
            invariant
                free <= fi <= flags@.len(),
                first_not_before(flags@, free, earliest as int) == first_not_before(
                    flags@,
                    fi as int,
                    earliest as int,
                ),
            decreases flags@.len() - fi,
        {
            fi = fi + 1;
        }
        let ghost before = ints(owned@);
        let mut own: Option<usize> = None;
        if fi < flags.len() {
            let late: i128 = flags[fi].ms as i128 - t;
            if late <= window_ms as i128 && -late <= window_ms as i128 {
                own = Some(fi);
                fi = fi + 1;
            }
        }
        owned.push(own);
        proof {
            assert(ints(owned@) =~= before.push(
                match own {
                    Some(k) => Some(k as int),
                    None => None::<int>,
                },
            ));
        }
        ni = ni + 1;
    }
    owned
}

/// One pass of cursor-guided reattribution. Returns whether a flag moved.
fn settle_notes(
    notes: &[Note],
    flags: &[Frame],
    window_ms: i64,
    owned: &mut Vec<Option<usize>>,
) -> (changed: bool)
    requires
        old(owned)@.len() == notes@.len(),
        distinct_owners(ints(old(owned)@), flags@.len() as int),
    ensures
        ints(final(owned)@) == settle_pass(
            notes@,
            flags@,
            window_ms as int,
            ints(old(owned)@),
            notes@.len(),
        ),
        !changed ==> ints(final(owned)@) == ints(old(owned)@),
{
    let ghost start = ints(owned@);
    let ghost w = window_ms as int;
    let mut changed: bool = false;
    let mut mi: usize = 0;
    while mi < notes.len()
        invariant
            mi <= notes@.len(),
            owned@.len() == notes@.len(),
            start.len() == notes@.len(),
            w == window_ms,
            start == ints(old(owned)@),
            distinct_owners(start, flags@.len() as int),
            ints(owned@) == settle_pass(notes@, flags@, w, start, mi as nat),
            !changed ==> ints(owned@) == start,
        decreases notes@.len() - mi,
    {
        let ghost mid = ints(owned@);
        proof {
            lemma_settle_pass(notes@, flags@, w, start, mi as nat);
        }
        if owned[mi].is_none() {
            let t: i128 = notes[mi].time_ms as i128 * ONE as i128;
            let mut hi: usize = 0;
            let mut found: bool = false;
            while hi < notes.len() && !found
                invariant
                    hi <= notes@.len(),
                    mi < notes@.len(),
                    owned@.len() == notes@.len(),
                    mid == ints(owned@),
                    w == window_ms,
                    t == chart_time(notes@[mi as int]),
                    mid[mi as int] is None,
                    distinct_owners(mid, flags@.len() as int),
                    found ==> hi < notes@.len() && takes(
                        notes@,
                        flags@,
                        w,
                        mid,
                        mi as int,
                        hi as int,
                    ),
                    donor(notes@, flags@, w, mid, mi as int, 0) == donor(
                        notes@,
                        flags@,
                        w,
                        mid,
                        mi as int,
                        hi as int,
                    ),
                decreases notes@.len() - hi, (if found { 0int } else { 1int }),
            {
                let mut take: bool = false;
                if let Some(k) = owned[hi] {
                    assert(mid[hi as int] == Some(k as int));
                    let flag: Frame = flags[k];
                    let late: i128 = flag.ms as i128 - t;
                    if late <= window_ms as i128 && -late <= EARLY_SLACK_MS as i128 {
                        take = covers(&flag, &notes[mi]) && !covers(&flag, &notes[hi]);
                    }
                }
                if take {
                    found = true;
                } else {
                    hi = hi + 1;
                }
            }
            if found {
                let own: Option<usize> = owned[hi];
                owned.set(mi, own);
                owned.set(hi, None);
                changed = true;
                assert(ints(owned@) =~= mid.update(mi as int, mid[hi as int]).update(
                    hi as int,
                    None,
                ));
            }
        }
        assert(ints(owned@) == settle_note(notes@, flags@, w, mid, mi as int));
        mi = mi + 1;
    }
    changed
}

/// Cursor-guided reattribution, run until nothing moves.
fn settle_all(notes: &[Note], flags: &[Frame], window_ms: i64, owned: &mut Vec<Option<usize>>)
    requires
        old(owned)@.len() == notes@.len(),
        distinct_owners(ints(old(owned)@), flags@.len() as int),
    ensures
        ints(final(owned)@) == settle(
            notes@,
            flags@,
            window_ms as int,
            ints(old(owned)@),
            notes@.len(),
        ),
{
    let ghost start = ints(owned@);
    let ghost w = window_ms as int;
    let mut pass: usize = 0;
    let mut changed: bool = true;
    while pass < notes.len() && changed
        invariant
            pass <= notes@.len(),
            start == ints(old(owned)@),
            w == window_ms,
            owned@.len() == notes@.len(),
            distinct_owners(ints(owned@), flags@.len() as int),
            settle(notes@, flags@, w, ints(owned@), (notes@.len() - pass) as nat) == settle(
                notes@,
                flags@,
                w,
                start,
                notes@.len(),
            ),
            !changed ==> settled(notes@, flags@, w, ints(owned@)),
        decreases notes@.len() - pass,
    {
        let ghost before = ints(owned@);
        changed = settle_notes(notes, flags, window_ms, owned);
        proof {
            lemma_settle_pass(notes@, flags@, w, before, notes@.len());
        }
        pass = pass + 1;
    }
    proof {
        if !changed {
            lemma_settled_for_good(
                notes@,
                flags@,
                w,
                ints(owned@),
                (notes@.len() - pass) as nat,
            );
        }
    }
}

fn match_hits_inner(
    notes: &[Note],
    frames: &[Frame],
    window_ms: i64,
    cursor_guided: bool,
) -> (out: MatchOutcome)
    requires
        frames@.len() <= u32::MAX,
    ensures
        is_outcome(out, notes@, frames@, window_ms as int, cursor_guided),
{
    let flags: Vec<Frame> = flag_frames(frames);
    let ghost w = window_ms as int;
    let mut owned: Vec<Option<usize>> = walk_notes(notes, flags.as_slice(), window_ms);
    proof {
        lemma_walk(notes@, flags@, w, notes@.len());
        lemma_settle(notes@, flags@, w, ints(owned@), notes@.len());
    }
    let ghost walked = ints(owned@);
    if cursor_guided {
        settle_all(notes, flags.as_slice(), window_ms, &mut owned);
    }
    let ghost end = ints(owned@);
    assert(end == attribution(notes@, frames@, w, cursor_guided));
    let mut results: Vec<NoteResult> = Vec::new();
    let mut matched: u32 = 0;
    let mut i: usize = 0;
    let ghost p = |i: int| end[i] is Some;
    proof {
        lemma_tally_bound(p, notes@.len());
    }
    while i < notes.len()
        invariant
            i <= notes@.len(),
            owned@.len() == notes@.len(),
            end == ints(owned@),
            end.len() == notes@.len(),
            distinct_owners(end, flags@.len() as int),
            p == (|i: int| end[i] is Some),
            tally(p, notes@.len()) <= flags@.len() <= u32::MAX,
            matched == tally(p, i as nat),
            results@.len() == i,
            forall|j: int| 0 <= j < i ==> #[trigger] results@[j] == result_of(flags@, j, end[j]),
        decreases notes@.len() - i,
    {
        proof {
            lemma_tally_grows(p, (i + 1) as nat, notes@.len());
            assert(end[i as int] is Some == owned@[i as int] is Some);
        }
        let hit_ms: Option<i64> = match owned[i] {
            Some(k) => {
                assert(end[i as int] == Some(k as int));
                Some(flags[k].ms)
            },
            None => None,
        };
        if hit_ms.is_some() {
            matched = matched + 1;
        }
        results.push(NoteResult { note_index: i, hit: hit_ms.is_some(), hit_ms });
        i = i + 1;
    }
    let orphan_flags: u32 = (flags.len() - matched as usize) as u32;
    MatchOutcome { results, orphan_flags }
}

/// Aligns flagged frames to notes with a monotonic two-pointer walk, and then
/// refines the attribution with the recorded cursor. Notes are sorted by time.
pub fn match_hits(notes: &[Note], frames: &[Frame], window_ms: i64) -> (out: MatchOutcome)
    requires
        frames@.len() <= u32::MAX,
    ensures
        is_outcome(out, notes@, frames@, window_ms as int, true),
{
    match_hits_inner(notes, frames, window_ms, true)
}

/// Timing-only matching, without cursor-guided reattribution. For notes whose
/// coordinates are not yet in the cursor's space: mirror detection runs on the
/// unflipped map, and the cursor would pull attributions towards geometry the
/// player never saw.
pub fn match_hits_timing_only(notes: &[Note], frames: &[Frame], window_ms: i64) -> (out:
    MatchOutcome)
    requires
        frames@.len() <= u32::MAX,
    ensures
        is_outcome(out, notes@, frames@, window_ms as int, false),
{
    match_hits_inner(notes, frames, window_ms, false)
}

/// A note's hit area is a square about its centre: which axis is which does not matter, nor does
/// where the note lies, and a cursor that is too far away in either axis never covers the note.
/// Columns count to the right and rows downwards, the cursor to the right and upwards.
pub proof fn law_hit_areas_are_squares(
    frame: Frame,
    note: Note,
    turned_frame: Frame,
    turned_note: Note,
    moved_frame: Frame,
    moved_note: Note,
    right: int,
    up: int,
)
    requires
        turned_frame.x == frame.y,
        turned_frame.y == frame.x,
        turned_note.x == 2_000_000 - note.y,
        turned_note.y == 2_000_000 - note.x,
        moved_frame.x == frame.x + right,
        moved_frame.y == frame.y + up,
        moved_note.x == note.x + right,
        moved_note.y == note.y - up,
    ensures
        covered(turned_frame, turned_note) == covered(frame, note),
        covered(moved_frame, moved_note) == covered(frame, note),
        covered(frame, note) ==> magnitude(frame.x + ONE - note.x) <= HITBOX_HALF,
        covered(frame, note) ==> magnitude(frame.y - ONE + note.y) <= HITBOX_HALF,
        note.x == frame.x + ONE && magnitude(frame.y - ONE + note.y) <= HITBOX_HALF ==> covered(
            frame,
            note,
        ),
        note.y == ONE - frame.y && magnitude(frame.x + ONE - note.x) <= HITBOX_HALF ==> covered(
            frame,
            note,
        ),
{
}

/// A hit area is convex: a cursor whose two coordinates each lie between those of two cursors that
/// cover a note covers it too.
pub proof fn law_hit_areas_have_no_holes(a: Frame, b: Frame, c: Frame, note: Note)
    requires
        covered(a, note),
        covered(b, note),
        a.x <= c.x <= b.x || b.x <= c.x <= a.x,
        a.y <= c.y <= b.y || b.y <= c.y <= a.y,
    ensures
        covered(c, note),
{
}

/// What matching gives agrees with the cursor: where a note was missed, no note was hit by a frame
/// that came in time for the missed one and lay in its hit area, but outside the other's.
pub proof fn law_hits_follow_the_cursor(
    out: MatchOutcome,
    notes: Seq<Note>,
    frames: Seq<Frame>,
    window: int,
    missed: int,
    struck: int,
    f: int,
)
    requires
        is_outcome(out, notes, frames, window, true),
        0 <= missed < notes.len(),
        0 <= struck < notes.len(),
        !out.results@[missed].hit,
        out.results@[struck].hit,
        0 <= f < flagged(frames).len(),
        attribution(notes, frames, window, true)[struck] == Some(f),
    ensures
        out.results@[struck].hit_ms == Some(flagged(frames)[f].ms),
        ({
            let c = flagged(frames)[f];
            let late = c.ms - notes[missed].time_ms * 1_000_000;
            !(late <= window && late >= -EARLY_SLACK_MS && magnitude(c.x + ONE - notes[missed].x)
                <= HITBOX_HALF && magnitude(c.y - ONE + notes[missed].y) <= HITBOX_HALF && (
            magnitude(c.x + ONE - notes[struck].x) > HITBOX_HALF || magnitude(
                c.y - ONE + notes[struck].y,
            ) > HITBOX_HALF))
        }),
{
    law_attribution_settles(notes, frames, window);
    law_flags_are_shared_out(notes, frames, window, true);
    let owned = attribution(notes, frames, window, true);
    assert(out.results@[missed] == result_of(flagged(frames), missed, owned[missed]));
    assert(out.results@[struck] == result_of(flagged(frames), struck, owned[struck]));
    assert(!takes(notes, flagged(frames), window, owned, missed, struck));
}

proof fn lemma_all_before(flags: Seq<Frame>, from: int, t: int)
    requires
        0 <= from,
    ensures
        forall|k: int|
            from <= k < first_not_before(flags, from, t) ==> (#[trigger] flags[k]).ms < t,
    decreases flags.len() - from,
{
    if from < flags.len() && flags[from].ms < t {
        lemma_all_before(flags, from + 1, t);
    }
}

/// Whether times never fall.
pub open spec fn notes_in_time(notes: Seq<Note>) -> bool {
    forall|i: int, j: int| 0 <= i <= j < notes.len() ==> notes[i].time_ms <= notes[j].time_ms
}

/// Whether frames never go back in time.
pub open spec fn frames_in_time(frames: Seq<Frame>) -> bool {
    forall|i: int, j: int| 0 <= i <= j < frames.len() ==> frames[i].ms <= frames[j].ms
}

proof fn lemma_walk_is_greedy(notes: Seq<Note>, flags: Seq<Frame>, window: int, n: nat, k: int)
    requires
        n <= notes.len(),
        notes_in_time(notes),
        frames_in_time(flags),
        0 <= k < walk(notes, flags, window, n).1,
    ensures
        ({
            let owned = walk(notes, flags, window, n).0;
            ||| exists|i: int| 0 <= i < n && #[trigger] owned[i] == Some(k)
            ||| n > 0 && flags[k].ms < chart_time(notes[n - 1]) - window
        }),
    decreases n,
{
    lemma_walk(notes, flags, window, n);
    if n > 0 {
        lemma_walk(notes, flags, window, (n - 1) as nat);
        let (before, free) = walk(notes, flags, window, (n - 1) as nat);
        let owned = walk(notes, flags, window, n).0;
        let t = chart_time(notes[n - 1]);
        let at = first_not_before(flags, free, t - window);
        lemma_first_not_before(flags, free, t - window);
    lemma_all_before(flags, free, t - window);
        if k < free {
            lemma_walk_is_greedy(notes, flags, window, (n - 1) as nat, k);
            if exists|i: int| 0 <= i < n - 1 && #[trigger] before[i] == Some(k) {
                let i = choose|i: int| 0 <= i < n - 1 && #[trigger] before[i] == Some(k);
                assert(owned[i] == Some(k));
            } else {
                assert(notes[n - 2].time_ms <= notes[n - 1].time_ms);
            }
        } else if k < at {
            assert(flags[k].ms < t - window);
        } else {
            assert(owned[n - 1] == Some(k));
        }
    }
}

/// By timing alone no hit is given away: where a note was missed, every flag within its window
/// belongs to an earlier note.
pub proof fn law_missed_notes_had_no_flag_left(
    notes: Seq<Note>,
    frames: Seq<Frame>,
    window: int,
    i: int,
    k: int,
)
    requires
        notes_in_time(notes),
        frames_in_time(flagged(frames)),
        0 <= i < notes.len(),
        attribution(notes, frames, window, false)[i] is None,
        0 <= k < flagged(frames).len(),
        magnitude(flagged(frames)[k].ms - notes[i].time_ms * 1_000_000) <= window,
    ensures
        exists|j: int|
            0 <= j < i && #[trigger] attribution(notes, frames, window, false)[j] == Some(k),
{
    let flags = flagged(frames);
    let owned = walk(notes, flags, window, notes.len()).0;
    lemma_walk_prefix(notes, flags, window, (i + 1) as nat, notes.len());
    let (at_i, free_i) = walk(notes, flags, window, (i + 1) as nat);
    let (before, free) = walk(notes, flags, window, i as nat);
    lemma_walk(notes, flags, window, i as nat);
    lemma_walk(notes, flags, window, (i + 1) as nat);
    let t = chart_time(notes[i]);
    let at = first_not_before(flags, free, t - window);
    lemma_first_not_before(flags, free, t - window);
    lemma_all_before(flags, free, t - window);
    assert(at_i[i] == owned[i]);
    if k >= free {
        if k >= at {
            assert(flags[at].ms <= flags[k].ms);
        } else {
            assert(flags[k].ms < t - window);
        }
        assert(false);
    }
    lemma_walk_is_greedy(notes, flags, window, i as nat, k);
    if exists|j: int| 0 <= j < i && #[trigger] before[j] == Some(k) {
        let j = choose|j: int| 0 <= j < i && #[trigger] before[j] == Some(k);
        lemma_walk_prefix(notes, flags, window, i as nat, notes.len());
        assert(owned[j] == Some(k));
    } else {
        assert(notes[i - 1].time_ms <= notes[i].time_ms);
        assert(false);
    }
}

proof fn lemma_walk_prefix(notes: Seq<Note>, flags: Seq<Frame>, window: int, m: nat, n: nat)
    requires
        m <= n <= notes.len(),
    ensures
        walk(notes, flags, window, m).0.len() == m,
        forall|i: int|
            0 <= i < m ==> #[trigger] walk(notes, flags, window, n).0[i] == walk(
                notes,
                flags,
                window,
                m,
            ).0[i],
    decreases n,
{
    lemma_walk(notes, flags, window, m);
    if m < n {
        lemma_walk_prefix(notes, flags, window, m, (n - 1) as nat);
        lemma_walk(notes, flags, window, (n - 1) as nat);
    }
}

/// A hit by timing alone lies within the window, and the note takes the first flag in it that no
/// earlier note has.
pub proof fn law_notes_take_their_first_flag(
    notes: Seq<Note>,
    frames: Seq<Frame>,
    window: int,
    i: int,
    own: int,
    k: int,
)
    requires
        notes_in_time(notes),
        frames_in_time(flagged(frames)),
        0 <= i < notes.len(),
        attribution(notes, frames, window, false)[i] == Some(own),
        0 <= k < own,
        magnitude(flagged(frames)[k].ms - notes[i].time_ms * 1_000_000) <= window,
    ensures
        magnitude(flagged(frames)[own].ms - notes[i].time_ms * 1_000_000) <= window,
        exists|j: int|
            0 <= j < i && #[trigger] attribution(notes, frames, window, false)[j] == Some(k),
{
    let flags = flagged(frames);
    let owned = walk(notes, flags, window, notes.len()).0;
    lemma_walk(notes, flags, window, notes.len());
    lemma_walk_prefix(notes, flags, window, (i + 1) as nat, notes.len());
    lemma_walk_prefix(notes, flags, window, i as nat, notes.len());
    let (before, free) = walk(notes, flags, window, i as nat);
    let t = chart_time(notes[i]);
    lemma_first_not_before(flags, free, t - window);
    lemma_all_before(flags, free, t - window);
    lemma_walk(notes, flags, window, i as nat);
    assert(walk(notes, flags, window, (i + 1) as nat).0[i] == owned[i]);
    assert(own == first_not_before(flags, free, t - window));
    if k >= free {
        assert(flags[k].ms < t - window);
        assert(false);
    }
    lemma_walk_is_greedy(notes, flags, window, i as nat, k);
    if exists|j: int| 0 <= j < i && #[trigger] before[j] == Some(k) {
        let j = choose|j: int| 0 <= j < i && #[trigger] before[j] == Some(k);
        assert(owned[j] == Some(k));
    } else {
        assert(notes[i - 1].time_ms <= notes[i].time_ms);
        assert(false);
    }
}

/// The flags are the frames that carry one, all of them and in order.
pub proof fn law_flags_are_the_flagged_frames(frames: Seq<Frame>, f: Frame)
    ensures
        forall|k: int| 0 <= k < flagged(frames).len() ==> (#[trigger] flagged(frames)[k]).hit,
        flagged(frames).to_multiset().count(f) == if f.hit {
            frames.to_multiset().count(f)
        } else {
            0
        },
        frames_in_time(frames) ==> frames_in_time(flagged(frames)),
    decreases frames.len(),
{
    broadcast use vstd::seq_lib::group_to_multiset_ensures;
    broadcast use vstd::multiset::group_multiset_axioms;

    if frames.len() > 0 {
        let rest = frames.drop_last();
        law_flags_are_the_flagged_frames(rest, f);
        assert(frames =~= rest.push(frames.last()));
        if frames_in_time(frames) {
            assert(frames_in_time(rest)) by {
                assert forall|i: int, j: int| 0 <= i <= j < rest.len() implies rest[i].ms
                    <= rest[j].ms by {
                    assert(frames[i].ms <= frames[j].ms);
                }
            }
            lemma_flags_come_from(rest, frames.last().ms as int);
        }
    }
}

proof fn lemma_flags_come_from(frames: Seq<Frame>, ms: int)
    requires
        forall|i: int| 0 <= i < frames.len() ==> (#[trigger] frames[i]).ms <= ms,
    ensures
        forall|k: int| 0 <= k < flagged(frames).len() ==> (#[trigger] flagged(frames)[k]).ms <= ms,
    decreases frames.len(),
{
    if frames.len() > 0 {
        let rest = frames.drop_last();
        assert forall|i: int| 0 <= i < rest.len() implies (#[trigger] rest[i]).ms <= ms by {
            assert(frames[i].ms <= ms);
        }
        lemma_flags_come_from(rest, ms);
        assert(frames[frames.len() - 1].ms <= ms);
        assert forall|k: int| 0 <= k < flagged(frames).len() implies (#[trigger] flagged(
            frames,
        )[k]).ms <= ms by {
            if k < flagged(rest).len() {
                assert(flagged(frames)[k] == flagged(rest)[k]);
            }
        }
    }
}

} // verus!
