//! Replay integrity check.
//!
//! Derives hits, misses and accuracy from the frame stream and the map and
//! compares them with the values in the replay's header. A mismatch means that
//! the replay is inconsistent, and every consumer has to say so.
//!
//! Accuracy is hits over attempted notes. All notes are attempted when the run
//! passed, and those up to the fail time when it failed.

use vstd::prelude::*;

use crate::count::{lemma_tally_same, tally};
use crate::fixed::{div_nearest_even, magnitude, nearest_even, ONE};
use crate::hitreg::{flagged, hits_in, is_outcome, match_hits, MatchOutcome};
use crate::replay::{Frame, Beatmap, Note, Replay};
use crate::text::{
    decimal, decimal_text, digit, padded, push_decimal, push_padded, push_rounded, rounded, same_text,
    signed_decimal, signed_text, ten_to,
};

verus! {

/// The header's accuracy is rounded by the game; this much difference is
/// allowed, in millionths of a percent.
pub const ACCURACY_TOLERANCE_PCT: i64 = 10_000;

/// How much a failed check weighs.
#[derive(Debug, Clone, Copy, PartialEq, Eq, Structural)]
pub enum Severity {
    /// A mismatch in gameplay data: the replay is possibly manipulated.
    Error,
    /// Suspicious, but no proof of tampering by itself.
    Warning,
}

/// One comparison of the report.
#[derive(Debug, Clone)]
pub struct Check {
    /// What was compared.
    pub name: &'static str,
    /// How much a failure weighs.
    pub severity: Severity,
    /// Whether it holds.
    pub ok: bool,
    /// What the header says.
    pub expected: String,
    /// What was derived.
    pub actual: String,
}

/// A comparison as plain text and flags.
#[verifier::ext_equal]
pub struct CheckModel {
    pub name: Seq<char>,
    pub severity: Severity,
    pub ok: bool,
    pub expected: Seq<char>,
    pub actual: Seq<char>,
}

impl View for Check {
    type V = CheckModel;

    open spec fn view(&self) -> CheckModel {
        CheckModel {
            name: self.name@,
            severity: self.severity,
            ok: self.ok,
            expected: self.expected@,
            actual: self.actual@,
        }
    }
}

/// What the integrity check found.
#[derive(Debug, Clone)]
pub struct IntegrityReport {
    /// Frames that carry a hit flag.
    pub flagged_frames: u32,
    /// Notes that a flag was matched to.
    pub derived_hits: u32,
    /// Attempted notes without a flag.
    pub derived_misses: u32,
    /// Notes that the run came to.
    pub attempted_notes: u32,
    /// Hits over attempted notes, in millionths of a percent.
    pub derived_accuracy_pct: i64,
    /// Flags that matched no note.
    pub orphan_flags: u32,
    /// All comparisons, in order.
    pub checks: Vec<Check>,
}

/// The comparisons of a list as plain text and flags.
pub open spec fn models(checks: Seq<Check>) -> Seq<CheckModel> {
    Seq::new(checks.len(), |i: int| checks[i]@)
}

/// Whether a failed comparison is one of the two that compare map ids.
pub open spec fn id_mismatch(check: CheckModel) -> bool {
    !check.ok && (check.name == "map online id matches replay"@ || check.name
        == "map legacy id matches replay"@)
}

/// A header's hit count as the unsigned number that is compared.
pub open spec fn header_hits_of(replay_hits: i32) -> int {
    if replay_hits < 0 {
        0
    } else {
        replay_hits as int
    }
}

/// Whether the verdict points at the wrong chart: the hash or an id differs; or
/// the header agrees with its own frames while a third of the flags found no
/// note, or not even half of the hits landed.
pub open spec fn wrong_map(replay_hits: i32, report: IntegrityReport, hash_mismatch: bool) -> bool {
    let flags = report.flagged_frames;
    let header = header_hits_of(replay_hits);
    ||| hash_mismatch
    ||| exists|i: int| 0 <= i < report.checks@.len() && #[trigger] id_mismatch(report.checks@[i]@)
    ||| flags == header && ((flags > 20 && report.orphan_flags * 3 > flags) || (header > 20
        && report.derived_hits * 2 < header))
}

/// Whether an inconsistent verdict is better explained by the wrong chart than by
/// a tampered replay.
pub fn looks_like_the_wrong_map(
    replay_hits: i32,
    report: &IntegrityReport,
    hash_mismatch: bool,
) -> (r: bool)
    ensures
        r == wrong_map(replay_hits, *report, hash_mismatch),
{
    if hash_mismatch {
        return true;
    }
    let mut i: usize = 0;
    while i < report.checks.len()
        invariant
            i <= report.checks@.len(),
            forall|j: int| 0 <= j < i ==> !#[trigger] id_mismatch(report.checks@[j]@),
        decreases report.checks@.len() - i,
    {
        let check: &Check = &report.checks[i];
        let online: bool = same_text(check.name, "map online id matches replay");
        let legacy: bool = same_text(check.name, "map legacy id matches replay");
        if !check.ok && (online || legacy) {
            assert(id_mismatch(report.checks@[i as int]@));
            return true;
        }
        i = i + 1;
    }
    let flags: u32 = report.flagged_frames;
    let header_hits: u32 = if replay_hits < 0 {
        0
    } else {
        replay_hits as u32
    };
    if flags != header_hits {
        return false;
    }
    let orphan_heavy: bool = flags > 20 && report.orphan_flags as u64 * 3 > flags as u64;
    let lost_most: bool = header_hits > 20 && report.derived_hits as u64 * 2 < header_hits as u64;
    orphan_heavy || lost_most
}

impl IntegrityReport {
    /// Whether no comparison of weight `Error` failed.
    pub open spec fn is_consistent(&self) -> bool {
        forall|i: int|
            0 <= i < self.checks@.len() ==> (#[trigger] self.checks@[i]).ok
                || self.checks@[i].severity == Severity::Warning
    }

    /// True when every comparison of weight `Error` passed. Warnings never make a
    /// replay inconsistent on their own.
    pub fn consistent(&self) -> (r: bool)
        ensures
            r == self.is_consistent(),
    {
        let mut i: usize = 0;
        while i < self.checks.len()
            invariant
                i <= self.checks@.len(),
                forall|j: int|
                    0 <= j < i ==> (#[trigger] self.checks@[j]).ok || self.checks@[j].severity
                        == Severity::Warning,
            decreases self.checks@.len() - i,
        {
            if !self.checks[i].ok && self.checks[i].severity != Severity::Warning {
                assert(!self.checks@[i as int].ok);
                return false;
            }
            i = i + 1;
        }
        true
    }

    /// The comparisons that failed, in order.
    pub fn failed_checks(&self) -> (failed: Vec<&Check>)
        ensures
            Seq::new(failed@.len(), |i: int| *failed@[i]) == failing(self.checks@),
    {
        let mut failed: Vec<&Check> = Vec::new();
        let mut i: usize = 0;
        while i < self.checks.len()
            invariant
                i <= self.checks@.len(),
                Seq::new(failed@.len(), |i: int| *failed@[i]) == failing(
                    self.checks@.take(i as int),
                ),
            decreases self.checks@.len() - i,
        {
            let ghost before = failed@;
            proof {
                assert(self.checks@.take(i + 1).drop_last() =~= self.checks@.take(i as int));
            }
            if !self.checks[i].ok {
                failed.push(&self.checks[i]);
                proof {
                    assert(Seq::new(failed@.len(), |i: int| *failed@[i]) =~= Seq::new(
                        before.len(),
                        |i: int| *before[i],
                    ).push(self.checks@[i as int]));
                }
            }
            i = i + 1;
        }
        assert(self.checks@.take(i as int) =~= self.checks@);
        failed
    }
}

/// The comparisons of a list that failed.
pub open spec fn failing(checks: Seq<Check>) -> Seq<Check>
    decreases checks.len(),
{
    if checks.len() == 0 {
        Seq::empty()
    } else if !checks.last().ok {
        failing(checks.drop_last()).push(checks.last())
    } else {
        failing(checks.drop_last())
    }
}

/// How many notes the run came to: all of them, or those up to the fail time.
pub open spec fn attempted(notes: Seq<Note>, failed: bool, fail_time_ms: i32) -> nat {
    if failed {
        tally(|i: int| notes[i].time_ms <= fail_time_ms, notes.len())
    } else {
        notes.len()
    }
}

/// Attempted notes that were not hit.
pub open spec fn missed(attempted: int, hits: int) -> int {
    if attempted < hits {
        0
    } else {
        attempted - hits
    }
}

/// The derived accuracy as a fraction of whole percents: 100 without notes.
pub open spec fn accuracy_parts(hits: int, attempted: int) -> (int, int) {
    if attempted > 0 {
        (100 * hits, attempted)
    } else {
        (100, 1)
    }
}

/// The lowest health of some frames; none without frames.
pub open spec fn lowest_health(frames: Seq<Frame>) -> Option<int>
    decreases frames.len(),
{
    if frames.len() == 0 {
        None
    } else {
        let last = frames.last().health as int;
        match lowest_health(frames.drop_last()) {
            None => Some(last),
            Some(h) => Some(
                if last < h {
                    last
                } else {
                    h
                },
            ),
        }
    }
}

/// The first frame at or after `from` that the next one steps back behind; the
/// number of frames where there is none.
pub open spec fn first_backstep(frames: Seq<Frame>, from: int) -> int
    decreases frames.len() - from,
{
    if from < 0 || from + 1 >= frames.len() {
        frames.len() as int
    } else if frames[from + 1].ms < frames[from].ms {
        from
    } else {
        first_backstep(frames, from + 1)
    }
}

/// A number of millionths with as many decimals as it needs.
pub open spec fn shortest(micro: int) -> Seq<char> {
    let m = magnitude(micro);
    let sign = if micro < 0 {
        seq!['-']
    } else {
        Seq::empty()
    };
    let whole = sign + decimal((m / 1_000_000) as nat);
    if m % 1_000_000 == 0 {
        whole
    } else {
        whole + seq!['.'] + without_trailing_zeros(
            padded((m % 1_000_000) as nat, 6),
        )
    }
}

/// Text without the zeros at its end.
pub open spec fn without_trailing_zeros(s: Seq<char>) -> Seq<char>
    decreases s.len(),
{
    if s.len() > 0 && s.last() == '0' {
        without_trailing_zeros(s.drop_last())
    } else {
        s
    }
}

/// The lowest health as it is reported.
pub open spec fn health_text(lowest: Option<int>) -> Seq<char> {
    match lowest {
        None => "inf"@,
        Some(h) => shortest(h),
    }
}

/// Where the first backwards step is reported.
pub open spec fn backstep_text(frames: Seq<Frame>) -> Seq<char> {
    let at = first_backstep(frames, 0);
    if at == frames.len() {
        "monotonic"@
    } else {
        "frame "@ + decimal((at + 1) as nat) + " steps back"@
    }
}

/// A comparison.
pub open spec fn check(
    name: Seq<char>,
    severity: Severity,
    ok: bool,
    expected: Seq<char>,
    actual: Seq<char>,
) -> CheckModel {
    CheckModel { name, severity, ok, expected, actual }
}

/// The comparisons of the counts with the header.
pub open spec fn count_checks(
    replay: Replay,
    flags: int,
    hits: int,
    attempted: int,
    orphans: int,
) -> Seq<CheckModel> {
    let misses = missed(attempted, hits);
    let (num, den) = accuracy_parts(hits, attempted);
    seq![
        check(
            "flagged frames == header hits"@,
            Severity::Error,
            flags == replay.hits,
            signed_decimal(replay.hits as int),
            decimal(flags as nat),
        ),
        check(
            "matched hits == header hits"@,
            Severity::Error,
            hits == replay.hits,
            signed_decimal(replay.hits as int),
            decimal(hits as nat),
        ),
        check(
            "derived misses == header misses"@,
            Severity::Error,
            misses == replay.misses,
            signed_decimal(replay.misses as int),
            decimal(misses as nat),
        ),
        check(
            "derived accuracy == header accuracy"@,
            Severity::Error,
            magnitude(num * ONE - replay.accuracy_pct * den) <= ACCURACY_TOLERANCE_PCT * den,
            rounded(replay.accuracy_pct as int, ONE as int, 4),
            rounded(num, den, 4),
        ),
        check("no orphan hit flags"@, Severity::Error, orphans == 0, "0"@, decimal(orphans as nat)),
    ]
}

/// The comparison that a failed run adds.
pub open spec fn health_checks(replay: Replay) -> Seq<CheckModel> {
    let lowest = lowest_health(replay.frames@);
    if replay.failed {
        seq![
            check(
                "health reaches 0 on fail"@,
                Severity::Error,
                lowest is Some && lowest->0 <= 0,
                "<= 0"@,
                health_text(lowest),
            ),
        ]
    } else {
        Seq::empty()
    }
}

/// The comparisons of the frame stream.
pub open spec fn stream_checks(replay: Replay) -> Seq<CheckModel> {
    seq![
        check(
            "no trailing bytes after frames"@,
            Severity::Warning,
            replay.trailing_bytes == 0,
            "0"@,
            decimal(replay.trailing_bytes as nat),
        ),
        check(
            "frame times non-decreasing"@,
            Severity::Warning,
            first_backstep(replay.frames@, 0) == replay.frames@.len(),
            "monotonic"@,
            backstep_text(replay.frames@),
        ),
    ]
}

/// The comparison of the online id, where the map has one.
pub open spec fn online_id_checks(replay: Replay, map: Beatmap) -> Seq<CheckModel> {
    match map.meta.online_id {
        Some(id) => seq![
            check(
                "map online id matches replay"@,
                Severity::Warning,
                id == replay.map_id,
                signed_decimal(replay.map_id as int),
                signed_decimal(id as int),
            ),
        ],
        None => Seq::empty(),
    }
}

/// The comparison of the legacy ids, where both sides have one.
pub open spec fn legacy_id_checks(replay: Replay, map: Beatmap) -> Seq<CheckModel> {
    if map.meta.legacy_id@.len() > 0 && replay.legacy_map_id@.len() > 0 {
        seq![
            check(
                "map legacy id matches replay"@,
                Severity::Warning,
                map.meta.legacy_id@ == replay.legacy_map_id@,
                replay.legacy_map_id@,
                map.meta.legacy_id@,
            ),
        ]
    } else {
        Seq::empty()
    }
}

/// All comparisons of a replay with a map and its matched outcome, in order.
pub open spec fn all_checks(replay: Replay, map: Beatmap, outcome: MatchOutcome) -> Seq<CheckModel> {
    let flags = flagged(replay.frames@).len() as int;
    let hits = hits_in(outcome.results@) as int;
    let tried = attempted(map.notes@, replay.failed, replay.fail_time_ms) as int;
    count_checks(replay, flags, hits, tried, outcome.orphan_flags as int) + health_checks(replay)
        + stream_checks(replay) + online_id_checks(replay, map) + legacy_id_checks(replay, map)
}

/// Whether `report` is the report on a replay, a map and its matched outcome.
pub open spec fn is_report(
    report: IntegrityReport,
    replay: Replay,
    map: Beatmap,
    outcome: MatchOutcome,
) -> bool {
    let hits = hits_in(outcome.results@) as int;
    let tried = attempted(map.notes@, replay.failed, replay.fail_time_ms) as int;
    let (num, den) = accuracy_parts(hits, tried);
    &&& report.flagged_frames == flagged(replay.frames@).len()
    &&& report.derived_hits == hits
    &&& report.attempted_notes == tried
    &&& report.derived_misses == missed(tried, hits)
    &&& report.derived_accuracy_pct == nearest_even(num * ONE, den)
    &&& report.orphan_flags == outcome.orphan_flags
    &&& models(report.checks@) == all_checks(replay, map, outcome)
}

fn attempted_notes(notes: &[Note], failed: bool, fail_time_ms: i32) -> (n: u32)
    requires
        notes@.len() <= u32::MAX,
    ensures
        n == attempted(notes@, failed, fail_time_ms),
{
    if !failed {
        return notes.len() as u32;
    }
    let mut n: u32 = 0;
    let mut i: usize = 0;
    let ghost p = |i: int| notes@[i].time_ms <= fail_time_ms;
    while i < notes.len()
        invariant
            i <= notes@.len() <= u32::MAX,
            p == (|i: int| notes@[i].time_ms <= fail_time_ms),
            n == tally(p, i as nat),
            n <= i,
        decreases notes@.len() - i,
    {
        if notes[i].time_ms <= fail_time_ms as i64 {
            n = n + 1;
        }
        i = i + 1;
    }
    n
}

fn min_health(frames: &[Frame]) -> (lowest: Option<i64>)
    ensures
        lowest is Some == lowest_health(frames@) is Some,
        lowest is Some ==> lowest->0 == lowest_health(frames@)->0,
{
    let mut lowest: Option<i64> = None;
    let mut i: usize = 0;
    while i < frames.len()
        invariant
            i <= frames@.len(),
            lowest is Some == lowest_health(frames@.take(i as int)) is Some,
            lowest is Some ==> lowest->0 == lowest_health(frames@.take(i as int))->0,
        decreases frames@.len() - i,
    {
        assert(frames@.take(i + 1).drop_last() =~= frames@.take(i as int));
        let h: i64 = frames[i].health;
        lowest = match lowest {
            None => Some(h),
            Some(l) => Some(
                if h < l {
                    h
                } else {
                    l
                },
            ),
        };
        i = i + 1;
    }
    assert(frames@.take(i as int) =~= frames@);
    lowest
}

fn backstep(frames: &[Frame]) -> (at: usize)
    ensures
        at == first_backstep(frames@, 0),
        at <= frames@.len(),
{
    let mut i: usize = 0;
    while i < frames.len() && frames.len() - i > 1
        invariant
            i <= frames@.len(),
            first_backstep(frames@, 0) == first_backstep(frames@, i as int),
        decreases frames@.len() - i,
    {
        if frames[i + 1].ms < frames[i].ms {
            return i;
        }
        i = i + 1;
    }
    frames.len()
}

/// Appends a number of millionths with as many decimals as it needs.
pub fn push_shortest(out: &mut String, micro: i64)
    ensures
        final(out)@ == old(out)@ + shortest(micro as int),
{
    let ghost start = out@;
    let m: u128 = if micro < 0 {
        (-(micro as i128)) as u128
    } else {
        micro as u128
    };
    if micro < 0 {
        out.push('-');
    }
    push_decimal(out, m / 1_000_000);
    let rest: u128 = m % 1_000_000;
    if rest != 0 {
        out.push('.');
        let ghost head = out@;
        let mut digits: u128 = rest;
        let mut width: usize = 6;
        proof {
            reveal_with_fuel(ten_to, 8);
            lemma_padded_len(rest as nat, 6);
        }
        while digits % 10 == 0
            invariant
                0 < digits,
                width <= 6,
                without_trailing_zeros(padded(rest as nat, 6))
                    == without_trailing_zeros(padded(digits as nat, width as nat)),
                digits < ten_to(width as nat),
            decreases digits,
        {
            proof {
                lemma_drop_zero(digits as nat, width as nat);
            }
            digits = digits / 10;
            width = width - 1;
        }
        proof {
            lemma_last_digit(digits as nat, width as nat);
        }
        push_padded(out, digits, width);
        proof {
            assert(out@ =~= head + without_trailing_zeros(
                padded(rest as nat, 6),
            ));
        }
    }
    proof {
        assert(out@ =~= start + shortest(micro as int));
    }
}

proof fn lemma_padded_len(n: nat, width: nat)
    requires
        n < ten_to(width),
        width >= 1,
    ensures
        padded(n, width).len() == width,
{
    lemma_short_decimal(n, width);
}

proof fn lemma_short_decimal(n: nat, width: nat)
    requires
        n < ten_to(width),
        width >= 1,
    ensures
        1 <= decimal(n).len() <= width,
    decreases n,
{
    if n >= 10 {
        if width == 1 {
            reveal_with_fuel(ten_to, 2);
        } else {
            lemma_short_decimal(n / 10, (width - 1) as nat);
        }
    }
}

/// A zero at the end of padded digits can be dropped.
proof fn lemma_drop_zero(n: nat, width: nat)
    requires
        0 < n,
        n % 10 == 0,
        n < ten_to(width),
    ensures
        width >= 1,
        0 < n / 10,
        n / 10 < ten_to((width - 1) as nat),
        without_trailing_zeros(padded(n, width)) == without_trailing_zeros(
            padded(n / 10, (width - 1) as nat),
        ),
{
    reveal_with_fuel(ten_to, 2);
    assert(n >= 10);
    lemma_short_decimal(n, width);
    if width >= 2 {
        lemma_short_decimal(n / 10, (width - 1) as nat);
        assert(decimal(n).drop_last() =~= decimal(n / 10));
        assert(padded(n, width).drop_last() =~= padded(
            n / 10,
            (width - 1) as nat,
        ));
        assert(padded(n, width).last() == '0');
    }
}

/// Padded digits that do not end in zero keep all of them.
proof fn lemma_last_digit(n: nat, width: nat)
    requires
        n % 10 != 0,
    ensures
        without_trailing_zeros(padded(n, width)) == padded(n, width),
{
    let p = padded(n, width);
    assert(p.last() == decimal(n).last());
    assert(decimal(n).last() == digit((n % 10) as int));
}

fn push_check(
    checks: &mut Vec<Check>,
    name: &'static str,
    severity: Severity,
    ok: bool,
    expected: String,
    actual: String,
)
    ensures
        models(final(checks)@) == models(old(checks)@).push(
            check(name@, severity, ok, expected@, actual@),
        ),
{
    let ghost before = checks@;
    checks.push(Check { name, severity, ok, expected, actual });
    assert(models(checks@) =~= models(before).push(
        check(name@, severity, ok, expected@, actual@),
    ));
}

fn push_count_checks(
    checks: &mut Vec<Check>,
    replay: &Replay,
    flags: u32,
    hits: u32,
    tried: u32,
    orphans: u32,
)
    requires
        old(checks)@.len() == 0,
    ensures
        models(final(checks)@) == count_checks(
            *replay,
            flags as int,
            hits as int,
            tried as int,
            orphans as int,
        ),
{
    let misses: u32 = if tried < hits {
        0
    } else {
        tried - hits
    };
    push_check(
        checks,
        "flagged frames == header hits",
        Severity::Error,
        flags as i64 == replay.hits as i64,
        signed_text(replay.hits as i64),
        decimal_text(flags as u64),
    );
    push_check(
        checks,
        "matched hits == header hits",
        Severity::Error,
        hits as i64 == replay.hits as i64,
        signed_text(replay.hits as i64),
        decimal_text(hits as u64),
    );
    push_check(
        checks,
        "derived misses == header misses",
        Severity::Error,
        misses as i64 == replay.misses as i64,
        signed_text(replay.misses as i64),
        decimal_text(misses as u64),
    );
    let num: i128 = if tried > 0 {
        100 * hits as i128
    } else {
        100
    };
    let den: i128 = if tried > 0 {
        tried as i128
    } else {
        1
    };
    let acc: i128 = replay.accuracy_pct as i128;
    assert(-0x7fff_ffff_ffff_ffff_ffff_ffff <= acc * den <= 0x7fff_ffff_ffff_ffff_ffff_ffff)
        by (nonlinear_arith)
        requires
            -0x8000_0000_0000_0000 <= acc <= 0x7fff_ffff_ffff_ffff,
            1 <= den <= 0xffff_ffff,
    ;
    let diff: i128 = num * ONE as i128 - acc * den;
    assert(0 <= 10_000 * den <= 10_000 * 0xffff_ffff) by (nonlinear_arith)
        requires
            0 <= den <= 0xffff_ffff,
    ;
    let limit: i128 = ACCURACY_TOLERANCE_PCT as i128 * den;
    let mut expected: String = String::new();
    push_rounded(&mut expected, acc, ONE as u128, 4);
    let mut actual: String = String::new();
    push_rounded(&mut actual, num, den as u128, 4);
    proof {
        assert(expected@ =~= rounded(acc as int, ONE as int, 4));
        assert(actual@ =~= rounded(num as int, den as int, 4));
    }
    push_check(
        checks,
        "derived accuracy == header accuracy",
        Severity::Error,
        -limit <= diff && diff <= limit,
        expected,
        actual,
    );
    push_check(
        checks,
        "no orphan hit flags",
        Severity::Error,
        orphans == 0,
        "0".to_owned(),
        decimal_text(orphans as u64),
    );
    assert(models(checks@) =~= count_checks(
        *replay,
        flags as int,
        hits as int,
        tried as int,
        orphans as int,
    ));
}

fn push_stream_checks(checks: &mut Vec<Check>, replay: &Replay)
    ensures
        models(final(checks)@) == models(old(checks)@) + health_checks(*replay) + stream_checks(
            *replay,
        ),
{
    let ghost start = models(checks@);
    if replay.failed {
        let lowest: Option<i64> = min_health(replay.frames.as_slice());
        let mut actual: String = String::new();
        let mut ok: bool = false;
        match lowest {
            Some(h) => {
                push_shortest(&mut actual, h);
                ok = h <= 0;
                proof {
                    assert(actual@ =~= shortest(h as int));
                }
            },
            None => {
                actual = "inf".to_owned();
            },
        }
        assert(actual@ == health_text(lowest_health(replay.frames@)));
        push_check(
            checks,
            "health reaches 0 on fail",
            Severity::Error,
            ok,
            "<= 0".to_owned(),
            actual,
        );
    }
    assert(models(checks@) =~= start + health_checks(*replay));
    push_check(
        checks,
        "no trailing bytes after frames",
        Severity::Warning,
        replay.trailing_bytes == 0,
        "0".to_owned(),
        decimal_text(replay.trailing_bytes),
    );
    let at: usize = backstep(replay.frames.as_slice());
    let monotonic: bool = at == replay.frames.len();
    let mut actual: String = "monotonic".to_owned();
    if !monotonic {
        actual = "frame ".to_owned();
        push_decimal(&mut actual, at as u128 + 1);
        actual.append(" steps back");
    }
    assert(actual@ == backstep_text(replay.frames@));
    push_check(
        checks,
        "frame times non-decreasing",
        Severity::Warning,
        monotonic,
        "monotonic".to_owned(),
        actual,
    );
    assert(models(checks@) =~= start + health_checks(*replay) + stream_checks(*replay));
}

fn push_id_checks(checks: &mut Vec<Check>, replay: &Replay, map: &Beatmap)
    ensures
        models(final(checks)@) == models(old(checks)@) + online_id_checks(*replay, *map)
            + legacy_id_checks(*replay, *map),
{
    let ghost start = models(checks@);
    if let Some(online_id) = map.meta.online_id {
        push_check(
            checks,
            "map online id matches replay",
            Severity::Warning,
            online_id == replay.map_id as i64,
            signed_text(replay.map_id as i64),
            signed_text(online_id),
        );
    }
    assert(models(checks@) =~= start + online_id_checks(*replay, *map));
    if !map.meta.legacy_id.as_str().is_empty() && !replay.legacy_map_id.as_str().is_empty() {
        push_check(
            checks,
            "map legacy id matches replay",
            Severity::Warning,
            map.meta.legacy_id == replay.legacy_map_id,
            replay.legacy_map_id.clone(),
            map.meta.legacy_id.clone(),
        );
    }
    assert(models(checks@) =~= start + online_id_checks(*replay, *map) + legacy_id_checks(
        *replay,
        *map,
    ));
}

/// Runs the integrity check. `outcome` comes from matching the same replay and
/// map.
pub fn verify(replay: &Replay, map: &Beatmap, outcome: &MatchOutcome) -> (report: IntegrityReport)
    requires
        replay.frames@.len() <= u32::MAX,
        map.notes@.len() <= u32::MAX,
        outcome.results@.len() <= u32::MAX,
    ensures
        is_report(report, *replay, *map, *outcome),
{
    let flagged_frames: u32 = replay.flagged_frames();
    let derived_hits: u32 = outcome.derived_hits();
    let tried: u32 = attempted_notes(map.notes.as_slice(), replay.failed, replay.fail_time_ms);
    let derived_misses: u32 = if tried < derived_hits {
        0
    } else {
        tried - derived_hits
    };
    let num: u128 = if tried > 0 {
        100 * derived_hits as u128
    } else {
        100
    };
    let den: u128 = if tried > 0 {
        tried as u128
    } else {
        1
    };
    let accuracy: u128 = div_nearest_even(num * ONE as u128, den);
    let mut checks: Vec<Check> = Vec::new();
    push_count_checks(
        &mut checks,
        replay,
        flagged_frames,
        derived_hits,
        tried,
        outcome.orphan_flags,
    );
    push_stream_checks(&mut checks, replay);
    push_id_checks(&mut checks, replay, map);
    IntegrityReport {
        flagged_frames,
        derived_hits,
        derived_misses,
        attempted_notes: tried,
        derived_accuracy_pct: accuracy as i64,
        orphan_flags: outcome.orphan_flags,
        checks,
    }
}

/// A replay is consistent exactly when its header agrees with its frames and with
/// the map: flags, hits, misses and accuracy, no flag without a note, and, after a
/// fail, a health that reached zero. Ids, trailing bytes and the order of the
/// frames never decide.
pub proof fn law_consistency(
    report: IntegrityReport,
    replay: Replay,
    map: Beatmap,
    outcome: MatchOutcome,
)
    requires
        is_report(report, replay, map, outcome),
    ensures
        report.is_consistent() <==> {
            let (num, den) = accuracy_parts(
                report.derived_hits as int,
                report.attempted_notes as int,
            );
            &&& report.flagged_frames == replay.hits
            &&& report.derived_hits == replay.hits
            &&& report.derived_misses == replay.misses
            &&& magnitude(num * ONE - replay.accuracy_pct * den) <= ACCURACY_TOLERANCE_PCT * den
            &&& report.orphan_flags == 0
            &&& replay.failed ==> lowest_health(replay.frames@) is Some && lowest_health(
                replay.frames@,
            )->0 <= 0
        },
{
    let all = all_checks(replay, map, outcome);
    assert(forall|i: int|
        0 <= i < all.len() ==> #[trigger] models(report.checks@)[i] == report.checks@[i]@);
    assert(report.is_consistent() <==> (forall|i: int|
        0 <= i < all.len() ==> (#[trigger] all[i]).ok || all[i].severity == Severity::Warning)) by {
        if report.is_consistent() {
            assert forall|i: int| 0 <= i < all.len() implies (#[trigger] all[i]).ok
                || all[i].severity == Severity::Warning by {
                assert(models(report.checks@)[i] == report.checks@[i]@);
            }
        } else {
            let i = choose|i: int|
                0 <= i < report.checks@.len() && !((#[trigger] report.checks@[i]).ok
                    || report.checks@[i].severity == Severity::Warning);
            assert(models(report.checks@)[i] == report.checks@[i]@);
            assert(!all[i].ok);
        }
    }
    let counts = count_checks(
        replay,
        flagged(replay.frames@).len() as int,
        hits_in(outcome.results@) as int,
        attempted(map.notes@, replay.failed, replay.fail_time_ms) as int,
        outcome.orphan_flags as int,
    );
    assert(forall|i: int| 0 <= i < 5 ==> #[trigger] all[i] == counts[i]);
    if replay.failed {
        assert(all[5] == health_checks(replay)[0]);
        assert(forall|i: int| 6 <= i < all.len() ==> (#[trigger] all[i]).severity == Severity::Warning);
    } else {
        assert(forall|i: int| 5 <= i < all.len() ==> (#[trigger] all[i]).severity == Severity::Warning);
    }
    assert(all[0] == counts[0] && all[1] == counts[1] && all[2] == counts[2] && all[3] == counts[3]
        && all[4] == counts[4]);
}

/// Attempted notes are hits and misses together, unless more notes were hit than
/// the run came to.
pub proof fn law_attempted_is_hits_and_misses(
    report: IntegrityReport,
    replay: Replay,
    map: Beatmap,
    outcome: MatchOutcome,
)
    requires
        is_report(report, replay, map, outcome),
        report.derived_hits <= report.attempted_notes,
    ensures
        report.attempted_notes == report.derived_hits + report.derived_misses,
{
}

/// A header that claims more or fewer hits than its frames carry is never put down
/// to the wrong chart, as long as neither the hash nor an id differs.
pub proof fn law_inflated_header_is_no_wrong_map(replay_hits: i32, report: IntegrityReport)
    requires
        report.flagged_frames != header_hits_of(replay_hits),
        forall|i: int|
            0 <= i < report.checks@.len() ==> !id_mismatch((#[trigger] report.checks@[i])@),
    ensures
        !wrong_map(replay_hits, report, false),
{
}

/// Matching and checking in one call, with the run's own hit window.
pub fn verify_replay(replay: &Replay, map: &Beatmap, window_ms: i64) -> (report: IntegrityReport)
    requires
        replay.frames@.len() <= u32::MAX,
        map.notes@.len() <= u32::MAX,
    ensures
        exists|outcome: MatchOutcome|
            is_outcome(outcome, map.notes@, replay.frames@, window_ms as int, true) && is_report(
                report,
                *replay,
                *map,
                outcome,
            ),
{
    let outcome: MatchOutcome = match_hits(
        map.notes.as_slice(),
        replay.frames.as_slice(),
        window_ms,
    );
    verify(replay, map, &outcome)
}

/// A run that was not failed attempts every note; one that was failed attempts the notes up to
/// where it failed, and in a chart in order these are its first notes.
pub proof fn law_attempts_end_with_the_run(notes: Seq<Note>, failed: bool, fail_time_ms: i32, i: int)
    requires
        forall|j: int, k: int|
            0 <= j < k < notes.len() ==> (#[trigger] notes[j]).time_ms
                <= (#[trigger] notes[k]).time_ms,
        0 <= i < notes.len(),
    ensures
        !failed ==> attempted(notes, failed, fail_time_ms) == notes.len(),
        failed ==> (i < attempted(notes, failed, fail_time_ms) <==> notes[i].time_ms
            <= fail_time_ms),
{
    if failed {
        lemma_first_notes(notes, fail_time_ms, notes.len());
    }
}

proof fn lemma_first_notes(notes: Seq<Note>, t: i32, n: nat)
    requires
        n <= notes.len(),
        forall|j: int, k: int|
            0 <= j < k < notes.len() ==> (#[trigger] notes[j]).time_ms
                <= (#[trigger] notes[k]).time_ms,
    ensures
        tally(|i: int| notes[i].time_ms <= t, n) <= n,
        forall|i: int|
            0 <= i < n ==> (i < tally(|i: int| notes[i].time_ms <= t, n) <==> (
            #[trigger] notes[i]).time_ms <= t),
    decreases n,
{
    if n > 0 {
        lemma_first_notes(notes, t, (n - 1) as nat);
        if n > 1 {
            assert(notes[n - 2].time_ms <= notes[n - 1].time_ms);
        }
    }
}

/// The lowest health is that of a frame, and no frame has less; frames have one if there are any.
pub proof fn law_the_lowest_health_is_a_frames(frames: Seq<Frame>)
    ensures
        lowest_health(frames) is None <==> frames.len() == 0,
        lowest_health(frames) matches Some(h) ==> {
            &&& forall|i: int| 0 <= i < frames.len() ==> h <= (#[trigger] frames[i]).health
            &&& exists|i: int| 0 <= i < frames.len() && (#[trigger] frames[i]).health == h
        },
    decreases frames.len(),
{
    if frames.len() > 0 {
        let rest = frames.drop_last();
        law_the_lowest_health_is_a_frames(rest);
        let last = frames.len() - 1;
        assert(frames[last] == frames.last());
        assert forall|i: int| 0 <= i < frames.len() implies lowest_health(frames)->0 <= (
        #[trigger] frames[i]).health by {
            if i < last {
                assert(rest[i] == frames[i]);
            }
        }
        if rest.len() > 0 {
            let h = lowest_health(rest)->0;
            let i = choose|i: int| 0 <= i < rest.len() && (#[trigger] rest[i]).health == h;
            assert(frames[i].health == h);
        }
    }
}

/// The first step back is a frame that the next one comes before, with none before it; where there
/// is none, the times never fall.
pub proof fn law_backsteps_are_found(frames: Seq<Frame>, from: int)
    requires
        0 <= from,
        from < frames.len() || frames.len() == 0,
    ensures
        ({
            let at = first_backstep(frames, from);
            &&& from <= at <= frames.len() || frames.len() == 0 && at == 0
            &&& at < frames.len() ==> at + 1 < frames.len() && frames[at + 1].ms < frames[at].ms
            &&& forall|i: int|
                from <= i < at && i + 1 < frames.len() ==> (#[trigger] frames[i]).ms <= frames[i
                    + 1].ms
        }),
    decreases frames.len() - from,
{
    if from + 1 < frames.len() && frames[from + 1].ms >= frames[from].ms {
        law_backsteps_are_found(frames, from + 1);
    }
}

/// A report is consistent where the frames say what the header says: as many flags and as many
/// hits as it counts, its misses, an accuracy within a hundredth of a percent of its own, no flag
/// without a note, and in a failed run a frame without health.
pub proof fn law_consistent_headers_are_true(
    report: IntegrityReport,
    replay: Replay,
    map: Beatmap,
    outcome: MatchOutcome,
)
    requires
        is_report(report, replay, map, outcome),
        report.is_consistent(),
    ensures
        flagged(replay.frames@).len() == replay.hits,
        hits_in(outcome.results@) == replay.hits,
        outcome.orphan_flags == 0,
        replay.hits <= report.attempted_notes ==> replay.hits + replay.misses
            == report.attempted_notes,
        report.attempted_notes > 0 ==> magnitude(
            100_000_000 * replay.hits - replay.accuracy_pct * report.attempted_notes,
        ) <= 10_000 * report.attempted_notes,
        replay.failed ==> exists|i: int|
            0 <= i < replay.frames@.len() && (#[trigger] replay.frames@[i]).health <= 0,
{
    law_consistency(report, replay, map, outcome);
    law_the_lowest_health_is_a_frames(replay.frames@);
}

/// Whoever changes the hits or the misses in the header of a consistent replay, or its accuracy by
/// more than two hundredths of a percent, is found out.
pub proof fn law_changed_headers_are_found_out(
    report: IntegrityReport,
    replay: Replay,
    other: IntegrityReport,
    changed: Replay,
    map: Beatmap,
    outcome: MatchOutcome,
)
    requires
        is_report(report, replay, map, outcome),
        report.is_consistent(),
        is_report(other, changed, map, outcome),
        changed.frames@ == replay.frames@,
        changed.failed == replay.failed,
        changed.fail_time_ms == replay.fail_time_ms,
        changed.hits != replay.hits || changed.misses != replay.misses || magnitude(
            changed.accuracy_pct - replay.accuracy_pct,
        ) > 20_000,
    ensures
        !other.is_consistent(),
{
    law_consistency(report, replay, map, outcome);
    law_consistency(other, changed, map, outcome);
    let (num, den) = accuracy_parts(report.derived_hits as int, report.attempted_notes as int);
    if other.is_consistent() {
        let (a, b) = (replay.accuracy_pct as int, changed.accuracy_pct as int);
        assert(magnitude(b - a) <= 20_000) by (nonlinear_arith)
            requires
                magnitude(num * 1_000_000 - a * den) <= 10_000 * den,
                magnitude(num * 1_000_000 - b * den) <= 10_000 * den,
                den > 0,
        ;
    }
}

/// The derived accuracy is the share of the attempted notes that were hit, rounded; 100 percent
/// where none was attempted.
pub proof fn law_derived_accuracy_is_the_share_of_hits(
    report: IntegrityReport,
    replay: Replay,
    map: Beatmap,
    outcome: MatchOutcome,
)
    requires
        is_report(report, replay, map, outcome),
    ensures
        report.attempted_notes > 0 ==> 2 * magnitude(
            report.derived_accuracy_pct * report.attempted_notes - 100_000_000
                * report.derived_hits,
        ) <= report.attempted_notes,
        report.attempted_notes == 0 ==> report.derived_accuracy_pct == 100_000_000,
{
    let (num, den) = accuracy_parts(report.derived_hits as int, report.attempted_notes as int);
    let n = num * ONE;
    let q = nearest_even(n, den);
    vstd::arithmetic::div_mod::lemma_fundamental_div_mod(n, den);
    vstd::arithmetic::div_mod::lemma_mod_bound(n, den);
    let f = n / den;
    assert(den * f == f * den) by (nonlinear_arith);
    if q == f {
        assert(2 * magnitude(q * den - n) <= den);
    } else {
        assert(q == f + 1);
        assert(q * den == f * den + den) by (nonlinear_arith)
            requires
                q == f + 1,
        ;
        assert(2 * magnitude(q * den - n) <= den);
    }
}

/// A counted comparison shows the header's number and the derived one, and holds where they are
/// the same number.
pub proof fn law_checks_show_what_they_compare(
    report: IntegrityReport,
    replay: Replay,
    map: Beatmap,
    outcome: MatchOutcome,
)
    requires
        is_report(report, replay, map, outcome),
    ensures
        report.checks@.len() >= 7,
        report.checks@[0].expected@ == signed_decimal(replay.hits as int),
        report.checks@[0].actual@ == decimal(flagged(replay.frames@).len()),
        report.checks@[0].ok <==> flagged(replay.frames@).len() == replay.hits,
        report.checks@[1].expected@ == signed_decimal(replay.hits as int),
        report.checks@[1].actual@ == decimal(hits_in(outcome.results@)),
        report.checks@[1].ok <==> hits_in(outcome.results@) == replay.hits,
        report.checks@[2].expected@ == signed_decimal(replay.misses as int),
        report.checks@[2].ok <==> report.derived_misses == replay.misses,
        report.checks@[4].actual@ == decimal(outcome.orphan_flags as nat),
        report.checks@[4].ok <==> outcome.orphan_flags == 0,
        forall|i: int| 0 <= i < 5 ==> (#[trigger] report.checks@[i]).severity is Error,
{
    let all = all_checks(replay, map, outcome);
    let m = models(report.checks@);
    let counts = count_checks(
        replay,
        flagged(replay.frames@).len() as int,
        hits_in(outcome.results@) as int,
        attempted(map.notes@, replay.failed, replay.fail_time_ms) as int,
        outcome.orphan_flags as int,
    );
    assert(m.len() == report.checks@.len());
    assert(all.len() >= 7);
    assert forall|i: int| 0 <= i < 5 implies #[trigger] report.checks@[i]@ == counts[i] by {
        assert(m[i] == report.checks@[i]@);
        assert(all[i] == counts[i]);
    }
    assert(report.checks@[0]@ == counts[0]);
    assert(report.checks@[1]@ == counts[1]);
    assert(report.checks@[2]@ == counts[2]);
    assert(report.checks@[4]@ == counts[4]);
    assert forall|i: int| 0 <= i < 5 implies (#[trigger] report.checks@[i]).severity is Error by {
        assert(report.checks@[i]@ == counts[i]);
    }
}

/// The failed checks are those of the report that do not hold, all of them and in their order.
pub proof fn law_failing_checks_are_all_listed(checks: Seq<Check>)
    ensures
        forall|k: int|
            0 <= k < failing(checks).len() ==> !(#[trigger] failing(checks)[k]).ok
                && checks.contains(failing(checks)[k]),
        forall|i: int|
            0 <= i < checks.len() && !(#[trigger] checks[i]).ok ==> failing(checks).contains(
                checks[i],
            ),
        failing(checks).len() == tally(|i: int| !checks[i].ok, checks.len()),
    decreases checks.len(),
{
    if checks.len() > 0 {
        let rest = checks.drop_last();
        law_failing_checks_are_all_listed(rest);
        let last = checks.len() - 1;
        lemma_tally_same(|i: int| !rest[i].ok, |i: int| !checks[i].ok, rest.len());
        assert forall|k: int| 0 <= k < failing(checks).len() implies !(
        #[trigger] failing(checks)[k]).ok && checks.contains(failing(checks)[k]) by {
            if k < failing(rest).len() {
                assert(failing(checks)[k] == failing(rest)[k]);
                let i = choose|i: int| 0 <= i < rest.len() && rest[i] == failing(rest)[k];
                assert(checks[i] == failing(checks)[k]);
            } else {
                assert(checks[last] == failing(checks)[k]);
            }
        }
        assert forall|i: int| 0 <= i < checks.len() && !(#[trigger] checks[i]).ok implies failing(
            checks,
        ).contains(checks[i]) by {
            if i < last {
                assert(rest[i] == checks[i]);
                let k = choose|k: int| 0 <= k < failing(rest).len() && failing(rest)[k] == rest[i];
                assert(failing(checks)[k] == checks[i]);
            } else {
                assert(failing(checks)[failing(rest).len() as int] == checks[i]);
            }
        }
    }
}

/// A map looks wrong where its hash or an id differs; failing that, only where the flags are those
/// of the header and more than a third of more than 20 of them find no note, or fewer than half of
/// more than 20 hits are found. The better the match, the less it looks wrong.
pub proof fn law_wrong_maps_do_not_fit(hits: i32, report: IntegrityReport, better: IntegrityReport)
    requires
        better.checks@ == report.checks@,
        better.flagged_frames == report.flagged_frames,
        better.orphan_flags <= report.orphan_flags,
        better.derived_hits >= report.derived_hits,
    ensures
        wrong_map(hits, report, true),
        wrong_map(hits, better, false) ==> wrong_map(hits, report, false),
        (exists|i: int|
            0 <= i < report.checks@.len() && #[trigger] id_mismatch(report.checks@[i]@))
            ==> wrong_map(hits, report, false),
        report.flagged_frames <= 20 && report.flagged_frames == hits && wrong_map(
            hits,
            report,
            false,
        ) ==> exists|i: int|
            0 <= i < report.checks@.len() && #[trigger] id_mismatch(report.checks@[i]@),
        report.flagged_frames == hits && hits > 20 && 3 * report.orphan_flags > hits ==> wrong_map(
            hits,
            report,
            false,
        ),
        report.flagged_frames == hits && hits > 20 && 2 * report.derived_hits < hits ==> wrong_map(
            hits,
            report,
            false,
        ),
        3 * report.orphan_flags <= report.flagged_frames && 2 * report.derived_hits >= hits
            && wrong_map(hits, report, false) ==> exists|i: int|
            0 <= i < report.checks@.len() && #[trigger] id_mismatch(report.checks@[i]@),
{
}

} // verus!
