//! Signs that a recording may not be what it seems: hints with their context, never a judgement
//! of the player.

use vstd::prelude::*;

use crate::count::{gather, law_gathering_keeps_all_in_order, lemma_tally_same, tally};
use crate::fixed::magnitude;
use crate::integrity::{header_hits_of, IntegrityReport};
use crate::motion::{
    distance, is_kinematics, segment_time, segment_way, segments, Kinematics, SPEED_LIMIT,
};
use crate::movement::{deltas, present};
use crate::replay::{Frame, Replay};
use crate::stats::{limited, percentile, percentile_of};
use crate::study::NoteAnalysis;
use crate::text::{decimal, push_decimal, push_rounded, rounded, same_text};

verus! {

/// One sign.
#[derive(Debug, Clone)]
pub struct Signal {
    pub id: String,
    /// `info`, `notice` or `warn`; `info` is context only.
    pub severity: String,
    pub title: String,
    pub detail: String,
    /// Song times to look at.
    pub times: Vec<i64>,
}

/// A sign as plain text and times.
pub struct SignalModel {
    pub id: Seq<char>,
    pub severity: Seq<char>,
    pub title: Seq<char>,
    pub detail: Seq<char>,
    pub times: Seq<i64>,
}

impl View for Signal {
    type V = SignalModel;

    open spec fn view(&self) -> SignalModel {
        SignalModel {
            id: self.id@,
            severity: self.severity@,
            title: self.title@,
            detail: self.detail@,
            times: self.times@,
        }
    }
}

/// Signs as plain text and times.
pub open spec fn models(list: Seq<Signal>) -> Seq<SignalModel> {
    Seq::new(list.len(), |i: int| list[i]@)
}

/// The first five of some times.
pub open spec fn first_five(times: Seq<i64>) -> Seq<i64> {
    times.take(if times.len() < 5 {
        times.len() as int
    } else {
        5
    })
}

/// Whether the recorder only dropped frames: fewer flags than the header counts, and none that
/// matches no note.
pub open spec fn only_dropped(report: IntegrityReport, hits: i32) -> bool {
    report.orphan_flags == 0 && report.flagged_frames < header_hits_of(hits)
}

/// The sign of a file whose header and frames disagree.
pub open spec fn integrity_signal(report: IntegrityReport, replay: Replay) -> Seq<SignalModel> {
    let practice = replay.start_from_ms > 0;
    let dropped = only_dropped(report, replay.hits);
    if report.is_consistent() {
        Seq::empty()
    } else {
        seq![
            SignalModel {
                id: "integrity"@,
                severity: if practice || dropped {
                    "notice"@
                } else {
                    "warn"@
                },
                title: if dropped {
                    "Incomplete recording: "@ + decimal(
                        (header_hits_of(replay.hits) - report.flagged_frames) as nat,
                    ) + " hit flag(s) missing"@
                } else {
                    "File integrity check failed"@
                },
                detail: if practice {
                    "Header stats and frame data disagree. This is a practice-mode run                  (started mid-song) — header semantics for partial runs are not fully                  pinned yet, so treat this as informational."@
                } else if dropped {
                    "The header counts more hits than the file has flag frames — the                  game's recorder dropped frames (common under load). Derived stats                  undercount accordingly; the score itself is not in question."@
                } else {
                    "Header stats and frame data disagree — the file may be corrupted or edited."@
                },
                times: Seq::empty(),
            },
        ]
    }
}

/// When the cursor crossed more than 1.8 cells in one frame of at most 25 ms of real time.
pub open spec fn jumps(frames: Seq<Frame>, pace: int, n: nat) -> Seq<i64> {
    gather(
        |i: int|
            if segment_time(frames, i) > 0 && segment_time(frames, i) * 1_000_000 <= 25_000_000
                * pace && segment_way(frames, i) > 1_800_000 {
                Some(frames[i + 1].ms)
            } else {
                None
            },
        n,
    )
}

/// The sign of jumps across the field.
pub open spec fn teleport_signal(times: Seq<i64>) -> Seq<SignalModel> {
    if times.len() == 0 {
        Seq::empty()
    } else {
        seq![
            SignalModel {
                id: "teleport"@,
                severity: "notice"@,
                title: decimal(times.len()) + " instant jump(s) across the field"@,
                detail: "The cursor crossed more than 1.8 cells within a single ~16 ms frame. Normal for absolute input devices (tablets) and frame drops; only meaningful together with other signals."@,
                times: first_five(times),
            },
        ]
    }
}

/// The sign of extreme accelerations: from five on.
pub open spec fn accel_signal(times: Seq<i64>) -> Seq<SignalModel> {
    if times.len() < 5 {
        Seq::empty()
    } else {
        seq![
            SignalModel {
                id: "accel"@,
                severity: "info"@,
                title: decimal(times.len()) + " extreme acceleration spikes"@,
                detail: "Acceleration beyond what smooth mouse movement produces. Nearly every fast legitimate play shows these (speed mods and tablets amplify them) — only meaningful together with other signals."@,
                times: first_five(times),
            },
        ]
    }
}

/// The sign of a hand without tremor: in more than 60 percent of the windows.
pub open spec fn smooth_signal(pct: int) -> Seq<SignalModel> {
    if pct <= 60_000_000 {
        Seq::empty()
    } else {
        seq![
            SignalModel {
                id: "smooth"@,
                severity: "info"@,
                title: "Very low micro-jitter"@,
                detail: rounded(pct, 1_000_000, 0) + "% of moving windows show almost no hand tremor. Common for skilled mouse players on low sensitivity — NOT evidence on its own; only meaningful together with other signals."@,
                times: Seq::empty(),
            },
        ]
    }
}

/// The distances of the hits from the centre of their notes.
pub open spec fn hit_distances(list: Seq<NoteAnalysis>, n: nat) -> Seq<i128> {
    present(|i: int| list[i].dist, n)
}

/// How many distances are below 0.06 cells.
pub open spec fn centred(d: Seq<i128>) -> nat {
    tally(|i: int| d[i] < 60_000, d.len())
}

/// The sign of aim that does not scatter: more than 40 percent of at least 30 hits.
pub open spec fn center_signal(d: Seq<i128>) -> Seq<SignalModel> {
    if d.len() < 30 || 10 * centred(d) <= 4 * d.len() {
        Seq::empty()
    } else {
        seq![
            SignalModel {
                id: "center"@,
                severity: "notice"@,
                title: rounded((100 * centred(d)) as int, d.len() as int, 0)
                    + "% of hits are dead-centre"@,
                detail: "Human aim scatters around note centres; a very high dead-centre rate is unusual."@,
                times: Seq::empty(),
            },
        ]
    }
}

/// Part `b` of the spacings, in parts of `w`; the last one is shorter.
pub open spec fn part(d: Seq<i128>, w: int, b: int) -> Seq<i128> {
    d.subrange(
        b * w,
        if (b + 1) * w < d.len() {
            (b + 1) * w
        } else {
            d.len() as int
        },
    )
}

/// The median spacing of part `b`.
pub open spec fn part_median(d: Seq<i128>, w: int, b: int) -> int {
    percentile_of(part(d, w, b), 1, 2)
}

/// The smallest and the largest median spacing of the parts from the first up to `n`.
pub open spec fn medians(d: Seq<i128>, w: int, n: nat) -> (int, int)
    decreases n,
{
    if n <= 1 {
        (part_median(d, w, 0), part_median(d, w, 0))
    } else {
        let (lo, hi) = medians(d, w, (n - 1) as nat);
        let m = part_median(d, w, n - 1);
        (
            if m < lo {
                m
            } else {
                lo
            },
            if m > hi {
                m
            } else {
                hi
            },
        )
    }
}

/// The number of parts of `w`.
pub open spec fn parts(n: int, w: int) -> int {
    (n + w - 1) / w
}

/// The sign of a recording rate that changes: with more than 400 spacings, in parts of an eighth,
/// the smallest median is below 0.6 of the largest.
pub open spec fn shift_signal(d: Seq<i128>) -> Seq<SignalModel> {
    let w = d.len() as int / 8;
    let (lo, hi) = medians(d, w, parts(d.len() as int, w) as nat);
    if d.len() <= 400 || 10 * lo >= 6 * hi {
        Seq::empty()
    } else {
        seq![
            SignalModel {
                id: "delta_shift"@,
                severity: "notice"@,
                title: "Recording rate changes mid-run"@,
                detail: "Frame spacing shifts from ~"@ + rounded(lo, 1_000_000, 1) + " ms to ~"@
                    + rounded(hi, 1_000_000, 1)
                    + " ms between sections — can indicate splicing, or simply performance dips."@,
                times: Seq::empty(),
            },
        ]
    }
}

/// The sign of flags that match no note.
pub open spec fn orphan_signal(orphans: int) -> Seq<SignalModel> {
    if orphans <= 0 {
        Seq::empty()
    } else {
        seq![
            SignalModel {
                id: "orphans"@,
                severity: "notice"@,
                title: decimal(orphans as nat) + " hit flag(s) match no note"@,
                detail: "Frames marked as hits that align with no map note — inconsistent data."@,
                times: Seq::empty(),
            },
        ]
    }
}

/// All signs of a run, in order.
pub open spec fn all_signals(
    report: IntegrityReport,
    replay: Replay,
    pace: int,
    spikes: Seq<i64>,
    smooth_pct: int,
    list: Seq<NoteAnalysis>,
    orphans: int,
) -> Seq<SignalModel> {
    let frames = replay.frames@;
    integrity_signal(report, replay) + teleport_signal(jumps(frames, pace, segments(frames)))
        + accel_signal(spikes) + smooth_signal(smooth_pct) + center_signal(
        hit_distances(list, list.len()),
    ) + shift_signal(deltas(frames, segments(frames))) + orphan_signal(orphans)
}

fn text(s: &str) -> (t: String)
    ensures
        t@ == s@,
{
    s.to_owned()
}

fn counted(n: usize, words: &str) -> (t: String)
    ensures
        t@ == decimal(n as nat) + words@,
{
    let mut t: String = String::new();
    push_decimal(&mut t, n as u128);
    t.append(words);
    assert(t@ =~= decimal(n as nat) + words@);
    t
}

fn up_to_five(times: &[i64]) -> (five: Vec<i64>)
    ensures
        five@ == first_five(times@),
{
    let n: usize = if times.len() < 5 {
        times.len()
    } else {
        5
    };
    let mut five: Vec<i64> = Vec::new();
    let mut i: usize = 0;
    while i < n
        invariant
            i <= n <= times@.len(),
            five@ == times@.take(i as int),
        decreases n - i,
    {
        five.push(times[i]);
        assert(times@.take(i + 1) =~= times@.take(i as int).push(times@[i as int]));
        i = i + 1;
    }
    five
}

fn push_signal(signals: &mut Vec<Signal>, signal: Signal)
    ensures
        models(final(signals)@) == models(old(signals)@) + seq![signal@],
{
    signals.push(signal);
    assert(models(signals@) =~= models(old(signals)@) + seq![signal@]);
}

fn push_integrity(signals: &mut Vec<Signal>, report: &IntegrityReport, replay: &Replay)
    ensures
        models(final(signals)@) == models(old(signals)@) + integrity_signal(*report, *replay),
{
    if report.consistent() {
        assert(models(signals@) =~= models(old(signals)@) + Seq::<SignalModel>::empty());
        return;
    }
    let practice: bool = replay.start_from_ms > 0;
    let header: u32 = if replay.hits < 0 {
        0
    } else {
        replay.hits as u32
    };
    let dropped: bool = report.orphan_flags == 0 && report.flagged_frames < header;
    let title: String = if dropped {
        let mut t: String = "Incomplete recording: ".to_owned();
        push_decimal(&mut t, (header - report.flagged_frames) as u128);
        t.append(" hit flag(s) missing");
        t
    } else {
        text("File integrity check failed")
    };
    let detail: String = if practice {
        text("Header stats and frame data disagree. This is a practice-mode run                  (started mid-song) — header semantics for partial runs are not fully                  pinned yet, so treat this as informational.")
    } else if dropped {
        text("The header counts more hits than the file has flag frames — the                  game's recorder dropped frames (common under load). Derived stats                  undercount accordingly; the score itself is not in question.")
    } else {
        text("Header stats and frame data disagree — the file may be corrupted or edited.")
    };
    let severity: String = if practice || dropped {
        text("notice")
    } else {
        text("warn")
    };
    push_signal(
        signals,
        Signal { id: text("integrity"), severity, title, detail, times: Vec::new() },
    );
}

/// When the cursor jumped across the field.
fn find_jumps(frames: &[Frame], k: &Kinematics, pace: i64) -> (times: Vec<i64>)
    requires
        is_kinematics(*k, frames@, pace as int),
        0 < pace <= SPEED_LIMIT,
    ensures
        times@ == jumps(frames@, pace as int, segments(frames@)),
{
    let mut times: Vec<i64> = Vec::new();
    let n: usize = k.seg_dt.len();
    let mut i: usize = 0;
    while i < n
        invariant
            i <= n == segments(frames@),
            is_kinematics(*k, frames@, pace as int),
            0 < pace <= SPEED_LIMIT,
            times@ == jumps(frames@, pace as int, i as nat),
        decreases n - i,
    {
        assert(k.seg_dt@[i as int] == segment_time(frames@, i as int));
        assert(k.seg_dist@[i as int] == segment_way(frames@, i as int));
        assert(k.smooth_t@[i as int] == frames@[i + 1].ms);
        let dt: i64 = k.seg_dt[i];
        if dt > 0 && dt * 1_000_000 <= 25_000_000 * pace && k.seg_dist[i] > 1_800_000 {
            times.push(k.smooth_t[i]);
        }
        i = i + 1;
    }
    times
}

fn push_motion(signals: &mut Vec<Signal>, jumped: &[i64], spikes: &[i64], smooth_pct: i128)
    requires
        0 <= smooth_pct <= 0xffff_ffff_ffff_ffff_ffff,
    ensures
        models(final(signals)@) == models(old(signals)@) + teleport_signal(jumped@) + accel_signal(
            spikes@,
        ) + smooth_signal(smooth_pct as int),
{
    if jumped.len() > 0 {
        push_signal(
            signals,
            Signal {
                id: text("teleport"),
                severity: text("notice"),
                title: counted(jumped.len(), " instant jump(s) across the field"),
                detail: text("The cursor crossed more than 1.8 cells within a single ~16 ms frame. Normal for absolute input devices (tablets) and frame drops; only meaningful together with other signals."),
                times: up_to_five(jumped),
            },
        );
    }
    assert(models(signals@) =~= models(old(signals)@) + teleport_signal(jumped@));
    let ghost before = models(signals@);
    if spikes.len() >= 5 {
        push_signal(
            signals,
            Signal {
                id: text("accel"),
                severity: text("info"),
                title: counted(spikes.len(), " extreme acceleration spikes"),
                detail: text("Acceleration beyond what smooth mouse movement produces. Nearly every fast legitimate play shows these (speed mods and tablets amplify them) — only meaningful together with other signals."),
                times: up_to_five(spikes),
            },
        );
    }
    assert(models(signals@) =~= before + accel_signal(spikes@));
    let ghost before = models(signals@);
    if smooth_pct > 60_000_000 {
        let mut detail: String = String::new();
        push_rounded(&mut detail, smooth_pct, 1_000_000, 0);
        detail.append("% of moving windows show almost no hand tremor. Common for skilled mouse players on low sensitivity — NOT evidence on its own; only meaningful together with other signals.");
        assert(detail@ =~= smooth_signal(smooth_pct as int)[0].detail);
        push_signal(
            signals,
            Signal {
                id: text("smooth"),
                severity: text("info"),
                title: text("Very low micro-jitter"),
                detail,
                times: Vec::new(),
            },
        );
    }
    assert(models(signals@) =~= before + smooth_signal(smooth_pct as int));
}

fn push_center(signals: &mut Vec<Signal>, list: &[NoteAnalysis])
    requires
        list@.len() <= u32::MAX,
    ensures
        models(final(signals)@) == models(old(signals)@) + center_signal(
            hit_distances(list@, list@.len()),
        ),
{
    let mut d: Vec<i128> = Vec::new();
    let n: usize = list.len();
    let mut i: usize = 0;
    while i < n
        invariant
            i <= n == list@.len(),
            d@ == hit_distances(list@, i as nat),
            d@.len() <= i,
        decreases n - i,
    {
        if let Some(x) = list[i].dist {
            d.push(x as i128);
        }
        i = i + 1;
    }
    let ghost close = |i: int| d@[i] < 60_000;
    let mut c: u64 = 0;
    let mut j: usize = 0;
    while j < d.len()
        invariant
            j <= d@.len() <= u32::MAX,
            close == (|i: int| d@[i] < 60_000),
            c == tally(close, j as nat),
            c <= j,
        decreases d@.len() - j,
    {
        if d[j] < 60_000 {
            c = c + 1;
        }
        j = j + 1;
    }
    let len: u64 = d.len() as u64;
    if len >= 30 && 10 * c > 4 * len {
        let mut title: String = String::new();
        push_rounded(&mut title, 100 * c as i128, len as u128, 0);
        title.append("% of hits are dead-centre");
        assert(title@ =~= center_signal(d@)[0].title);
        push_signal(
            signals,
            Signal {
                id: text("center"),
                severity: text("notice"),
                title,
                detail: text("Human aim scatters around note centres; a very high dead-centre rate is unusual."),
                times: Vec::new(),
            },
        );
    }
    assert(models(signals@) =~= models(old(signals)@) + center_signal(d@));
}

/// The smallest and the largest median spacing of the parts of `w`.
fn part_medians(d: &[i128], w: usize) -> (r: (i128, i128))
    requires
        0 < w <= d@.len(),
        d@.len() <= u32::MAX,
        limited(d@, 500_000_000),
    ensures
        (r.0 as int, r.1 as int) == medians(d@, w as int, parts(d@.len() as int, w as int) as nat),
        magnitude(r.0 as int) <= 500_000_000,
        magnitude(r.1 as int) <= 500_000_000,
{
    let n: usize = d.len();
    let first: &[i128] = vstd::slice::slice_subrange(d, 0, w);
    assert(first@ =~= part(d@, w as int, 0));
    assert(limited(first@, 500_000_000)) by {
        assert forall|i: int| 0 <= i < first@.len() implies magnitude(#[trigger] first@[i] as int)
            <= 500_000_000 by {
            assert(magnitude(d@[i] as int) <= 500_000_000);
        }
    }
    let m: i128 = percentile(first, 1, 2);
    let mut lo: i128 = m;
    let mut hi: i128 = m;
    let mut at: usize = w;
    let mut b: usize = 1;
    let ghost ww = w as int;
    while at < n
        invariant
            0 < w <= n == d@.len(),
            n <= u32::MAX,
            ww == w,
            limited(d@, 500_000_000),
            b >= 1,
            at == (if b * ww < n {
                b * ww
            } else {
                n as int
            }),
            (b - 1) * ww < n,
            (lo as int, hi as int) == medians(d@, ww, b as nat),
            magnitude(lo as int) <= 500_000_000,
            magnitude(hi as int) <= 500_000_000,
        decreases n - at,
    {
        let end: usize = if n - at > w {
            at + w
        } else {
            n
        };
        assert((b + 1) * ww == b * ww + ww) by (nonlinear_arith);
        let c: &[i128] = vstd::slice::slice_subrange(d, at, end);
        assert(c@ =~= part(d@, ww, b as int));
        assert(limited(c@, 500_000_000)) by {
            assert forall|i: int| 0 <= i < c@.len() implies magnitude(#[trigger] c@[i] as int)
                <= 500_000_000 by {
                assert(magnitude(d@[at + i] as int) <= 500_000_000);
            }
        }
        let m: i128 = percentile(c, 1, 2);
        if m < lo {
            lo = m;
        }
        if m > hi {
            hi = m;
        }
        at = end;
        assert(b < n) by (nonlinear_arith)
            requires
                b * ww < n,
                ww >= 1,
                b >= 0,
        ;
        b = b + 1;
    }
    proof {
        let nn = n as int;
        assert(b == (nn + ww - 1) / ww) by (nonlinear_arith)
            requires
                (b - 1) * ww < nn,
                b * ww >= nn,
                ww >= 1,
        {
            assert(b * ww <= nn + ww - 1 < (b + 1) * ww) by (nonlinear_arith)
                requires
                    (b - 1) * ww < nn,
                    b * ww >= nn,
                    ww >= 1,
            ;
        }
    }
    (lo, hi)
}

fn push_shift(signals: &mut Vec<Signal>, d: &[i128])
    requires
        d@.len() <= u32::MAX,
        limited(d@, 500_000_000),
    ensures
        models(final(signals)@) == models(old(signals)@) + shift_signal(d@),
{
    if d.len() > 400 {
        let w: usize = d.len() / 8;
        let (lo, hi) = part_medians(d, w);
        if 10 * lo < 6 * hi {
            let mut detail: String = "Frame spacing shifts from ~".to_owned();
            push_rounded(&mut detail, lo, 1_000_000, 1);
            detail.append(" ms to ~");
            push_rounded(&mut detail, hi, 1_000_000, 1);
            detail.append(
                " ms between sections — can indicate splicing, or simply performance dips.",
            );
            push_signal(
                signals,
                Signal {
                    id: text("delta_shift"),
                    severity: text("notice"),
                    title: text("Recording rate changes mid-run"),
                    detail,
                    times: Vec::new(),
                },
            );
        }
    }
    assert(models(signals@) =~= models(old(signals)@) + shift_signal(d@));
}

/// The signs of a run, in order.
pub fn signals(
    report: &IntegrityReport,
    replay: &Replay,
    k: &Kinematics,
    pace: i64,
    spikes: &[i64],
    smooth_pct: i128,
    list: &[NoteAnalysis],
    d: &[i128],
    orphans: u32,
) -> (signals: Vec<Signal>)
    requires
        is_kinematics(*k, replay.frames@, pace as int),
        0 < pace <= SPEED_LIMIT,
        0 <= smooth_pct <= 0xffff_ffff_ffff_ffff_ffff,
        list@.len() <= u32::MAX,
        d@ == deltas(replay.frames@, segments(replay.frames@)),
        d@.len() <= u32::MAX,
        limited(d@, 500_000_000),
    ensures
        models(signals@) == all_signals(
            *report,
            *replay,
            pace as int,
            spikes@,
            smooth_pct as int,
            list@,
            orphans as int,
        ),
{
    let mut signals: Vec<Signal> = Vec::new();
    assert(models(signals@) =~= Seq::empty());
    let jumped: Vec<i64> = find_jumps(replay.frames.as_slice(), k, pace);
    push_integrity(&mut signals, report, replay);
    push_motion(&mut signals, jumped.as_slice(), spikes, smooth_pct);
    push_center(&mut signals, list);
    push_shift(&mut signals, d);
    let ghost before = models(signals@);
    if orphans > 0 {
        push_signal(
            &mut signals,
            Signal {
                id: text("orphans"),
                severity: text("notice"),
                title: counted(orphans as usize, " hit flag(s) match no note"),
                detail: text("Frames marked as hits that align with no map note — inconsistent data."),
                times: Vec::new(),
            },
        );
    }
    assert(models(signals@) =~= before + orphan_signal(orphans as int));
    assert(models(signals@) =~= all_signals(
        *report,
        *replay,
        pace as int,
        spikes@,
        smooth_pct as int,
        list@,
        orphans as int,
    ));
    signals
}

/// Whether some sign has a severity.
pub open spec fn any_of(list: Seq<SignalModel>, severity: Seq<char>) -> bool {
    exists|i: int| 0 <= i < list.len() && (#[trigger] list[i]).severity == severity
}

/// The strongest severity among the signs; context alone leaves a run clean.
pub open spec fn verdict_of(list: Seq<SignalModel>) -> Seq<char> {
    if any_of(list, "warn"@) {
        "warn"@
    } else if any_of(list, "notice"@) {
        "notice"@
    } else {
        "clean"@
    }
}

fn has_severity(list: &[Signal], severity: &str) -> (r: bool)
    ensures
        r == any_of(models(list@), severity@),
{
    let mut i: usize = 0;
    while i < list.len()
        invariant
            i <= list@.len(),
            forall|j: int| 0 <= j < i ==> (#[trigger] models(list@)[j]).severity != severity@,
        decreases list@.len() - i,
    {
        assert(models(list@)[i as int] == list@[i as int]@);
        if same_text(list[i].severity.as_str(), severity) {
            return true;
        }
        i = i + 1;
    }
    false
}

/// The strongest severity among the signs.
pub fn verdict(list: &[Signal]) -> (v: String)
    ensures
        v@ == verdict_of(models(list@)),
{
    if has_severity(list, "warn") {
        text("warn")
    } else if has_severity(list, "notice") {
        text("notice")
    } else {
        text("clean")
    }
}

/// An instant jump is a segment of no more than 25 ms of real time over which the cursor goes
/// further than 1.8 cells; all of them are found, in order, and the first five are shown.
pub proof fn law_jumps_are_long_and_short(frames: Seq<Frame>, pace: int, n: nat)
    requires
        n <= segments(frames),
    ensures
        jumps(frames, pace, n).len() == tally(
            |i: int|
                {
                    let dt = frames[i + 1].ms - frames[i].ms;
                    &&& 0 < dt <= 500_000_000 && dt <= 25 * pace
                    &&& distance(
                        frames[i].x as int,
                        frames[i].y as int,
                        frames[i + 1].x as int,
                        frames[i + 1].y as int,
                    ) > 1_800_000
                },
            n,
        ),
        forall|k: int|
            0 <= k < jumps(frames, pace, n).len() ==> #[trigger] is_jump_at(
                frames,
                pace,
                jumps(frames, pace, n)[k],
            ),
        first_five(jumps(frames, pace, n)).len() <= 5,
        first_five(jumps(frames, pace, n)).is_prefix_of(jumps(frames, pace, n)),
        first_five(jumps(frames, pace, n)).len() < 5 ==> first_five(jumps(frames, pace, n)) =~= jumps(
            frames,
            pace,
            n,
        ),
{
    let f = |i: int|
        if segment_time(frames, i) > 0 && segment_time(frames, i) * 1_000_000 <= 25_000_000 * pace
            && segment_way(frames, i) > 1_800_000 {
            Some(frames[i + 1].ms)
        } else {
            None
        };
    law_gathering_keeps_all_in_order(f, n);
    let list = jumps(frames, pace, n);
    assert(list == gather(f, n));
    assert forall|k: int| 0 <= k < list.len() implies #[trigger] is_jump_at(frames, pace, list[k]) by {
        let i = choose|i: int| 0 <= i < n && #[trigger] f(i) == Some(list[k]);
        assert(f(i) == Some(list[k]));
        assert(segment_way(frames, i) > 1_800_000);
    }
    lemma_tally_same(
        |i: int| f(i) is Some,
        |i: int|
            {
                let dt = frames[i + 1].ms - frames[i].ms;
                &&& 0 < dt <= 500_000_000 && dt <= 25 * pace
                &&& distance(
                    frames[i].x as int,
                    frames[i].y as int,
                    frames[i + 1].x as int,
                    frames[i + 1].y as int,
                ) > 1_800_000
            },
        n,
    );
}

/// Whether a segment that ends at that time is an instant jump.
pub open spec fn is_jump_at(frames: Seq<Frame>, pace: int, t: i64) -> bool {
    exists|i: int|
        0 <= i < segments(frames) && frames[i + 1].ms == t && #[trigger] segment_way(frames, i)
            > 1_800_000 && frames[i + 1].ms - frames[i].ms <= 25 * pace
}

/// The medians of the parts are framed by the least and the greatest of them, and these are
/// medians of parts.
pub proof fn law_medians_are_framed(d: Seq<i128>, w: int, n: nat)
    requires
        n > 0,
    ensures
        forall|b: int|
            0 <= b < n ==> medians(d, w, n).0 <= #[trigger] part_median(d, w, b) <= medians(
                d,
                w,
                n,
            ).1,
        exists|b: int| 0 <= b < n && #[trigger] part_median(d, w, b) == medians(d, w, n).0,
        exists|b: int| 0 <= b < n && #[trigger] part_median(d, w, b) == medians(d, w, n).1,
    decreases n,
{
    if n > 1 {
        let m = (n - 1) as nat;
        law_medians_are_framed(d, w, m);
        let a = choose|b: int| 0 <= b < m && #[trigger] part_median(d, w, b) == medians(d, w, m).0;
        let c = choose|b: int| 0 <= b < m && #[trigger] part_median(d, w, b) == medians(d, w, m).1;
        let last = part_median(d, w, m as int);
        assert(part_median(d, w, a) == medians(d, w, m).0);
        assert(part_median(d, w, c) == medians(d, w, m).1);
        assert(medians(d, w, n).0 == last || medians(d, w, n).0 == part_median(d, w, a));
        assert(medians(d, w, n).1 == last || medians(d, w, n).1 == part_median(d, w, c));
    } else {
        assert(part_median(d, w, 0) == medians(d, w, n).0);
    }
}

/// What a run says of itself: nothing on a consistent recording without jumps, spikes, orphans and
/// the like; each finding raises exactly its own signal, and the findings come in their order.
pub proof fn law_findings_raise_their_signals(
    report: IntegrityReport,
    replay: Replay,
    times: Seq<i64>,
    d: Seq<i128>,
    pct: int,
    orphans: int,
)
    ensures
        integrity_signal(report, replay).len() == 0 <==> report.is_consistent(),
        !report.is_consistent() && replay.start_from_ms <= 0 && (report.orphan_flags > 0
            || report.flagged_frames >= header_hits_of(replay.hits)) ==> integrity_signal(
            report,
            replay,
        )[0].severity == "warn"@,
        !report.is_consistent() && (replay.start_from_ms > 0 || report.orphan_flags == 0
            && report.flagged_frames < replay.hits) ==> integrity_signal(report, replay)[0].severity
            == "notice"@,
        teleport_signal(times).len() == 0 <==> times.len() == 0,
        times.len() > 0 ==> teleport_signal(times)[0].severity == "notice"@,
        accel_signal(times).len() == 0 <==> times.len() < 5,
        times.len() >= 5 ==> accel_signal(times)[0].severity == "info"@,
        smooth_signal(pct).len() == 0 <==> pct <= 60_000_000,
        pct > 60_000_000 ==> smooth_signal(pct)[0].severity == "info"@,
        center_signal(d).len() > 0 <==> d.len() >= 30 && 10 * tally(
            |i: int| d[i] < 60_000,
            d.len(),
        ) > 4 * d.len(),
        center_signal(d).len() > 0 ==> center_signal(d)[0].severity == "notice"@,
        d.len() <= 400 ==> shift_signal(d).len() == 0,
        shift_signal(d).len() > 0 ==> shift_signal(d)[0].severity == "notice"@,
        orphans >= 0 ==> (orphan_signal(orphans).len() == 0 <==> orphans == 0),
        orphans > 0 ==> orphan_signal(orphans)[0].severity == "notice"@,
{
}

/// The verdict is that of the gravest signal, whatever else there is: one warning makes it a
/// warning, and information alone leaves it clean.
pub proof fn law_the_gravest_signal_decides(
    list: Seq<SignalModel>,
    more: Seq<SignalModel>,
    i: int,
)
    requires
        0 <= i < list.len(),
    ensures
        list[i].severity == "warn"@ ==> verdict_of(list) == "warn"@ && verdict_of(list + more)
            == "warn"@ && verdict_of(more + list) == "warn"@,
        list[i].severity == "notice"@ ==> verdict_of(list) == "notice"@ || verdict_of(list)
            == "warn"@,
        (forall|k: int|
            0 <= k < list.len() ==> (#[trigger] list[k]).severity == "info"@) ==> verdict_of(list)
            == "clean"@ && verdict_of(list + more) == verdict_of(more),
{
    reveal_strlit("warn");
    reveal_strlit("notice");
    reveal_strlit("info");
    reveal_strlit("clean");
    let (a, b) = (list + more, more + list);
    if list[i].severity == "warn"@ {
        assert(a[i].severity == "warn"@);
        assert(b[more.len() + i].severity == "warn"@);
    }
    if forall|k: int| 0 <= k < list.len() ==> (#[trigger] list[k]).severity == "info"@ {
        assert("info"@[0] != "warn"@[0]);
        assert("info"@[0] != "notice"@[0]);
        assert forall|s: Seq<char>| s == "warn"@ || s == "notice"@ implies #[trigger] any_of(a, s)
            == any_of(more, s) by {
            if any_of(a, s) {
                let k = choose|k: int| 0 <= k < a.len() && (#[trigger] a[k]).severity == s;
                if k < list.len() {
                    assert(list[k].severity == s);
                } else {
                    assert(more[k - list.len()].severity == s);
                }
            }
            if any_of(more, s) {
                let k = choose|k: int| 0 <= k < more.len() && (#[trigger] more[k]).severity == s;
                assert(a[list.len() + k].severity == s);
            }
        }
        assert(any_of(a, "warn"@) == any_of(more, "warn"@));
        assert(any_of(a, "notice"@) == any_of(more, "notice"@));
    }
}

/// The parts of a recording that are compared follow each other, have the same length but for the
/// last, and leave nothing out.
pub proof fn law_parts_make_the_recording(d: Seq<i128>, w: int, b: int)
    requires
        w > 0,
        d.len() > 0,
        0 <= b < parts(d.len() as int, w),
    ensures
        ({
            let n = parts(d.len() as int, w);
            &&& (n - 1) * w < d.len() <= n * w
            &&& 0 < part(d, w, b).len() <= w
            &&& b < n - 1 ==> part(d, w, b).len() == w
            &&& forall|i: int|
                0 <= i < part(d, w, b).len() ==> #[trigger] part(d, w, b)[i] == d[b * w + i]
        }),
{
    let len = d.len() as int;
    let n = parts(len, w);
    vstd::arithmetic::div_mod::lemma_fundamental_div_mod(len + w - 1, w);
    vstd::arithmetic::div_mod::lemma_mod_bound(len + w - 1, w);
    assert(n * w == w * n && (n - 1) * w == n * w - w && (b + 1) * w == b * w + w)
        by (nonlinear_arith);
    assert(0 <= b * w <= (n - 1) * w) by (nonlinear_arith)
        requires
            0 <= b <= n - 1,
            w > 0,
    ;
    if b < n - 1 {
        assert((b + 1) * w <= (n - 1) * w) by (nonlinear_arith)
            requires
                b + 1 <= n - 1,
                w > 0,
        ;
    }
}

} // verus!
