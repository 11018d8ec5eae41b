//! The timing of a run: hit errors, halves and sections, the rolling spread, and the misses.

use vstd::prelude::*;

use crate::count::{
    gather, law_buckets_hold_everything, law_counts_are_complete, lemma_tally_implies,
    lemma_tally_same, lemma_total_same, tally, total,
};
use crate::fixed::{magnitude, within, COORDINATE_LIMIT, ONE};
use crate::mods::lemma_root_of;
use crate::motion::{
    distance, is_kinematics, segment_time, segment_way, segments, speed_over, trackable, velocity,
    Kinematics, SPEED_LIMIT,
};
use crate::movement::present;
use crate::replay::Frame;
use crate::stats::{
    average, covariation, downsample, is_percentile, is_thinned, law_means_lie_between,
    law_moving_keeps_the_spread, law_percentiles_split_in_proportion, limited, mean, percentile,
    products, spread, std_dev, terms, Series, SPREAD_LIMIT, VALUE_LIMIT,
};
use crate::study::{
    all_bounded, is_bounded, law_shares_are_parts_of_a_hundred, leg, leg_between, percentage, share,
    world_x, world_y, NoteAnalysis, CHART_LIMIT, WINDOW_LIMIT,
};
use crate::trend::{drift, law_drift_of_a_line, slope};

verus! {

/// The timing of the hits.
#[derive(Debug, Clone)]
pub struct Timing {
    /// Unstable rate: ten times the standard deviation of the errors.
    pub ur: i128,
    pub mean_err_ms: i128,
    pub median_err_ms: i128,
    /// Width of a bucket.
    pub hist_bin_ms: i64,
    /// Start of the first bucket.
    pub hist_start_ms: i64,
    /// Errors by bucket.
    pub hist: Vec<u32>,
    /// How much later hits get, every minute.
    pub drift_ms_per_min: i128,
    pub first_half: HalfStats,
    pub second_half: HalfStats,
}

/// A part of the run.
#[derive(Debug, Clone, Copy)]
pub struct HalfStats {
    pub acc_pct: i128,
    pub ur: i128,
    pub avg_speed: i128,
}

/// The width of a bucket of errors: 5 ms.
pub const HIST_BIN: i64 = 5_000_000;

/// The errors of the hits among the notes of a span.
pub open spec fn errors_in(list: Seq<NoteAnalysis>, lo: int, hi: int, n: nat) -> Seq<i128> {
    present(
        |i: int|
            if lo <= list[i].t < hi {
                list[i].err_ms
            } else {
                None
            },
        n,
    )
}

/// The errors of the hits.
pub open spec fn errors(list: Seq<NoteAnalysis>, n: nat) -> Seq<i128> {
    present(|i: int| list[i].err_ms, n)
}

/// The notes of a span.
pub open spec fn in_span_fn(list: Seq<NoteAnalysis>, lo: int, hi: int) -> spec_fn(int) -> bool {
    |i: int| lo <= list[i].t < hi
}

/// The hits of a span.
pub open spec fn hit_in_span_fn(list: Seq<NoteAnalysis>, lo: int, hi: int) -> spec_fn(int) -> bool {
    |i: int| lo <= list[i].t < hi && list[i].hit
}

/// The ways in the segments that end in a span.
pub open spec fn ways_in_fn(frames: Seq<Frame>, lo: int, hi: int) -> spec_fn(int) -> int {
    |i: int|
        if lo <= frames[i + 1].ms < hi {
            segment_way(frames, i)
        } else {
            0
        }
}

/// The times of the segments that end in a span.
pub open spec fn times_in_fn(frames: Seq<Frame>, lo: int, hi: int) -> spec_fn(int) -> int {
    |i: int|
        if lo <= frames[i + 1].ms < hi {
            segment_time(frames, i)
        } else {
            0
        }
}

/// A span of the run.
pub struct Span {
    pub notes: nat,
    pub hits: nat,
    pub acc: int,
    pub ur: int,
    pub speed: int,
}

/// What a span of the run shows.
pub open spec fn span(
    frames: Seq<Frame>,
    pace: int,
    list: Seq<NoteAnalysis>,
    lo: int,
    hi: int,
) -> Span {
    let n = list.len();
    let notes = tally(in_span_fn(list, lo, hi), n);
    let hits = tally(hit_in_span_fn(list, lo, hi), n);
    Span {
        notes,
        hits,
        acc: share(hits as int, notes as int),
        ur: 10 * spread(errors_in(list, lo, hi, n)),
        speed: velocity(
            total(ways_in_fn(frames, lo, hi), segments(frames)),
            total(times_in_fn(frames, lo, hi), segments(frames)),
            pace,
        ),
    }
}

/// Whether this is what a part of the run shows.
pub open spec fn is_half(h: HalfStats, s: Span) -> bool {
    h.acc_pct == s.acc && h.ur == s.ur && h.avg_speed == s.speed
}

fn study_errors(list: &[NoteAnalysis], lo: i128, hi: i128) -> (r: (u32, u32, i128))
    requires
        list@.len() <= u32::MAX,
        all_bounded(list@),
    ensures
        r.0 == tally(in_span_fn(list@, lo as int, hi as int), list@.len()),
        r.1 == tally(hit_in_span_fn(list@, lo as int, hi as int), list@.len()),
        r.1 <= r.0,
        r.2 == 10 * spread(errors_in(list@, lo as int, hi as int, list@.len())),
{
    let mut notes: u32 = 0;
    let mut hits: u32 = 0;
    let mut errs: Vec<i128> = Vec::new();
    let n: usize = list.len();
    let mut i: usize = 0;
    while i < n
        invariant
            i <= n == list@.len() <= u32::MAX,
            all_bounded(list@),
            notes == tally(in_span_fn(list@, lo as int, hi as int), i as nat),
            hits == tally(hit_in_span_fn(list@, lo as int, hi as int), i as nat),
            hits <= notes <= i,
            errs@ == errors_in(list@, lo as int, hi as int, i as nat),
            errs@.len() <= i,
            limited(errs@, SPREAD_LIMIT),
        decreases n - i,
    {
        assert(is_bounded(list@[i as int]));
        let na: NoteAnalysis = list[i];
        if lo <= na.t as i128 && (na.t as i128) < hi {
            notes = notes + 1;
            if na.hit {
                hits = hits + 1;
            }
            if let Some(e) = na.err_ms {
                errs.push(e as i128);
            }
        }
        i = i + 1;
    }
    (notes, hits, 10 * std_dev(errs.as_slice()))
}

fn study_span_speed(frames: &[Frame], k: &Kinematics, pace: i64, lo: i128, hi: i128) -> (v: i128)
    requires
        trackable(frames@),
        is_kinematics(*k, frames@, pace as int),
        0 < pace <= SPEED_LIMIT,
    ensures
        v == velocity(
            total(ways_in_fn(frames@, lo as int, hi as int), segments(frames@)),
            total(times_in_fn(frames@, lo as int, hi as int), segments(frames@)),
            pace as int,
        ),
{
    let mut way: i128 = 0;
    let mut time: i128 = 0;
    let n: usize = k.seg_dt.len();
    let mut i: usize = 0;
    while i < n
        invariant
            i <= n == segments(frames@),
            n <= u32::MAX,
            is_kinematics(*k, frames@, pace as int),
            way == total(ways_in_fn(frames@, lo as int, hi as int), i as nat),
            time == total(times_in_fn(frames@, lo as int, hi as int), i as nat),
            0 <= way <= i * 3_000_000_000_000,
            0 <= time <= i * 500_000_000,
        decreases n - i,
    {
        assert(k.seg_dt@[i as int] == segment_time(frames@, i as int));
        assert(k.seg_dist@[i as int] == segment_way(frames@, i as int));
        assert(k.smooth_t@[i as int] == frames@[i + 1].ms);
        let t: i128 = k.smooth_t[i] as i128;
        if lo <= t && t < hi {
            way = way + k.seg_dist[i] as i128;
            time = time + k.seg_dt[i] as i128;
        }
        i = i + 1;
    }
    speed_over(way, time, pace)
}

/// What a part of the run shows.
pub fn half_stats(
    frames: &[Frame],
    k: &Kinematics,
    pace: i64,
    list: &[NoteAnalysis],
    lo: i128,
    hi: i128,
) -> (h: HalfStats)
    requires
        trackable(frames@),
        is_kinematics(*k, frames@, pace as int),
        0 < pace <= SPEED_LIMIT,
        list@.len() <= u32::MAX,
        all_bounded(list@),
    ensures
        is_half(h, span(frames@, pace as int, list@, lo as int, hi as int)),
{
    let (notes, hits, ur) = study_errors(list, lo, hi);
    HalfStats {
        acc_pct: percentage(hits as i128, notes as i128),
        ur,
        avg_speed: study_span_speed(frames, k, pace, lo, hi),
    }
}

/// The number of buckets of errors for a hit window.
pub open spec fn bins(window: int) -> int {
    (2 * window + 5_000_000 + HIST_BIN - 1) / (HIST_BIN as int)
}

/// The bucket of an error; the outermost ones take what lies beyond.
pub open spec fn error_bucket(e: int, window: int) -> int {
    within((e + window + 2_500_000) / (HIST_BIN as int), 0, bins(window) - 1)
}

/// The errors in a bucket.
pub open spec fn in_error_bucket_fn(e: Seq<i128>, window: int, b: int) -> spec_fn(int) -> bool {
    |i: int| error_bucket(e[i] as int, window) == b
}

/// Whether this counts errors by bucket.
pub open spec fn is_error_hist(hist: Seq<u32>, e: Seq<i128>, window: int) -> bool {
    &&& hist.len() == bins(window)
    &&& forall|b: int|
        0 <= b < bins(window) ==> #[trigger] hist[b] == tally(
            in_error_bucket_fn(e, window, b),
            e.len(),
        )
}

fn error_hist(e: &[i128], window: i64) -> (hist: Vec<u32>)
    requires
        e@.len() <= u32::MAX,
        0 <= window <= WINDOW_LIMIT,
        limited(e@, WINDOW_LIMIT as i128),
    ensures
        is_error_hist(hist@, e@, window as int),
{
    let total_bins: usize = ((2 * window + 5_000_000 + HIST_BIN - 1) / HIST_BIN) as usize;
    let mut hist: Vec<u32> = Vec::new();
    let mut b: usize = 0;
    while b < total_bins
        invariant
            b <= total_bins,
            hist@.len() == b,
            forall|c: int| 0 <= c < b ==> #[trigger] hist@[c] == 0,
        decreases total_bins - b,
    {
        hist.push(0);
        b = b + 1;
    }
    let n: usize = e.len();
    let mut i: usize = 0;
    while i < n
        invariant
            i <= n == e@.len() <= u32::MAX,
            0 <= window <= WINDOW_LIMIT,
            limited(e@, WINDOW_LIMIT as i128),
            1 <= total_bins == bins(window as int),
            hist@.len() == total_bins,
            forall|c: int|
                0 <= c < total_bins ==> #[trigger] hist@[c] == tally(
                    in_error_bucket_fn(e@, window as int, c),
                    i as nat,
                ) && hist@[c] <= i,
        decreases n - i,
    {
        assert(magnitude(e@[i as int] as int) <= WINDOW_LIMIT);
        let from_start: i128 = e[i] + window as i128 + 2_500_000;
        let b: usize = if from_start < 0 {
            0
        } else {
            let q: i128 = from_start / 5_000_000;
            if q < total_bins as i128 {
                q as usize
            } else {
                total_bins - 1
            }
        };
        assert(b == error_bucket(e@[i as int] as int, window as int));
        let ghost before = hist@;
        assert(before[b as int] <= i);
        let more: u32 = hist[b] + 1;
        hist.set(b, more);
        assert forall|c: int| 0 <= c < total_bins implies #[trigger] hist@[c] == tally(
            in_error_bucket_fn(e@, window as int, c),
            (i + 1) as nat,
        ) && hist@[c] <= i + 1 by {
            assert(before[c] == tally(in_error_bucket_fn(e@, window as int, c), i as nat));
        }
        i = i + 1;
    }
    hist
}

/// The chart times of the hits, in whole milliseconds.
pub open spec fn hit_charts(list: Seq<NoteAnalysis>, n: nat) -> Seq<i128> {
    gather(
        |i: int|
            if list[i].err_ms is Some {
                Some((list[i].t as int / ONE as int) as i128)
            } else {
                None
            },
        n,
    )
}

/// The start and end of a recording; 0 of nothing.
pub open spec fn first_ms(frames: Seq<Frame>) -> int {
    if frames.len() == 0 {
        0
    } else {
        frames[0].ms as int
    }
}

/// The end of a recording; 0 of nothing.
pub open spec fn last_ms(frames: Seq<Frame>) -> int {
    if frames.len() == 0 {
        0
    } else {
        frames.last().ms as int
    }
}

/// The middle of a recording, to the millionth above.
pub open spec fn middle_ms(frames: Seq<Frame>) -> int {
    (first_ms(frames) + last_ms(frames) + 1) / 2
}

/// Whether this is the timing of the hits.
pub open spec fn is_timing(
    t: Timing,
    frames: Seq<Frame>,
    pace: int,
    list: Seq<NoteAnalysis>,
    window: int,
) -> bool {
    let e = errors(list, list.len());
    &&& t.ur == 10 * spread(e)
    &&& t.mean_err_ms == average(e)
    &&& is_percentile(e, 1, 2, t.median_err_ms as int)
    &&& t.hist_bin_ms == HIST_BIN
    &&& t.hist_start_ms == -(window + 2_500_000)
    &&& is_error_hist(t.hist@, e, window)
    &&& t.drift_ms_per_min == drift(hit_charts(list, list.len()), e)
    &&& is_half(
        t.first_half,
        span(frames, pace, list, first_ms(frames), middle_ms(frames)),
    )
    &&& is_half(
        t.second_half,
        span(frames, pace, list, middle_ms(frames), last_ms(frames) + ONE),
    )
}

/// The timing of the hits.
pub fn timing(
    frames: &[Frame],
    k: &Kinematics,
    pace: i64,
    list: &[NoteAnalysis],
    window_ms: i64,
) -> (t: Timing)
    requires
        trackable(frames@),
        is_kinematics(*k, frames@, pace as int),
        0 < pace <= SPEED_LIMIT,
        list@.len() <= u32::MAX,
        all_bounded(list@),
        0 <= window_ms <= WINDOW_LIMIT,
    ensures
        is_timing(t, frames@, pace as int, list@, window_ms as int),
{
    let mut errs: Vec<i128> = Vec::new();
    let mut charts: Vec<i128> = Vec::new();
    let n: usize = list.len();
    let mut i: usize = 0;
    while i < n
        invariant
            i <= n == list@.len(),
            all_bounded(list@),
            errs@ == errors(list@, i as nat),
            charts@ == hit_charts(list@, i as nat),
            errs@.len() == charts@.len() <= i,
            limited(errs@, WINDOW_LIMIT as i128),
            limited(charts@, CHART_LIMIT as i128),
        decreases n - i,
    {
        assert(is_bounded(list@[i as int]));
        if let Some(e) = list[i].err_ms {
            errs.push(e as i128);
            charts.push(floor_ms(list[i].t));
        }
        i = i + 1;
    }
    let first: i128 = if frames.len() == 0 {
        0
    } else {
        frames[0].ms as i128
    };
    let last: i128 = if frames.len() == 0 {
        0
    } else {
        frames[frames.len() - 1].ms as i128
    };
    let twice: i128 = first + last + 1;
    let mid: i128 = if twice >= 0 {
        twice / 2
    } else {
        -((1 - twice) / 2)
    };
    assert(mid == middle_ms(frames@));
    Timing {
        ur: 10 * std_dev(errs.as_slice()),
        mean_err_ms: mean(errs.as_slice()),
        median_err_ms: percentile(errs.as_slice(), 1, 2),
        hist_bin_ms: HIST_BIN,
        hist_start_ms: -(window_ms + 2_500_000),
        hist: error_hist(errs.as_slice(), window_ms),
        drift_ms_per_min: slope(charts.as_slice(), errs.as_slice()),
        first_half: half_stats(frames, k, pace, list, first, mid),
        second_half: half_stats(frames, k, pace, list, mid, last + ONE as i128),
    }
}

/// A time in whole milliseconds, to the one below.
fn floor_ms(t: i64) -> (ms: i128)
    requires
        magnitude(t as int) <= CHART_LIMIT * ONE,
    ensures
        ms == t as int / ONE as int,
        magnitude(ms as int) <= CHART_LIMIT,
{
    if t >= 0 {
        t as i128 / ONE as i128
    } else {
        let ms: i128 = (-(t as i128) + (ONE as i128 - 1)) / ONE as i128;
        -ms
    }
}

/// The times of the hits.
pub open spec fn hit_times(list: Seq<NoteAnalysis>, n: nat) -> Seq<i64> {
    gather(|i: int| list[i].hit_ms, n)
}

/// The number of windows of 20 hits, five hits apart.
pub open spec fn rolls(n: int) -> int {
    if n < 20 {
        0
    } else {
        (n - 20) / 5 + 1
    }
}

/// The last hit of each window.
pub open spec fn roll_times(times: Seq<i64>) -> Seq<i64> {
    Seq::new(rolls(times.len() as int) as nat, |b: int| times[5 * b + 19])
}

/// The unstable rate of each window.
pub open spec fn roll_rates(e: Seq<i128>) -> Seq<i128> {
    Seq::new(
        rolls(e.len() as int) as nat,
        |b: int| (10 * spread(e.subrange(5 * b, 5 * b + 20))) as i128,
    )
}

/// The unstable rate over the run, in windows of 20 hits.
pub fn rolling_ur(list: &[NoteAnalysis]) -> (s: Series)
    requires
        list@.len() <= u32::MAX,
        all_bounded(list@),
    ensures
        is_thinned(
            s,
            roll_times(hit_times(list@, list@.len())),
            roll_rates(errors(list@, list@.len())),
        ),
{
    let mut times: Vec<i64> = Vec::new();
    let mut errs: Vec<i128> = Vec::new();
    let n: usize = list.len();
    let mut i: usize = 0;
    while i < n
        invariant
            i <= n == list@.len(),
            all_bounded(list@),
            times@ == hit_times(list@, i as nat),
            errs@ == errors(list@, i as nat),
            errs@.len() == times@.len() <= i,
            limited(errs@, SPREAD_LIMIT),
        decreases n - i,
    {
        assert(is_bounded(list@[i as int]));
        if let Some(h) = list[i].hit_ms {
            times.push(h);
        }
        if let Some(e) = list[i].err_ms {
            errs.push(e as i128);
        }
        i = i + 1;
    }
    let len: usize = errs.len();
    let mut roll_t: Vec<i64> = Vec::new();
    let mut roll_v: Vec<i128> = Vec::new();
    let mut at: usize = 0;
    let mut b: usize = 0;
    while at < len && len - at >= 20
        invariant
            len == errs@.len() == times@.len(),
            len <= u32::MAX,
            at == 5 * b,
            at <= len,
            b <= rolls(len as int),
            limited(errs@, SPREAD_LIMIT),
            roll_t@.len() == b,
            roll_v@.len() == b,
            forall|c: int| 0 <= c < b ==> #[trigger] roll_t@[c] == times@[5 * c + 19],
            forall|c: int|
                0 <= c < b ==> #[trigger] roll_v@[c] == 10 * spread(
                    errs@.subrange(5 * c, 5 * c + 20),
                ),
        decreases len - at,
    {
        let part: &[i128] = vstd::slice::slice_subrange(errs.as_slice(), at, at + 20);
        assert(part@ =~= errs@.subrange(5 * b as int, 5 * b + 20));
        assert(limited(part@, SPREAD_LIMIT)) by {
            assert forall|i: int| 0 <= i < part@.len() implies magnitude(#[trigger] part@[i] as int)
                <= SPREAD_LIMIT by {
                assert(magnitude(errs@[at + i] as int) <= SPREAD_LIMIT);
            }
        }
        roll_t.push(times[at + 19]);
        roll_v.push(10 * std_dev(part));
        at = at + 5;
        b = b + 1;
    }
    assert(b == rolls(len as int));
    assert(roll_t@ =~= roll_times(times@));
    assert(roll_v@ =~= roll_rates(errs@));
    downsample(roll_t.as_slice(), roll_v.as_slice())
}

/// A section of the run.
#[derive(Debug, Clone, Copy)]
pub struct Section {
    pub start_ms: i64,
    pub end_ms: i64,
    pub acc_pct: i128,
    pub ur: i128,
    pub misses: u32,
    pub notes: u32,
    pub avg_speed: i128,
}

/// The length of a section: 30 s.
pub const SECTION_MS: i64 = 30_000_000_000;

/// The end of the section that starts at a time.
pub open spec fn section_end(start: int, last: int) -> int {
    if start + SECTION_MS < last {
        start + SECTION_MS
    } else {
        last
    }
}

/// The sections from a time on that hold a note, by start and end.
pub open spec fn section_spans(list: Seq<NoteAnalysis>, start: int, last: int) -> Seq<(int, int)>
    decreases last - start,
{
    if start >= last {
        Seq::empty()
    } else {
        let end = section_end(start, last);
        let rest = section_spans(list, end, last);
        if tally(in_span_fn(list, start, end), list.len()) > 0 {
            seq![(start, end)] + rest
        } else {
            rest
        }
    }
}

/// Whether this is a section from `lo` to `hi`.
pub open spec fn is_section(
    sec: Section,
    frames: Seq<Frame>,
    pace: int,
    list: Seq<NoteAnalysis>,
    lo: int,
    hi: int,
) -> bool {
    let s = span(frames, pace, list, lo, hi);
    &&& sec.start_ms == lo
    &&& sec.end_ms == hi
    &&& sec.acc_pct == s.acc
    &&& sec.ur == s.ur
    &&& sec.misses == s.notes - s.hits
    &&& sec.notes == s.notes
    &&& sec.avg_speed == s.speed
}

/// Whether these are the sections of a run.
pub open spec fn is_sections(
    sections: Seq<Section>,
    frames: Seq<Frame>,
    pace: int,
    list: Seq<NoteAnalysis>,
) -> bool {
    let spans = section_spans(list, first_ms(frames), last_ms(frames));
    &&& sections.len() == spans.len()
    &&& forall|i: int|
        0 <= i < sections.len() ==> is_section(
            #[trigger] sections[i],
            frames,
            pace,
            list,
            spans[i].0,
            spans[i].1,
        )
}

/// The sections of a run: 30 s each, without those that hold no note.
pub fn sections(frames: &[Frame], k: &Kinematics, pace: i64, list: &[NoteAnalysis]) -> (out: Vec<
    Section,
>)
    requires
        trackable(frames@),
        is_kinematics(*k, frames@, pace as int),
        0 < pace <= SPEED_LIMIT,
        list@.len() <= u32::MAX,
        all_bounded(list@),
    ensures
        is_sections(out@, frames@, pace as int, list@),
{
    let mut out: Vec<Section> = Vec::new();
    if frames.len() == 0 {
        return out;
    }
    let last: i64 = frames[frames.len() - 1].ms;
    let mut start: i64 = frames[0].ms;
    let ghost all = section_spans(list@, first_ms(frames@), last as int);
    let ghost mut done: Seq<(int, int)> = Seq::empty();
    assert(done + section_spans(list@, start as int, last as int) =~= all);
    assert(magnitude(frames@[0].ms as int) <= COORDINATE_LIMIT);
    assert(magnitude(frames@[frames@.len() - 1].ms as int) <= COORDINATE_LIMIT);
    while start < last
        invariant
            trackable(frames@),
            is_kinematics(*k, frames@, pace as int),
            0 < pace <= SPEED_LIMIT,
            list@.len() <= u32::MAX,
            all_bounded(list@),
            magnitude(start as int) <= COORDINATE_LIMIT,
            magnitude(last as int) <= COORDINATE_LIMIT,
            all == done + section_spans(list@, start as int, last as int),
            out@.len() == done.len(),
            forall|i: int|
                0 <= i < out@.len() ==> is_section(
                    #[trigger] out@[i],
                    frames@,
                    pace as int,
                    list@,
                    done[i].0,
                    done[i].1,
                ),
        decreases last - start,
    {
        let end: i64 = if start + SECTION_MS < last {
            start + SECTION_MS
        } else {
            last
        };
        let (notes, hits, ur) = study_errors(list, start as i128, end as i128);
        let ghost rest = section_spans(list@, end as int, last as int);
        if notes > 0 {
            out.push(
                Section {
                    start_ms: start,
                    end_ms: end,
                    acc_pct: percentage(hits as i128, notes as i128),
                    ur,
                    misses: notes - hits,
                    notes,
                    avg_speed: study_span_speed(frames, k, pace, start as i128, end as i128),
                },
            );
            proof {
                assert(done + (seq![(start as int, end as int)] + rest) =~= done.push(
                    (start as int, end as int),
                ) + rest);
                done = done.push((start as int, end as int));
            }
        }
        start = end;
    }
    assert(section_spans(list@, start as int, last as int) =~= Seq::empty());
    assert(all =~= done);
    out
}

/// The misses of a run.
#[derive(Debug, Clone, Copy)]
pub struct MissSummary {
    pub count: u32,
    /// Mean of how close the cursor came.
    pub avg_near_dist: i128,
    /// Share of the misses that the cursor came within 0.65 cells of.
    pub barely_pct: i128,
    /// Share of the misses that the cursor never came within 1.2 cells of.
    pub lost_pct: i128,
    pub on_fast_jumps: u32,
    pub on_streams: u32,
    pub other: u32,
}

/// How close the cursor came to the misses.
pub open spec fn near_misses(list: Seq<NoteAnalysis>, n: nat) -> Seq<i128> {
    present(
        |i: int|
            if list[i].hit {
                None
            } else {
                list[i].near_dist
            },
        n,
    )
}

/// The first note from one on that is not before a time.
pub open spec fn first_note(list: Seq<NoteAnalysis>, from: int, t: int) -> int
    decreases list.len() - from,
{
    if from < 0 || from >= list.len() || list[from].t >= t {
        from
    } else {
        first_note(list, from + 1, t)
    }
}

/// Whether a note comes after a fast jump: more than a cell in less than 350 ms.
pub open spec fn after_jump(list: Seq<NoteAnalysis>, i: int) -> bool {
    let at = first_note(list, 0, list[i].t as int);
    let p = list[at - 1];
    &&& at > 0
    &&& distance(
        world_x(p.gx as int),
        world_y(p.gy as int),
        world_x(list[i].gx as int),
        world_y(list[i].gy as int),
    ) > 1_000_000
    &&& list[i].t - p.t < 350_000_000
}

/// Whether a note stands in a stream: eight notes within a second around it.
pub open spec fn in_stream(list: Seq<NoteAnalysis>, i: int) -> bool {
    tally(|j: int| magnitude(list[j].t - list[i].t) <= 1_000_000_000, list.len()) >= 8
}

/// The missed notes.
pub open spec fn missed_fn(list: Seq<NoteAnalysis>) -> spec_fn(int) -> bool {
    |i: int| !list[i].hit
}

/// The misses after a fast jump.
pub open spec fn jump_misses_fn(list: Seq<NoteAnalysis>) -> spec_fn(int) -> bool {
    |i: int| !list[i].hit && after_jump(list, i)
}

/// The other misses in a stream.
pub open spec fn stream_misses_fn(list: Seq<NoteAnalysis>) -> spec_fn(int) -> bool {
    |i: int| !list[i].hit && !after_jump(list, i) && in_stream(list, i)
}

/// The misses that are neither.
pub open spec fn other_misses_fn(list: Seq<NoteAnalysis>) -> spec_fn(int) -> bool {
    |i: int| !list[i].hit && !after_jump(list, i) && !in_stream(list, i)
}

/// Whether these are the misses of a run.
pub open spec fn is_misses(m: MissSummary, list: Seq<NoteAnalysis>) -> bool {
    let n = list.len();
    let near = near_misses(list, n);
    let barely = tally(|i: int| near[i] < 650_000, near.len());
    let lost = tally(|i: int| near[i] >= 1_200_000, near.len());
    &&& m.count == tally(missed_fn(list), n)
    &&& m.avg_near_dist == average(near)
    &&& m.barely_pct == share(barely as int, near.len() as int)
    &&& m.lost_pct == share(lost as int, near.len() as int)
    &&& m.on_fast_jumps == tally(jump_misses_fn(list), n)
    &&& m.on_streams == tally(stream_misses_fn(list), n)
    &&& m.other == tally(other_misses_fn(list), n)
}

fn comes_after_jump(list: &[NoteAnalysis], i: usize) -> (r: bool)
    requires
        all_bounded(list@),
        i < list@.len(),
    ensures
        r == after_jump(list@, i as int),
{
    assert(is_bounded(list@[i as int]));
    let na: NoteAnalysis = list[i];
    let mut at: usize = 0;
    while at < list.len() && list[at].t < na.t
        invariant
            at <= list@.len(),
            first_note(list@, 0, na.t as int) == first_note(list@, at as int, na.t as int),
        decreases list@.len() - at,
    {
        at = at + 1;
    }
    if at == 0 {
        return false;
    }
    assert(is_bounded(list@[at - 1]));
    let p: NoteAnalysis = list[at - 1];
    leg_between(&p, &na) > 1_000_000 && na.t - p.t < 350_000_000
}

fn stands_in_stream(list: &[NoteAnalysis], i: usize) -> (r: bool)
    requires
        all_bounded(list@),
        i < list@.len(),
    ensures
        r == in_stream(list@, i as int),
{
    assert(is_bounded(list@[i as int]));
    let t: i64 = list[i].t;
    let ghost p = |j: int| magnitude(list@[j].t - list@[i as int].t) <= 1_000_000_000;
    let mut n: usize = 0;
    let mut j: usize = 0;
    while j < list.len()
        invariant
            j <= list@.len(),
            i < list@.len(),
            all_bounded(list@),
            t == list@[i as int].t,
            magnitude(t as int) <= CHART_LIMIT * ONE,
            p == (|j: int| magnitude(list@[j].t - list@[i as int].t) <= 1_000_000_000),
            n == tally(p, j as nat),
            n <= j,
        decreases list@.len() - j,
    {
        assert(is_bounded(list@[j as int]));
        let d: i64 = list[j].t - t;
        if -1_000_000_000 <= d && d <= 1_000_000_000 {
            n = n + 1;
        }
        j = j + 1;
    }
    n >= 8
}

/// The misses of a run: how close the cursor came, and what was hard about them.
pub fn miss_summary(list: &[NoteAnalysis]) -> (m: MissSummary)
    requires
        list@.len() <= u32::MAX,
        all_bounded(list@),
    ensures
        is_misses(m, list@),
{
    let mut near: Vec<i128> = Vec::new();
    let mut count: u32 = 0;
    let mut fast: u32 = 0;
    let mut stream: u32 = 0;
    let mut other: u32 = 0;
    let n: usize = list.len();
    let mut i: usize = 0;
    while i < n
        invariant
            i <= n == list@.len() <= u32::MAX,
            all_bounded(list@),
            near@ == near_misses(list@, i as nat),
            near@.len() <= i,
            limited(near@, VALUE_LIMIT),
            count == tally(missed_fn(list@), i as nat),
            fast == tally(jump_misses_fn(list@), i as nat),
            stream == tally(stream_misses_fn(list@), i as nat),
            other == tally(other_misses_fn(list@), i as nat),
            count <= i,
            fast + stream + other <= i,
        decreases n - i,
    {
        assert(is_bounded(list@[i as int]));
        if !list[i].hit {
            count = count + 1;
            if let Some(d) = list[i].near_dist {
                near.push(d as i128);
            }
            if comes_after_jump(list, i) {
                fast = fast + 1;
            } else if stands_in_stream(list, i) {
                stream = stream + 1;
            } else {
                other = other + 1;
            }
        }
        i = i + 1;
    }
    let ghost is_barely = |i: int| near@[i] < 650_000;
    let ghost is_lost = |i: int| near@[i] >= 1_200_000;
    let mut barely: i128 = 0;
    let mut lost: i128 = 0;
    let mut j: usize = 0;
    while j < near.len()
        invariant
            j <= near@.len() <= u32::MAX,
            is_barely == (|i: int| near@[i] < 650_000),
            is_lost == (|i: int| near@[i] >= 1_200_000),
            barely == tally(is_barely, j as nat),
            lost == tally(is_lost, j as nat),
            0 <= barely <= j,
            0 <= lost <= j,
        decreases near@.len() - j,
    {
        if near[j] < 650_000 {
            barely = barely + 1;
        }
        if near[j] >= 1_200_000 {
            lost = lost + 1;
        }
        j = j + 1;
    }
    MissSummary {
        count,
        avg_near_dist: mean(near.as_slice()),
        barely_pct: percentage(barely, near.len() as i128),
        lost_pct: percentage(lost, near.len() as i128),
        on_fast_jumps: fast,
        on_streams: stream,
        other,
    }
}

/// Every miss is counted once, by what was hard about it.
pub proof fn law_misses_add_up(list: Seq<NoteAnalysis>, n: nat)
    ensures
        tally(missed_fn(list), n) == tally(jump_misses_fn(list), n) + tally(
            stream_misses_fn(list),
            n,
        ) + tally(other_misses_fn(list), n),
    decreases n,
{
    if n > 0 {
        law_misses_add_up(list, (n - 1) as nat);
    }
}

/// Every hit is in the histogram: the buckets hold as many errors as there are hits. A bucket is
/// 5 ms wide and the first starts half a bucket before the window, so an error within the window
/// stands in the bucket whose span holds it, and those beyond it in the outermost.
pub proof fn law_histograms_hold_every_error(hist: Seq<u32>, e: Seq<i128>, window: int, i: int)
    requires
        is_error_hist(hist, e, window),
        window >= 0,
        0 <= i < e.len(),
    ensures
        total(|b: int| hist[b] as int, hist.len()) == e.len(),
        magnitude(e[i] as int) <= window ==> ({
            let from = -window - 2_500_000;
            let b = error_bucket(e[i] as int, window);
            &&& 0 <= b < hist.len()
            &&& from + 5_000_000 * b <= e[i] < from + 5_000_000 * (b + 1)
            &&& hist[b] > 0
        }),
        e[i] < -window - 2_500_000 ==> hist[0] > 0,
        e[i] > window + 10_000_000 ==> hist[hist.len() - 1] > 0,
{
    let bucket = |k: int| error_bucket(e[k] as int, window);
    let m = bins(window) as nat;
    assert(bins(window) >= 1);
    law_buckets_hold_everything(bucket, e.len(), m);
    let counts = |b: int| tally(|k: int| bucket(k) == b, e.len()) as int;
    assert forall|b: int| 0 <= b < m implies #[trigger] counts(b) == hist[b] by {
        lemma_tally_same(|k: int| bucket(k) == b, in_error_bucket_fn(e, window, b), e.len());
    }
    lemma_total_same(counts, |b: int| hist[b] as int, m);
    let b = bucket(i);
    law_counts_are_complete(in_error_bucket_fn(e, window, b), e.len());
    assert(in_error_bucket_fn(e, window, b)(i));
    assert(hist[b] > 0);
}

/// Whether a note lies in a span of the song.
pub open spec fn lies_in(na: NoteAnalysis, lo: int, hi: int) -> bool {
    lo <= na.t < hi
}

/// A span counts the notes in it, as hit or missed; cut in two, it loses none and counts none twice.
/// Its accuracy is the share of its hits, and steady hits have no spread.
pub proof fn law_spans_count_their_notes(
    frames: Seq<Frame>,
    pace: int,
    list: Seq<NoteAnalysis>,
    lo: int,
    mid: int,
    hi: int,
    e: i64,
)
    requires
        lo <= mid <= hi,
        all_bounded(list),
        pace > 0,
    ensures
        span(frames, pace, list, lo, hi).notes == tally(
            |i: int| lies_in(list[i], lo, hi),
            list.len(),
        ),
        span(frames, pace, list, lo, hi).hits == tally(
            |i: int| lies_in(list[i], lo, hi) && list[i].hit,
            list.len(),
        ),
        span(frames, pace, list, lo, hi).notes == span(frames, pace, list, lo, mid).notes + span(
            frames,
            pace,
            list,
            mid,
            hi,
        ).notes,
        span(frames, pace, list, lo, hi).hits == span(frames, pace, list, lo, mid).hits + span(
            frames,
            pace,
            list,
            mid,
            hi,
        ).hits,
        span(frames, pace, list, lo, hi).hits <= span(frames, pace, list, lo, hi).notes,
        ({
            let s = span(frames, pace, list, lo, hi);
            s.notes > 0 ==> 2 * magnitude(s.notes * s.acc - 100_000_000 * s.hits) <= s.notes
        }),
        (forall|i: int|
            0 <= i < list.len() && #[trigger] lies_in(list[i], lo, hi) && list[i].hit
                ==> list[i].err_ms == Some(e)) ==> span(frames, pace, list, lo, hi).ur == 0,
{
    let n = list.len();
    lemma_tally_same(in_span_fn(list, lo, hi), |i: int| lies_in(list[i], lo, hi), n);
    assert forall|i: int| 0 <= i < n implies #[trigger] hit_in_span_fn(list, lo, hi)(i) == (lies_in(
        list[i],
        lo,
        hi,
    ) && list[i].hit) by {
        assert(is_bounded(list[i]));
    }
    lemma_tally_same(
        hit_in_span_fn(list, lo, hi),
        |i: int| lies_in(list[i], lo, hi) && list[i].hit,
        n,
    );
    lemma_spans_join(list, lo, mid, hi, n);
    lemma_tally_implies(hit_in_span_fn(list, lo, hi), in_span_fn(list, lo, hi), n);
    let s = span(frames, pace, list, lo, hi);
    if s.notes > 0 {
        law_shares_are_parts_of_a_hundred(s.hits as int, s.notes as int);
    }
    if forall|i: int|
        0 <= i < list.len() && #[trigger] lies_in(list[i], lo, hi) && list[i].hit
            ==> list[i].err_ms == Some(e) {
        assert forall|i: int|
            0 <= i < list.len() && lo <= #[trigger] list[i].t < hi && list[i].hit implies list[i].err_ms
            == Some(e) by {
            assert(lies_in(list[i], lo, hi));
        }
        lemma_steady_errors(list, lo, hi, n, e);
        lemma_equal_numbers(errors_in(list, lo, hi, n), e as i128);
    }
}

proof fn lemma_spans_join(list: Seq<NoteAnalysis>, lo: int, mid: int, hi: int, n: nat)
    requires
        lo <= mid <= hi,
    ensures
        tally(in_span_fn(list, lo, hi), n) == tally(in_span_fn(list, lo, mid), n) + tally(
            in_span_fn(list, mid, hi),
            n,
        ),
        tally(hit_in_span_fn(list, lo, hi), n) == tally(hit_in_span_fn(list, lo, mid), n) + tally(
            hit_in_span_fn(list, mid, hi),
            n,
        ),
    decreases n,
{
    if n > 0 {
        lemma_spans_join(list, lo, mid, hi, (n - 1) as nat);
    }
}

proof fn lemma_steady_errors(list: Seq<NoteAnalysis>, lo: int, hi: int, n: nat, e: i64)
    requires
        n <= list.len(),
        all_bounded(list),
        forall|i: int|
            0 <= i < list.len() && lo <= #[trigger] list[i].t < hi && list[i].hit
                ==> list[i].err_ms == Some(e),
    ensures
        forall|k: int|
            0 <= k < errors_in(list, lo, hi, n).len() ==> #[trigger] errors_in(list, lo, hi, n)[k]
                == e,
    decreases n,
{
    if n > 0 {
        let m = (n - 1) as nat;
        lemma_steady_errors(list, lo, hi, m, e);
        assert(is_bounded(list[m as int]));
        let before = errors_in(list, lo, hi, m);
        assert forall|k: int| 0 <= k < errors_in(list, lo, hi, n).len() implies #[trigger] errors_in(
            list,
            lo,
            hi,
            n,
        )[k] == e by {
            if k < before.len() {
                assert(errors_in(list, lo, hi, n)[k] == before[k]);
            }
        }
    }
}

proof fn lemma_equal_numbers(v: Seq<i128>, e: i128)
    requires
        forall|i: int| 0 <= i < v.len() ==> #[trigger] v[i] == e,
    ensures
        spread(v) == 0,
        v.len() > 0 ==> average(v) == e,
{
    if v.len() >= 2 {
        let zero = Seq::new(v.len(), |i: int| 0i128);
        law_moving_keeps_the_spread(zero, v, e as int);
        lemma_zeros(zero, zero.len());
        lemma_root_of(0);
        let n = v.len() as int;
        assert(0int / (n * n) == 0) by (nonlinear_arith)
            requires
                n >= 2,
        ;
        assert(covariation(zero, zero) == 0) by {
            assert(n * 0 - 0 * 0 == 0) by (nonlinear_arith);
        }
    }
    if v.len() > 0 {
        law_means_lie_between(v, v, e as int, e as int);
    }
}

proof fn lemma_zeros(z: Seq<i128>, n: nat)
    requires
        n <= z.len(),
        forall|i: int| 0 <= i < z.len() ==> #[trigger] z[i] == 0,
    ensures
        total(terms(z), n) == 0,
        total(products(z, z), n) == 0,
    decreases n,
{
    if n > 0 {
        lemma_zeros(z, (n - 1) as nat);
        assert(z[n - 1] == 0);
    }
}

/// A run that is always equally late has that as its mean and its median error, no spread, and no
/// drift.
pub proof fn law_steady_play_is_steady(
    t: Timing,
    frames: Seq<Frame>,
    pace: int,
    list: Seq<NoteAnalysis>,
    window: int,
    e: i64,
)
    requires
        is_timing(t, frames, pace, list, window),
        all_bounded(list),
        forall|i: int| 0 <= i < list.len() && #[trigger] list[i].hit ==> list[i].err_ms == Some(e),
    ensures
        t.ur == 0,
        t.drift_ms_per_min == 0,
        (exists|i: int| 0 <= i < list.len() && #[trigger] list[i].hit) ==> t.mean_err_ms == e
            && t.median_err_ms == e,
        (forall|i: int| 0 <= i < list.len() ==> !#[trigger] list[i].hit) ==> t.mean_err_ms == 0
            && t.median_err_ms == 0,
{
    let v = errors(list, list.len());
    lemma_errors_of_hits(list, list.len(), e);
    lemma_equal_numbers(v, e as i128);
    if v.len() > 0 {
        law_percentiles_split_in_proportion(v, 1, 2, t.median_err_ms as int);
    }
    let c = hit_charts(list, list.len());
    lemma_charts_of_hits(list, list.len());
    if v.len() >= 8 && covariation(c, c) > 0 {
        law_drift_of_a_line(c, v, e as int, 0);
    }
}

proof fn lemma_errors_of_hits(list: Seq<NoteAnalysis>, n: nat, e: i64)
    requires
        n <= list.len(),
        all_bounded(list),
        forall|i: int| 0 <= i < list.len() && #[trigger] list[i].hit ==> list[i].err_ms == Some(e),
    ensures
        forall|k: int| 0 <= k < errors(list, n).len() ==> #[trigger] errors(list, n)[k] == e,
        errors(list, n).len() == 0 <==> (forall|i: int| 0 <= i < n ==> !#[trigger] list[i].hit),
    decreases n,
{
    if n > 0 {
        let m = (n - 1) as nat;
        lemma_errors_of_hits(list, m, e);
        assert(is_bounded(list[m as int]));
        let before = errors(list, m);
        assert(list[m as int].hit ==> errors(list, n).len() > 0);
        assert forall|k: int| 0 <= k < errors(list, n).len() implies #[trigger] errors(list, n)[k]
            == e by {
            if k < before.len() {
                assert(errors(list, n)[k] == before[k]);
            }
        }
    }
}

proof fn lemma_charts_of_hits(list: Seq<NoteAnalysis>, n: nat)
    requires
        n <= list.len(),
    ensures
        hit_charts(list, n).len() == errors(list, n).len(),
    decreases n,
{
    if n > 0 {
        lemma_charts_of_hits(list, (n - 1) as nat);
    }
}

/// The run is halved in the middle between its first and its last frame; together the halves hold
/// every note from the first frame to the last.
pub proof fn law_halves_make_the_run(
    t: Timing,
    frames: Seq<Frame>,
    pace: int,
    list: Seq<NoteAnalysis>,
    window: int,
)
    requires
        is_timing(t, frames, pace, list, window),
        all_bounded(list),
        pace > 0,
        frames.len() > 0,
        frames[0].ms <= frames[frames.len() - 1].ms,
    ensures
        ({
            let (from, to) = (frames[0].ms, frames[frames.len() - 1].ms);
            let mid = middle_ms(frames);
            let a = span(frames, pace, list, from as int, mid);
            let b = span(frames, pace, list, mid, to + 1_000_000);
            &&& 0 <= 2 * mid - from - to <= 1
            &&& t.first_half.acc_pct == a.acc && t.first_half.ur == a.ur
            &&& t.second_half.acc_pct == b.acc && t.second_half.ur == b.ur
            &&& a.notes + b.notes == tally(
                |i: int| lies_in(list[i], from as int, to + 1_000_000),
                list.len(),
            )
        }),
{
    law_spans_count_their_notes(
        frames,
        pace,
        list,
        first_ms(frames),
        middle_ms(frames),
        last_ms(frames) + ONE,
        0,
    );
}

/// Sections follow each other without overlap, each of them 30 s long or up to the end of the run
/// and with a note in it; together they count every note from the first frame to the last.
pub proof fn law_sections_cut_the_run(list: Seq<NoteAnalysis>, start: int, last: int)
    requires
        start <= last,
    ensures
        ({
            let s = section_spans(list, start, last);
            &&& forall|i: int|
                0 <= i < s.len() ==> {
                    &&& start <= (#[trigger] s[i]).0 < s[i].1 <= last
                    &&& s[i].1 == s[i].0 + 30_000_000_000 || s[i].1 == last
                    &&& s[i].1 - s[i].0 <= 30_000_000_000
                    &&& (s[i].0 - start) % 30_000_000_000 == 0
                    &&& tally(|k: int| lies_in(list[k], s[i].0, s[i].1), list.len()) > 0
                }
            &&& forall|i: int, j: int|
                0 <= i < j < s.len() ==> (#[trigger] s[i]).1 <= (#[trigger] s[j]).0
            &&& total(
                |i: int| tally(|k: int| lies_in(list[k], s[i].0, s[i].1), list.len()) as int,
                s.len(),
            ) == tally(|k: int| lies_in(list[k], start, last), list.len())
        }),
    decreases last - start,
{
    let n = list.len();
    let count = |a: int, b: int| tally(|k: int| lies_in(list[k], a, b), n) as int;
    let s = section_spans(list, start, last);
    let whole = |i: int| tally(|k: int| lies_in(list[k], s[i].0, s[i].1), n) as int;
    if start >= last {
        lemma_tally_of_none(list, start, last, n);
    } else {
        let end = section_end(start, last);
        let rest = section_spans(list, end, last);
        law_sections_cut_the_run(list, end, last);
        lemma_cut(list, start, end, last, n);
        lemma_tally_same(in_span_fn(list, start, end), |k: int| lies_in(list[k], start, end), n);
        let other = |i: int| tally(|k: int| lies_in(list[k], rest[i].0, rest[i].1), n) as int;
        if rest.len() > 0 {
            assert(end < last);
        }
        assert(end == start + 30_000_000_000 || end == last);
        if tally(in_span_fn(list, start, end), n) > 0 {
            assert(s == seq![(start, end)] + rest);
            assert forall|i: int| 0 <= i < rest.len() implies #[trigger] s[i + 1] == rest[i] by {}
            assert forall|i: int| 0 <= i < s.len() implies {
                &&& start <= (#[trigger] s[i]).0 < s[i].1 <= last
                &&& s[i].1 == s[i].0 + 30_000_000_000 || s[i].1 == last
                &&& s[i].1 - s[i].0 <= 30_000_000_000
                &&& (s[i].0 - start) % 30_000_000_000 == 0
                &&& tally(|k: int| lies_in(list[k], s[i].0, s[i].1), list.len()) > 0
            } by {
                if i > 0 {
                    assert(s[i] == rest[i - 1]);
                }
            }
            assert forall|i: int, j: int| 0 <= i < j < s.len() implies (#[trigger] s[i]).1
                <= (#[trigger] s[j]).0 by {
                assert(s[j] == rest[j - 1]);
                if i > 0 {
                    assert(s[i] == rest[i - 1]);
                }
            }
            lemma_total_shifted(whole, other, rest.len());
            assert(whole(0) == count(start, end));
        } else {
            assert(s == rest);
            assert(count(start, end) == 0);
        }
    }
}

proof fn lemma_total_shifted(f: spec_fn(int) -> int, g: spec_fn(int) -> int, n: nat)
    requires
        forall|i: int| 0 <= i < n ==> #[trigger] g(i) == f(i + 1),
    ensures
        total(f, n + 1) == f(0) + total(g, n),
    decreases n,
{
    reveal_with_fuel(total, 2);
    if n > 0 {
        lemma_total_shifted(f, g, (n - 1) as nat);
        assert(g(n - 1) == f(n as int));
    }
}

proof fn lemma_tally_of_none(list: Seq<NoteAnalysis>, lo: int, hi: int, n: nat)
    requires
        lo >= hi,
    ensures
        tally(|k: int| lies_in(list[k], lo, hi), n) == 0,
    decreases n,
{
    if n > 0 {
        lemma_tally_of_none(list, lo, hi, (n - 1) as nat);
    }
}

proof fn lemma_cut(list: Seq<NoteAnalysis>, lo: int, mid: int, hi: int, n: nat)
    requires
        lo <= mid <= hi,
    ensures
        tally(|k: int| lies_in(list[k], lo, hi), n) == tally(
            |k: int| lies_in(list[k], lo, mid),
            n,
        ) + tally(|k: int| lies_in(list[k], mid, hi), n),
    decreases n,
{
    if n > 0 {
        lemma_cut(list, lo, mid, hi, (n - 1) as nat);
    }
}

/// In a section the notes are those that were hit and those that were missed.
pub proof fn law_sections_count_hits_and_misses(
    sec: Section,
    frames: Seq<Frame>,
    pace: int,
    list: Seq<NoteAnalysis>,
    lo: int,
    hi: int,
)
    requires
        is_section(sec, frames, pace, list, lo, hi),
        all_bounded(list),
        pace > 0,
        lo <= hi,
    ensures
        sec.notes == tally(|i: int| lo <= list[i].t < hi, list.len()),
        sec.misses == tally(|i: int| lo <= list[i].t < hi && !list[i].hit, list.len()),
        sec.notes > 0 ==> 2 * magnitude(
            sec.notes * sec.acc_pct - 100_000_000 * (sec.notes - sec.misses),
        ) <= sec.notes,
{
    law_spans_count_their_notes(frames, pace, list, lo, lo, hi, 0);
    lemma_tally_same(
        |i: int| lies_in(list[i], lo, hi),
        |i: int| lo <= list[i].t < hi,
        list.len(),
    );
    lemma_missed_in(list, lo, hi, list.len());
}

proof fn lemma_missed_in(list: Seq<NoteAnalysis>, lo: int, hi: int, n: nat)
    ensures
        tally(|i: int| lies_in(list[i], lo, hi), n) == tally(
            |i: int| lies_in(list[i], lo, hi) && list[i].hit,
            n,
        ) + tally(|i: int| lo <= list[i].t < hi && !list[i].hit, n),
    decreases n,
{
    if n > 0 {
        lemma_missed_in(list, lo, hi, (n - 1) as nat);
    }
}

/// A missed note comes after a fast jump where the note before it is more than a cell away and less
/// than 350 ms before; it is in a stream where 8 notes or more, itself among them, lie within a
/// second of it.
pub proof fn law_misses_are_told_apart(list: Seq<NoteAnalysis>, i: int)
    requires
        0 <= i < list.len(),
        forall|j: int, k: int|
            0 <= j < k < list.len() ==> (#[trigger] list[j]).t < (#[trigger] list[k]).t,
    ensures
        after_jump(list, i) <==> i > 0 && leg(list, i - 1) > 1_000_000 && list[i].t - list[i - 1].t
            < 350_000_000,
        in_stream(list, i) <==> tally(
            |j: int|
                -1_000_000_000 <= list[j].t - list[i].t && list[j].t - list[i].t <= 1_000_000_000,
            list.len(),
        ) >= 8,
{
    lemma_first_note(list, 0, i);
    lemma_tally_same(
        |j: int| magnitude(list[j].t - list[i].t) <= 1_000_000_000,
        |j: int|
            -1_000_000_000 <= list[j].t - list[i].t && list[j].t - list[i].t <= 1_000_000_000,
        list.len(),
    );
}

proof fn lemma_first_note(list: Seq<NoteAnalysis>, from: int, i: int)
    requires
        0 <= from <= i < list.len(),
        forall|j: int, k: int|
            0 <= j < k < list.len() ==> (#[trigger] list[j]).t < (#[trigger] list[k]).t,
    ensures
        first_note(list, from, list[i].t as int) == i,
    decreases i - from,
{
    if from < i {
        lemma_first_note(list, from + 1, i);
    }
}

/// Of the misses that the cursor came near, those within 0.65 cells are barely missed and those
/// beyond 1.2 cells lost: none is both, and where all are one the share is 100 percent.
pub proof fn law_near_and_far_misses(m: MissSummary, list: Seq<NoteAnalysis>)
    requires
        is_misses(m, list),
    ensures
        ({
            let near = near_misses(list, list.len());
            &&& m.barely_pct + m.lost_pct <= 100_000_001
            &&& near.len() > 0 && (forall|i: int| 0 <= i < near.len() ==> #[trigger] near[i] < 650_000)
                ==> m.barely_pct == 100_000_000 && m.lost_pct == 0
            &&& near.len() > 0 && (forall|i: int|
                0 <= i < near.len() ==> #[trigger] near[i] >= 1_200_000) ==> m.barely_pct == 0
                && m.lost_pct == 100_000_000
            &&& (forall|i: int|
                0 <= i < near.len() ==> 650_000 <= #[trigger] near[i] < 1_200_000)
                ==> m.barely_pct == 0 && m.lost_pct == 0
        }),
{
    let near = near_misses(list, list.len());
    let n = near.len();
    let close = |i: int| near[i] < 650_000;
    let far = |i: int| near[i] >= 1_200_000;
    let (a, b) = (tally(close, n), tally(far, n));
    law_counts_are_complete(close, n);
    law_counts_are_complete(far, n);
    lemma_tally_implies(far, |i: int| !close(i), n);
    if n > 0 {
        law_shares_are_parts_of_a_hundred(a as int, n as int);
        law_shares_are_parts_of_a_hundred(b as int, n as int);
        let (p, q) = (share(a as int, n as int), share(b as int, n as int));
        assert(p + q <= 100_000_001) by (nonlinear_arith)
            requires
                2 * magnitude(n * p - 100_000_000 * a) <= n,
                2 * magnitude(n * q - 100_000_000 * b) <= n,
                a + b <= n,
                n > 0,
        ;
    }
    if forall|i: int| 0 <= i < near.len() ==> #[trigger] near[i] < 650_000 {
        assert forall|i: int| 0 <= i < n implies #[trigger] close(i) && !far(i) by {
            assert(near[i] < 650_000);
        }
        assert forall|i: int| 0 <= i < n implies !#[trigger] far(i) by {
            assert(close(i));
        }
    }
    if forall|i: int| 0 <= i < near.len() ==> #[trigger] near[i] >= 1_200_000 {
        assert forall|i: int| 0 <= i < n implies #[trigger] far(i) && !close(i) by {
            assert(near[i] >= 1_200_000);
        }
        assert forall|i: int| 0 <= i < n implies !#[trigger] close(i) by {
            assert(far(i));
        }
    }
    if forall|i: int| 0 <= i < near.len() ==> 650_000 <= #[trigger] near[i] < 1_200_000 {
        assert forall|i: int| 0 <= i < n implies !#[trigger] close(i) by {
            assert(near[i] >= 650_000);
        }
        assert forall|i: int| 0 <= i < n implies !#[trigger] far(i) by {
            assert(near[i] < 1_200_000);
        }
    }
}

/// The rolling spread takes 20 hits at a time and moves on by 5, for as long as 20 are left.
pub proof fn law_rolls_take_twenty_hits(n: int)
    requires
        n >= 0,
    ensures
        rolls(n) == 0 <==> n < 20,
        rolls(n) > 0 ==> 5 * (rolls(n) - 1) + 20 <= n < 5 * rolls(n) + 20,
{
}

/// A point of the rolling spread is that of twenty hits in a row, shown at the time of the last of
/// them.
pub proof fn law_rolls_end_with_their_last_hit(times: Seq<i64>, e: Seq<i128>, b: int)
    requires
        times.len() == e.len(),
        0 <= b < rolls(e.len() as int),
    ensures
        roll_times(times).len() == roll_rates(e).len(),
        5 * b + 20 <= times.len(),
        roll_times(times)[b] == times.subrange(5 * b, 5 * b + 20).last(),
        roll_rates(e)[b] == (10 * spread(e.subrange(5 * b, 5 * b + 20))) as i128,
        e.subrange(5 * b, 5 * b + 20).len() == 20,
{
    law_rolls_take_twenty_hits(e.len() as int);
}

} // verus!
