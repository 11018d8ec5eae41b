//! The ways of handing frames to an encoder, and which of them is the fastest.

use vstd::prelude::*;

use crate::encoder::put;
use crate::fixed::{
    div_nearest, law_rounding_is_closest, law_rounding_is_monotone, law_rounding_keeps_whole_numbers,
    magnitude, nearest,
};
use crate::mods::texts;
use crate::text::{decimal, lemma_decimal_is_unique, push_decimal, push_rounded, rounded};

verus! {

/// One way of getting frames across.
#[derive(Debug, Clone, Copy, PartialEq, Eq, Structural)]
pub enum Transport {
    /// The encoder's standard input, written in pieces of 16 KiB.
    Pipe,
    /// A loopback socket, written in pieces of this many bytes; 0 is the whole frame at once.
    Socket(usize),
}

/// A pipe takes a frame in pieces of this many bytes.
pub const PIPE_PIECE: usize = 16_384;

/// The name of a transport.
pub open spec fn label_of(t: Transport) -> Seq<char> {
    match t {
        Transport::Pipe => "pipe"@,
        Transport::Socket(n) => if n == 0 {
            "socket, whole frame"@
        } else if n % 1_048_576 == 0 {
            "socket, "@ + decimal((n / 1_048_576) as nat) + " MiB"@
        } else if n % 1024 == 0 {
            "socket, "@ + decimal((n / 1024) as nat) + " KiB"@
        } else {
            "socket, "@ + decimal(n as nat) + " B"@
        },
    }
}

fn socket_label(n: usize, unit: &str) -> (s: String)
    ensures
        s@ == "socket, "@ + decimal(n as nat) + unit@,
{
    let mut s: String = "socket, ".to_owned();
    push_decimal(&mut s, n as u128);
    s.append(unit);
    s
}

impl Transport {
    /// The name of the transport.
    pub fn label(&self) -> (s: String)
        ensures
            s@ == label_of(*self),
    {
        match *self {
            Transport::Pipe => "pipe".to_owned(),
            Transport::Socket(n) => if n == 0 {
                "socket, whole frame".to_owned()
            } else if n % 1_048_576 == 0 {
                socket_label(n / 1_048_576, " MiB")
            } else if n % 1024 == 0 {
                socket_label(n / 1024, " KiB")
            } else {
                socket_label(n, " B")
            },
        }
    }

    /// How many bytes of a frame are written at once; 0 is the whole frame.
    pub fn piece(&self) -> (n: usize)
        ensures
            n == (match *self {
                Transport::Pipe => PIPE_PIECE,
                Transport::Socket(n) => n,
            }),
    {
        match *self {
            Transport::Pipe => PIPE_PIECE,
            Transport::Socket(n) => n,
        }
    }
}

proof fn lemma_units(n: nat)
    ensures
        ({
            let mib = "socket, "@ + decimal(n) + " MiB"@;
            let kib = "socket, "@ + decimal(n) + " KiB"@;
            let b = "socket, "@ + decimal(n) + " B"@;
            &&& mib.len() == 12 + decimal(n).len() && mib[mib.len() - 1] == 'B' && mib[mib.len()
                - 2] == 'i' && mib[mib.len() - 3] == 'M'
            &&& kib.len() == 12 + decimal(n).len() && kib[kib.len() - 1] == 'B' && kib[kib.len()
                - 2] == 'i' && kib[kib.len() - 3] == 'K'
            &&& b.len() == 10 + decimal(n).len() && b[b.len() - 1] == 'B' && b[b.len() - 2] == ' '
        }),
{
    reveal_strlit("socket, ");
    reveal_strlit(" MiB");
    reveal_strlit(" KiB");
    reveal_strlit(" B");
}

proof fn lemma_amount(n: nat, m: nat, unit: Seq<char>)
    requires
        "socket, "@ + decimal(n) + unit == "socket, "@ + decimal(m) + unit,
    ensures
        n == m,
{
    let a = "socket, "@ + decimal(n) + unit;
    let b = "socket, "@ + decimal(m) + unit;
    let k = "socket, "@.len() as int;
    assert(a.len() == b.len());
    assert(decimal(n) =~= a.subrange(k, k + decimal(n).len()));
    assert(decimal(m) =~= b.subrange(k, k + decimal(m).len()));
    lemma_decimal_is_unique(n, m);
}

/// No two transports share a name.
pub proof fn law_names_are_unique(a: Transport, b: Transport)
    requires
        label_of(a) == label_of(b),
    ensures
        a == b,
{
    reveal_strlit("pipe");
    reveal_strlit("socket, whole frame");
    let x = label_of(a);
    let y = label_of(b);
    if let Transport::Socket(n) = a {
        lemma_units((n / 1_048_576) as nat);
        lemma_units((n / 1024) as nat);
        lemma_units(n as nat);
        assert(n == 0 <==> x.last() == 'e');
    } else {
        assert(x.len() == 4);
    }
    if let Transport::Socket(m) = b {
        lemma_units((m / 1_048_576) as nat);
        lemma_units((m / 1024) as nat);
        lemma_units(m as nat);
        assert(m == 0 <==> y.last() == 'e');
    } else {
        assert(y.len() == 4);
    }
    if let Transport::Socket(n) = a {
        if let Transport::Socket(m) = b {
            if n != 0 && m != 0 {
                if n % 1_048_576 == 0 {
                    assert(x[x.len() - 3] == 'M');
                    assert(m % 1_048_576 == 0);
                    lemma_amount((n / 1_048_576) as nat, (m / 1_048_576) as nat, " MiB"@);
                } else if n % 1024 == 0 {
                    assert(x[x.len() - 3] == 'K' && x[x.len() - 2] == 'i');
                    assert(m % 1_048_576 != 0 && m % 1024 == 0);
                    lemma_amount((n / 1024) as nat, (m / 1024) as nat, " KiB"@);
                } else {
                    assert(x[x.len() - 2] == ' ');
                    assert(m % 1_048_576 != 0 && m % 1024 != 0);
                    lemma_amount(n as nat, m as nat, " B"@);
                }
            }
        }
    }
}

/// The candidates, in the order in which they are tried. Small pieces over a socket are left out:
/// they lose to the pipe.
pub open spec fn candidate_list() -> Seq<Transport> {
    seq![
        Transport::Pipe,
        Transport::Socket(65_536),
        Transport::Socket(262_144),
        Transport::Socket(1_048_576),
        Transport::Socket(0),
    ]
}

/// The candidates, in the order in which they are tried.
pub fn candidates() -> (list: Vec<Transport>)
    ensures
        list@ == candidate_list(),
{
    let list: Vec<Transport> = vec![
        Transport::Pipe,
        Transport::Socket(65_536),
        Transport::Socket(262_144),
        Transport::Socket(1_048_576),
        Transport::Socket(0),
    ];
    assert(list@ =~= candidate_list());
    list
}

/// The end of a piece that starts at `start`.
pub open spec fn piece_end(len: int, piece: int, start: int) -> int {
    if start + piece < len {
        start + piece
    } else {
        len
    }
}

/// The pieces of a frame from `start` on, as start and end.
pub open spec fn pieces_from(len: int, piece: int, start: int) -> Seq<(usize, usize)>
    decreases len - start,
{
    if start >= len || piece <= 0 {
        Seq::empty()
    } else {
        seq![(start as usize, piece_end(len, piece, start) as usize)] + pieces_from(
            len,
            piece,
            piece_end(len, piece, start),
        )
    }
}

/// The pieces in which a frame of `len` bytes is written; the whole frame at once for 0.
pub open spec fn pieces_of(len: int, piece: int) -> Seq<(usize, usize)> {
    if piece == 0 {
        seq![(0usize, len as usize)]
    } else {
        pieces_from(len, piece, 0)
    }
}

/// The pieces in which a frame is written, as start and end.
pub fn pieces(len: usize, piece: usize) -> (list: Vec<(usize, usize)>)
    ensures
        list@ == pieces_of(len as int, piece as int),
{
    let mut list: Vec<(usize, usize)> = Vec::new();
    if piece == 0 {
        list.push((0, len));
        return list;
    }
    let mut start: usize = 0;
    assert(list@ + pieces_from(len as int, piece as int, 0) =~= pieces_from(
        len as int,
        piece as int,
        0,
    ));
    while start < len
        invariant
            piece > 0,
            start <= len,
            list@ + pieces_from(len as int, piece as int, start as int) == pieces_from(
                len as int,
                piece as int,
                0,
            ),
        decreases len - start,
    {
        let end: usize = if len - start > piece {
            start + piece
        } else {
            len
        };
        let ghost before = list@;
        list.push((start, end));
        proof {
            let rest = pieces_from(len as int, piece as int, end as int);
            assert(before + (seq![(start, end)] + rest) =~= list@ + rest);
        }
        start = end;
    }
    assert(list@ =~= pieces_from(len as int, piece as int, 0));
    list
}

/// What one candidate managed.
#[derive(Debug, Clone, Copy, PartialEq, Eq)]
pub struct Measured {
    pub transport: Transport,
    /// Frames per second in millionths, or none where it failed.
    pub fps: Option<u64>,
}

/// All candidates, measured at one frame size.
#[derive(Debug, Clone)]
pub struct Benchmark {
    pub width: u32,
    pub height: u32,
    pub results: Vec<Measured>,
    /// The fastest, or none where nothing worked.
    pub best: Option<Transport>,
}

/// The fastest of some candidates, and its rate; the later of two that are equally fast.
pub open spec fn fastest(results: Seq<Measured>) -> Option<(Transport, u64)>
    decreases results.len(),
{
    if results.len() == 0 {
        None
    } else {
        let before = fastest(results.drop_last());
        match results.last().fps {
            Some(f) => match before {
                Some((_, b)) => if b > f {
                    before
                } else {
                    Some((results.last().transport, f))
                },
                None => Some((results.last().transport, f)),
            },
            None => before,
        }
    }
}

/// A frame size that the encoder takes: even, and at least two.
pub open spec fn even(n: u32) -> int {
    if n < 2 {
        2
    } else {
        n - n % 2
    }
}

/// A frame size that the encoder takes.
pub fn even_size(n: u32) -> (e: u32)
    ensures
        e == even(n),
{
    if n < 2 {
        2
    } else {
        n - n % 2
    }
}

/// The outcome of a measurement of all candidates.
pub fn benchmark(width: u32, height: u32, results: Vec<Measured>) -> (b: Benchmark)
    ensures
        b.width == even(width),
        b.height == even(height),
        b.results@ == results@,
        b.best == (match fastest(results@) {
            Some((t, _)) => Some(t),
            None => None,
        }),
{
    let mut best: Option<(Transport, u64)> = None;
    let mut i: usize = 0;
    assert(results@.take(0) =~= Seq::empty());
    while i < results.len()
        invariant
            i <= results@.len(),
            best == fastest(results@.take(i as int)),
        decreases results@.len() - i,
    {
        assert(results@.take(i + 1).drop_last() =~= results@.take(i as int));
        if let Some(f) = results[i].fps {
            let slower: bool = match best {
                Some((_, b)) => b > f,
                None => false,
            };
            if !slower {
                best = Some((results[i].transport, f));
            }
        }
        i = i + 1;
    }
    assert(results@.take(i as int) =~= results@);
    Benchmark {
        width: even_size(width),
        height: even_size(height),
        results,
        best: match best {
            Some((t, _)) => Some(t),
            None => None,
        },
    }
}

/// The rate that the first measurement of a transport gave.
pub open spec fn rate_of(results: Seq<Measured>, t: Transport, from: int) -> Option<u64>
    decreases results.len() - from,
{
    if from < 0 || from >= results.len() {
        None
    } else if results[from].transport == t {
        results[from].fps
    } else {
        rate_of(results, t, from + 1)
    }
}

fn find_rate(results: &[Measured], t: Transport) -> (f: Option<u64>)
    ensures
        f == rate_of(results@, t, 0),
{
    let mut i: usize = 0;
    while i < results.len()
        invariant
            i <= results@.len(),
            rate_of(results@, t, 0) == rate_of(results@, t, i as int),
        decreases results@.len() - i,
    {
        if results[i].transport == t {
            return results[i].fps;
        }
        i = i + 1;
    }
    None
}

/// A share with its sign always written.
pub open spec fn signed_share(part: int, whole: int) -> Seq<char> {
    if part >= 0 {
        "+"@ + rounded(100 * part, whole, 0)
    } else {
        rounded(100 * part, whole, 0)
    }
}

/// The words on a benchmark: the fastest, and what it beat.
pub open spec fn summary_of(b: Benchmark) -> Seq<char> {
    match b.best {
        None => "no transport could be measured; leaving the setting alone"@,
        Some(best) => {
            let fps = match rate_of(b.results@, best, 0) {
                Some(f) => f as int,
                None => 0,
            };
            let head = decimal(b.width as nat) + "x"@ + decimal(b.height as nat) + ": "@
                + label_of(best);
            let plain = head + " at "@ + rounded(fps, 1_000_000, 0) + " frames/s"@;
            match rate_of(b.results@, Transport::Pipe, 0) {
                Some(p) => if p > 0 && best != Transport::Pipe {
                    head + " wins at "@ + rounded(fps, 1_000_000, 0) + " frames/s, against "@
                        + rounded(p as int, 1_000_000, 0) + " on the pipe ("@ + signed_share(
                        fps - p,
                        p as int,
                    ) + "%)"@
                } else {
                    plain
                },
                None => plain,
            }
        },
    }
}

impl Benchmark {
    /// One line: the fastest, and what it beat.
    pub fn summary(&self) -> (s: String)
        ensures
            s@ == summary_of(*self),
    {
        let best: Transport = match self.best {
            Some(t) => t,
            None => {
                return "no transport could be measured; leaving the setting alone".to_owned();
            },
        };
        let fps: u64 = match find_rate(self.results.as_slice(), best) {
            Some(f) => f,
            None => 0,
        };
        let mut s: String = String::new();
        push_decimal(&mut s, self.width as u128);
        s.append("x");
        push_decimal(&mut s, self.height as u128);
        s.append(": ");
        s.append(best.label().as_str());
        let ghost head = decimal(self.width as nat) + "x"@ + decimal(self.height as nat) + ": "@
            + label_of(best);
        assert(s@ =~= head);
        let pipe: u64 = match find_rate(self.results.as_slice(), Transport::Pipe) {
            Some(p) => if best != Transport::Pipe {
                p
            } else {
                0
            },
            None => 0,
        };
        if pipe > 0 {
            s.append(" wins at ");
            push_rounded(&mut s, fps as i128, 1_000_000, 0);
            s.append(" frames/s, against ");
            push_rounded(&mut s, pipe as i128, 1_000_000, 0);
            s.append(" on the pipe (");
            let gain: i128 = fps as i128 - pipe as i128;
            let ghost before = s@;
            if gain >= 0 {
                s.append("+");
            }
            push_rounded(&mut s, 100 * gain, pipe as u128, 0);
            assert(s@ =~= before + signed_share(gain as int, pipe as int));
            s.append("%)");
        } else {
            s.append(" at ");
            push_rounded(&mut s, fps as i128, 1_000_000, 0);
            s.append(" frames/s");
        }
        assert(s@ =~= summary_of(*self));
        s
    }
}

/// The clock starts after this many frames, so that the encoder is reading on every candidate.
pub const WARMUP_FRAMES: usize = 8;

/// A candidate is measured for this long, in nanoseconds: 700 ms.
pub const PER_CANDIDATE_NS: u64 = 700_000_000;

/// A candidate is measured over no more frames than this.
pub const MAX_FRAMES: u64 = 20_000;

/// Whether another frame is measured.
pub fn keep_measuring(frames: u64, elapsed_ns: u64) -> (r: bool)
    ensures
        r == (frames < MAX_FRAMES && elapsed_ns < PER_CANDIDATE_NS),
{
    frames < MAX_FRAMES && elapsed_ns < PER_CANDIDATE_NS
}

/// Frames per second, in millionths; none without frames or without time.
pub open spec fn rate_over(frames: int, elapsed_ns: int) -> Option<u64> {
    if frames == 0 || elapsed_ns == 0 {
        None
    } else {
        Some(
            if nearest(frames * 1_000_000_000_000_000, elapsed_ns) > u64::MAX {
                u64::MAX
            } else {
                nearest(frames * 1_000_000_000_000_000, elapsed_ns) as u64
            },
        )
    }
}

/// Frames per second in millionths; none where nothing was measured.
pub fn rate(frames: u64, elapsed_ns: u64) -> (fps: Option<u64>)
    requires
        frames <= MAX_FRAMES,
    ensures
        fps == rate_over(frames as int, elapsed_ns as int),
{
    if frames == 0 || elapsed_ns == 0 {
        return None;
    }
    let n: i128 = frames as i128 * 1_000_000_000_000_000;
    proof {
        crate::fixed::lemma_nearest_bound(n as int, elapsed_ns as int);
    }
    let q: i128 = div_nearest(n, elapsed_ns as i128);
    if q > 0xffff_ffff_ffff_ffff {
        Some(u64::MAX)
    } else {
        Some(q as u64)
    }
}

/// Where the encoder reads frames from.
pub open spec fn source_of(port: Option<u16>) -> Seq<char> {
    match port {
        Some(p) => "tcp://127.0.0.1:"@ + decimal(p as nat),
        None => "pipe:0"@,
    }
}

/// Where the encoder reads frames from: a port on this machine, or its standard input.
pub fn frame_source(port: Option<u16>) -> (s: String)
    ensures
        s@ == source_of(port),
{
    match port {
        Some(p) => {
            let mut s: String = "tcp://127.0.0.1:".to_owned();
            push_decimal(&mut s, p as u128);
            s
        },
        None => "pipe:0".to_owned(),
    }
}

/// A frame size in words.
pub open spec fn size_of(w: u32, h: u32) -> Seq<char> {
    decimal(w as nat) + "x"@ + decimal(h as nat)
}

/// A frame size in words.
pub fn size_text(w: u32, h: u32) -> (s: String)
    ensures
        s@ == size_of(w, h),
{
    let mut s: String = String::new();
    push_decimal(&mut s, w as u128);
    s.append("x");
    push_decimal(&mut s, h as u128);
    assert(s@ =~= size_of(w, h));
    s
}

/// The arguments of a measurement: frames are read and thrown away, nothing is encoded.
pub fn measure_args(w: u32, h: u32, port: Option<u16>) -> (args: Vec<String>)
    ensures
        texts(args@) == seq![
            "-hide_banner"@,
            "-loglevel"@,
            "error"@,
            "-f"@,
            "rawvideo"@,
            "-pix_fmt"@,
            "nv12"@,
            "-s"@,
            size_of(w, h),
            "-r"@,
            "60"@,
            "-i"@,
            source_of(port),
            "-c:v"@,
            "copy"@,
            "-f"@,
            "null"@,
            "-"@,
        ],
{
    let mut args: Vec<String> = Vec::new();
    put(&mut args, "-hide_banner");
    put(&mut args, "-loglevel");
    put(&mut args, "error");
    put(&mut args, "-f");
    put(&mut args, "rawvideo");
    put(&mut args, "-pix_fmt");
    put(&mut args, "nv12");
    put(&mut args, "-s");
    put(&mut args, size_text(w, h).as_str());
    put(&mut args, "-r");
    put(&mut args, "60");
    put(&mut args, "-i");
    put(&mut args, frame_source(port).as_str());
    put(&mut args, "-c:v");
    put(&mut args, "copy");
    put(&mut args, "-f");
    put(&mut args, "null");
    put(&mut args, "-");
    assert(texts(args@) =~= seq![
        "-hide_banner"@,
        "-loglevel"@,
        "error"@,
        "-f"@,
        "rawvideo"@,
        "-pix_fmt"@,
        "nv12"@,
        "-s"@,
        size_of(w, h),
        "-r"@,
        "60"@,
        "-i"@,
        source_of(port),
        "-c:v"@,
        "copy"@,
        "-f"@,
        "null"@,
        "-"@,
    ]);
    args
}

/// No candidate writes a socket in pieces below 64 KiB.
pub proof fn law_no_small_pieces(i: int)
    requires
        0 <= i < candidate_list().len(),
    ensures
        candidate_list()[i] matches Transport::Socket(n) ==> n == 0 || n >= 65_536,
{
}

/// The pieces of a frame follow one another from its start to its end, and none is empty or
/// longer than asked.
pub proof fn law_pieces_make_the_frame(len: int, piece: int, start: int)
    requires
        0 <= start < len <= usize::MAX,
        piece > 0,
    ensures
        ({
            let list = pieces_from(len, piece, start);
            &&& list.len() > 0
            &&& list[0].0 == start
            &&& list.last().1 == len
            &&& forall|i: int|
                0 <= i < list.len() ==> (#[trigger] list[i]).0 < list[i].1 <= list[i].0 + piece
            &&& forall|i: int, j: int|
                0 <= i && j == i + 1 && j < list.len() ==> (#[trigger] list[i]).1 == (
                #[trigger] list[j]).0
        }),
    decreases len - start,
{
    let end = piece_end(len, piece, start);
    let list = pieces_from(len, piece, start);
    let rest = pieces_from(len, piece, end);
    if end < len {
        law_pieces_make_the_frame(len, piece, end);
        assert(list.last() == rest.last());
        assert forall|i: int| 0 <= i < list.len() implies (#[trigger] list[i]).0 < list[i].1
            <= list[i].0 + piece by {
            if i > 0 {
                assert(list[i] == rest[i - 1]);
            }
        }
        assert forall|i: int, j: int| 0 <= i && j == i + 1 && j < list.len() implies (
        #[trigger] list[i]).1 == (#[trigger] list[j]).0 by {
            assert(list[j] == rest[j - 1]);
            if i > 0 {
                assert(list[i] == rest[i - 1]);
            }
        }
    } else {
        assert(rest.len() == 0);
    }
}

/// The fastest candidate is at least as fast as every other one.
pub proof fn law_nothing_beats_the_fastest(results: Seq<Measured>, i: int)
    requires
        0 <= i < results.len(),
        results[i].fps is Some,
    ensures
        fastest(results) matches Some((_, f)) && f >= results[i].fps->0,
    decreases results.len(),
{
    if i < results.len() - 1 {
        law_nothing_beats_the_fastest(results.drop_last(), i);
    }
}

/// An even size is the largest even one that fits, and no smaller than 2.
pub proof fn law_sizes_become_even(n: u32)
    ensures
        even(n) % 2 == 0,
        even(n) >= 2,
        n >= 2 ==> n - 1 <= even(n) <= n,
        n >= 2 && n % 2 == 0 ==> even(n) == n,
{
}

/// A rate is the frames over the seconds that they took: so many frames in one second are that rate,
/// and more frames in the same time are never slower.
pub proof fn law_rates_are_frames_per_second(frames: int, more: int, ns: int)
    requires
        0 < frames <= more <= 20_000,
        0 < ns <= u64::MAX,
    ensures
        rate_over(frames, 1_000_000_000) == Some((frames * 1_000_000) as u64),
        rate_over(frames, ns) is Some,
        rate_over(frames, ns)->0 <= rate_over(more, ns)->0,
        rate_over(frames, ns)->0 < u64::MAX ==> 2 * magnitude(
            ns * rate_over(frames, ns)->0 - frames * 1_000_000_000_000_000,
        ) <= ns,
        rate_over(0, ns) is None,
        rate_over(frames, 0) is None,
{
    let (a, b) = (frames * 1_000_000_000_000_000, more * 1_000_000_000_000_000);
    law_rounding_is_closest(a, ns);
    law_rounding_is_monotone(a, b, ns);
    law_rounding_is_monotone(0, a, ns);
    law_rounding_keeps_whole_numbers(0, 0, ns);
    law_rounding_keeps_whole_numbers(frames * 1_000_000, 0, 1_000_000_000);
}

} // verus!
