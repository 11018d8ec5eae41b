//! Hit and miss sounds: reading clips, laying sounds out over a render, and writing the
//! mixed track as a WAV file.

use vstd::prelude::*;

use crate::count::tally;
use crate::hitreg::NoteResult;

verus! {

/// A miss is audible only where it breaks a combo of at least this many hits.
pub const MISS_SOUND_COMBO_THRESHOLD: u32 = 5;

/// Samples per second.
pub const RATE: u32 = 44_100;

/// Channels of the mixed track.
pub const CHANNELS: usize = 2;

/// Decoded PCM: interleaved stereo at 44.1 kHz, in steps of 1/32768.
#[derive(Debug, Clone)]
pub struct Clip {
    pub samples: Vec<i16>,
}

/// The little-endian 16-bit number at `i`.
pub open spec fn le16(d: Seq<u8>, i: int) -> int {
    d[i] + 0x100 * d[i + 1]
}

/// The little-endian 32-bit number at `i`.
pub open spec fn le32(d: Seq<u8>, i: int) -> int {
    d[i] + 0x100 * d[i + 1] + 0x1_0000 * d[i + 2] + 0x100_0000 * d[i + 3]
}

/// The signed number with the given two's complement.
pub open spec fn signed16(v: int) -> int {
    if v >= 0x8000 {
        v - 0x1_0000
    } else {
        v
    }
}

/// What a format chunk says.
#[derive(Clone, Copy)]
pub struct WavFormat {
    pub format: u16,
    pub channels: u16,
    pub rate: u32,
    pub bits: u16,
}

/// The format chunk whose body starts at `i`.
pub open spec fn format_at(d: Seq<u8>, i: int) -> WavFormat {
    WavFormat {
        format: le16(d, i) as u16,
        channels: le16(d, i + 2) as u16,
        rate: le32(d, i + 4) as u32,
        bits: le16(d, i + 14) as u16,
    }
}

/// Whether the four bytes at `i` are the given ones.
pub open spec fn tag(d: Seq<u8>, i: int, a: u8, b: u8, c: u8, e: u8) -> bool {
    d[i] == a && d[i + 1] == b && d[i + 2] == c && d[i + 3] == e
}

/// The format and the position of the samples after the chunks from `pos` on. The last chunk
/// of a kind wins. A chunk that reaches past the end makes the file unreadable.
pub open spec fn chunks_from(
    d: Seq<u8>,
    pos: int,
    format: Option<WavFormat>,
    body: Option<(int, int)>,
) -> Option<(Option<WavFormat>, Option<(int, int)>)>
    decreases d.len() + 1 - pos,
{
    let size = le32(d, pos + 4);
    if pos < 0 || pos + 8 > d.len() {
        Some((format, body))
    } else if size < 0 || pos + 8 + size > d.len() {
        None
    } else {
        chunks_from(
            d,
            pos + 8 + size + size % 2,
            if tag(d, pos, 0x66, 0x6d, 0x74, 0x20) && size >= 16 {
                Some(format_at(d, pos + 8))
            } else {
                format
            },
            if tag(d, pos, 0x64, 0x61, 0x74, 0x61) {
                Some((pos + 8, size))
            } else {
                body
            },
        )
    }
}

/// Whether a format can be read: 16-bit PCM with one channel or two.
pub open spec fn readable(f: WavFormat) -> bool {
    f.format == 1 && f.bits == 16 && 1 <= f.channels <= 2 && f.rate != 0
}

/// Channel `c` of frame `i`: a mono frame sounds on both sides.
pub open spec fn frame_sample(d: Seq<u8>, start: int, channels: int, i: int, c: int) -> i16 {
    let at = start + 2 * channels * i + if channels == 2 {
        2 * c
    } else {
        0
    };
    signed16(le16(d, at)) as i16
}

/// How many frames a clip has at 44.1 kHz.
pub open spec fn resampled_len(frames: int, rate: int) -> int {
    frames * RATE / rate
}

/// The samples of a clip: for each frame at 44.1 kHz the frame of the file at that time.
pub open spec fn clip_samples(d: Seq<u8>, f: WavFormat, start: int, len: int) -> Seq<i16> {
    let frames = len / (2 * f.channels);
    Seq::new(
        (2 * resampled_len(frames, f.rate as int)) as nat,
        |k: int|
            frame_sample(d, start, f.channels as int, (k / 2) * f.rate / (RATE as int), k % 2),
    )
}

/// The samples that a WAV file holds; none where it cannot be read.
pub open spec fn wav_clip(d: Seq<u8>) -> Option<Seq<i16>> {
    if d.len() < 44 || !tag(d, 0, 0x52, 0x49, 0x46, 0x46) || !tag(d, 8, 0x57, 0x41, 0x56, 0x45) {
        None
    } else {
        match chunks_from(d, 12, None, None) {
            Some((Some(f), Some((start, len)))) if readable(f) => Some(
                clip_samples(d, f, start, len),
            ),
            _ => None,
        }
    }
}

fn read16(d: &[u8], i: usize) -> (v: u16)
    requires
        i + 2 <= d@.len(),
    ensures
        v == le16(d@, i as int),
{
    let len: usize = d.len();
    d[i] as u16 + 0x100 * d[i + 1] as u16
}

fn read32(d: &[u8], i: usize) -> (v: u32)
    requires
        i + 4 <= d@.len(),
    ensures
        v == le32(d@, i as int),
{
    let len: usize = d.len();
    d[i] as u32 + 0x100 * d[i + 1] as u32 + 0x1_0000 * d[i + 2] as u32 + 0x100_0000 * d[i + 3] as u32
}

fn has_tag(d: &[u8], i: usize, a: u8, b: u8, c: u8, e: u8) -> (r: bool)
    requires
        i + 4 <= d@.len(),
    ensures
        r == tag(d@, i as int, a, b, c, e),
{
    let len: usize = d.len();
    d[i] == a && d[i + 1] == b && d[i + 2] == c && d[i + 3] == e
}

fn read_sample(d: &[u8], i: usize) -> (v: i16)
    requires
        i + 2 <= d@.len(),
    ensures
        v == signed16(le16(d@, i as int)),
{
    let u: u16 = read16(d, i);
    if u >= 0x8000 {
        (u as i32 - 0x1_0000) as i16
    } else {
        u as i16
    }
}

/// Walks the chunks of a file. None where a chunk reaches past the end.
fn read_chunks(d: &[u8]) -> (r: Option<(Option<WavFormat>, Option<(usize, usize)>)>)
    requires
        d@.len() >= 12,
    ensures
        match r {
            Some((format, body)) => {
                &&& chunks_from(d@, 12, None, None) == Some(
                    (
                        format,
                        match body {
                            Some((start, len)) => Some((start as int, len as int)),
                            None => None,
                        },
                    ),
                )
                &&& body is Some ==> (body->0).0 + (body->0).1 <= d@.len()
            },
            None => chunks_from(d@, 12, None, None) is None,
        },
{
    let len: usize = d.len();
    let mut pos: usize = 12;
    let mut format: Option<WavFormat> = None;
    let mut body: Option<(usize, usize)> = None;
    let ghost mut body_model: Option<(int, int)> = None;
    let mut done: bool = false;
    while !done
        invariant
            len == d@.len(),
            pos <= len,
            body_model == match body {
                Some((start, n)) => Some((start as int, n as int)),
                None => None::<(int, int)>,
            },
            body is Some ==> (body->0).0 + (body->0).1 <= d@.len(),
            !done ==> chunks_from(d@, 12, None, None) == chunks_from(
                d@,
                pos as int,
                format,
                body_model,
            ),
            done ==> chunks_from(d@, 12, None, None) == Some((format, body_model)),
        decreases len - pos, (if done { 0int } else { 1int }),
    {
        if len - pos < 8 {
            done = true;
        } else {
            let size: usize = read32(d, pos + 4) as usize;
            if size > len - pos - 8 {
                return None;
            }
            let at: usize = pos + 8;
            if size >= 16 && has_tag(d, pos, 0x66, 0x6d, 0x74, 0x20) {
                format = Some(
                    WavFormat {
                        format: read16(d, at),
                        channels: read16(d, at + 2),
                        rate: read32(d, at + 4),
                        bits: read16(d, at + 14),
                    },
                );
            }
            if has_tag(d, pos, 0x64, 0x61, 0x74, 0x61) {
                body = Some((at, size));
                proof {
                    body_model = Some((at as int, size as int));
                }
            }
            let end: usize = at + size;
            if size % 2 == 1 && end == len {
                assert(chunks_from(d@, len + 1, format, body_model) == Some((format, body_model)));
                done = true;
            } else {
                pos = end + size % 2;
            }
        }
    }
    Some((format, body))
}

proof fn lemma_resample(frames: int, rate: int, i: int)
    requires
        rate > 0,
        frames >= 0,
        0 <= i < resampled_len(frames, rate),
    ensures
        0 <= i * rate / (RATE as int) < frames,
        i * rate <= frames * RATE,
{
    let n = frames * RATE;
    assert(i * rate < n) by (nonlinear_arith)
        requires
            0 <= i < n / rate,
            rate > 0,
    {
        let q = n / rate;
        assert(q * rate <= n) by (nonlinear_arith)
            requires
                q == n / rate,
                rate > 0,
        ;
        assert(i * rate < q * rate) by (nonlinear_arith)
            requires
                i < q,
                rate > 0,
        ;
    }
    assert(0 <= i * rate) by (nonlinear_arith)
        requires
            0 <= i,
            rate > 0,
    ;
}

/// Reads the samples at 44.1 kHz.
fn resample(d: &[u8], f: WavFormat, start: usize, len: usize) -> (samples: Vec<i16>)
    requires
        readable(f),
        start + len <= d@.len(),
    ensures
        samples@ == clip_samples(d@, f, start as int, len as int),
{
    let size: usize = d.len();
    let step: usize = 2 * f.channels as usize;
    let frames: usize = len / step;
    let ghost all = clip_samples(d@, f, start as int, len as int);
    let rate: u128 = f.rate as u128;
    let out: u128 = frames as u128 * RATE as u128 / rate;
    let mut samples: Vec<i16> = Vec::new();
    let mut i: u128 = 0;
    proof {
        assert(frames == (len as int) / (2 * f.channels as int));
        assert(out == resampled_len(frames as int, f.rate as int));
        assert(out >= 0 && out <= frames * 44_100) by (nonlinear_arith)
            requires
                out == frames * 44_100 / (rate as int),
                rate >= 1,
                frames >= 0,
        ;
        assert(samples@ =~= all.take(0));
    }
    while i < out
        invariant
            i <= out,
            readable(f),
            rate == f.rate,
            step == 2 * f.channels,
            frames == len / step,
            size == d@.len(),
            start + len <= d@.len(),
            all == clip_samples(d@, f, start as int, len as int),
            out == resampled_len(frames as int, f.rate as int),
            out <= frames * 44_100,
            all.len() == 2 * out,
            samples@ == all.take(2 * i),
        decreases out - i,
    {
        proof {
            lemma_resample(frames as int, f.rate as int, i as int);
            assert(i * rate == i * f.rate);
        }
        let src: usize = (i * rate / RATE as u128) as usize;
        proof {
            assert(step * src + step <= len) by (nonlinear_arith)
                requires
                    src < frames,
                    frames == len / step,
                    step > 0,
                    len >= 0,
            {
                assert(step * frames <= len) by (nonlinear_arith)
                    requires
                        frames == len / step,
                        step > 0,
                ;
                assert(step * src + step <= step * frames) by (nonlinear_arith)
                    requires
                        src + 1 <= frames,
                        step > 0,
                ;
            }
        }
        let at: usize = start + step * src;
        let l: i16 = read_sample(d, at);
        let r: i16 = if f.channels == 2 {
            read_sample(d, at + 2)
        } else {
            l
        };
        samples.push(l);
        samples.push(r);
        proof {
            assert((2 * i) / 2 == i && (2 * i) % 2 == 0);
            assert((2 * i + 1) / 2 == i && (2 * i + 1) % 2 == 1);
            assert(2 * (f.channels as int) * (src as int) == step * src) by (nonlinear_arith)
                requires
                    step == 2 * f.channels,
            ;
            assert(all[2 * i as int] == l);
            assert(all[2 * i + 1] == r);
            assert(all.take(2 * (i + 1)) =~= all.take(2 * i as int).push(l).push(r));
        }
        i = i + 1;
    }
    assert(all.take(2 * i as int) =~= all);
    samples
}

impl Clip {
    /// Reads a WAV file of 16-bit PCM, mono or stereo. Other sample rates than 44.1 kHz are
    /// converted by the nearest earlier sample.
    pub fn from_wav(data: &[u8]) -> (clip: Option<Clip>)
        ensures
            match clip {
                Some(c) => wav_clip(data@) == Some(c.samples@),
                None => wav_clip(data@) is None,
            },
    {
        if data.len() < 44 || !has_tag(data, 0, 0x52, 0x49, 0x46, 0x46) || !has_tag(
            data,
            8,
            0x57,
            0x41,
            0x56,
            0x45,
        ) {
            return None;
        }
        match read_chunks(data) {
            Some((Some(f), Some((start, len)))) => {
                if f.format != 1 || f.bits != 16 || f.channels == 0 || f.channels > 2 || f.rate
                    == 0 {
                    None
                } else {
                    Some(Clip { samples: resample(data, f, start, len) })
                }
            },
            _ => None,
        }
    }
}

/// Two little-endian bytes.
pub open spec fn bytes16(v: int) -> Seq<u8> {
    seq![(v % 0x100) as u8, (v / 0x100 % 0x100) as u8]
}

/// Four little-endian bytes.
pub open spec fn bytes32(v: int) -> Seq<u8> {
    seq![
        (v % 0x100) as u8,
        (v / 0x100 % 0x100) as u8,
        (v / 0x1_0000 % 0x100) as u8,
        (v / 0x100_0000 % 0x100) as u8,
    ]
}

/// The two's complement of a signed number.
pub open spec fn unsigned16(v: int) -> int {
    if v < 0 {
        v + 0x1_0000
    } else {
        v
    }
}

/// The header of a stereo file at 44.1 kHz with `data` bytes of samples.
pub open spec fn wav_header(data: int) -> Seq<u8> {
    seq![0x52u8, 0x49u8, 0x46u8, 0x46u8] + bytes32(36 + data) + seq![
        0x57u8, 0x41u8, 0x56u8, 0x45u8, 0x66u8, 0x6du8, 0x74u8, 0x20u8,
    ] + bytes32(16) + bytes16(1) + bytes16(2) + bytes32(44_100) + bytes32(176_400) + bytes16(4)
        + bytes16(16) + seq![0x64u8, 0x61u8, 0x74u8, 0x61u8] + bytes32(data)
}

/// The bytes of some samples.
pub open spec fn sample_bytes(samples: Seq<i16>) -> Seq<u8> {
    Seq::new(
        2 * samples.len(),
        |i: int| bytes16(unsigned16(samples[i / 2] as int))[i % 2],
    )
}

/// A WAV file of some interleaved stereo samples at 44.1 kHz.
pub open spec fn wav_file(samples: Seq<i16>) -> Seq<u8> {
    wav_header(2 * samples.len() as int) + sample_bytes(samples)
}

fn push16(out: &mut Vec<u8>, v: u16)
    ensures
        final(out)@ == old(out)@ + bytes16(v as int),
{
    let ghost start = out@;
    out.push((v % 0x100) as u8);
    out.push((v / 0x100) as u8);
    proof {
        assert(out@ =~= start + bytes16(v as int));
    }
}

fn push32(out: &mut Vec<u8>, v: u32)
    ensures
        final(out)@ == old(out)@ + bytes32(v as int),
{
    let ghost start = out@;
    out.push((v % 0x100) as u8);
    out.push((v / 0x100 % 0x100) as u8);
    out.push((v / 0x1_0000 % 0x100) as u8);
    out.push((v / 0x100_0000) as u8);
    proof {
        assert(out@ =~= start + bytes32(v as int));
    }
}

fn push_tag(out: &mut Vec<u8>, a: u8, b: u8, c: u8, e: u8)
    ensures
        final(out)@ == old(out)@ + seq![a, b, c, e],
{
    let ghost start = out@;
    out.push(a);
    out.push(b);
    out.push(c);
    out.push(e);
    proof {
        assert(out@ =~= start + seq![a, b, c, e]);
    }
}

/// Writes interleaved stereo samples at 44.1 kHz as a WAV file.
pub fn wav_bytes(samples: &[i16]) -> (out: Vec<u8>)
    requires
        36 + 2 * samples@.len() <= u32::MAX,
    ensures
        out@ == wav_file(samples@),
{
    let data: u32 = 2 * samples.len() as u32;
    let mut out: Vec<u8> = Vec::new();
    push_tag(&mut out, 0x52, 0x49, 0x46, 0x46);
    push32(&mut out, 36 + data);
    push_tag(&mut out, 0x57, 0x41, 0x56, 0x45);
    push_tag(&mut out, 0x66, 0x6d, 0x74, 0x20);
    push32(&mut out, 16);
    push16(&mut out, 1);
    push16(&mut out, 2);
    push32(&mut out, RATE);
    push32(&mut out, 176_400);
    push16(&mut out, 4);
    push16(&mut out, 16);
    push_tag(&mut out, 0x64, 0x61, 0x74, 0x61);
    push32(&mut out, data);
    proof {
        assert(out@ =~= wav_header(data as int));
        assert(sample_bytes(samples@.take(0)) =~= Seq::empty());
        assert(out@ =~= wav_header(data as int) + sample_bytes(samples@.take(0)));
    }
    let mut i: usize = 0;
    while i < samples.len()
        invariant
            i <= samples@.len(),
            out@ == wav_header(data as int) + sample_bytes(samples@.take(i as int)),
        decreases samples@.len() - i,
    {
        let v: i16 = samples[i];
        let u: u16 = if v < 0 {
            (v as i32 + 0x1_0000) as u16
        } else {
            v as u16
        };
        let ghost before = out@;
        push16(&mut out, u);
        proof {
            lemma_one_more_sample(samples@, i as int);
            assert(out@ =~= wav_header(data as int) + sample_bytes(samples@.take(i + 1)));
        }
        i = i + 1;
    }
    assert(samples@.take(i as int) =~= samples@);
    out
}

proof fn lemma_one_more_sample(samples: Seq<i16>, i: int)
    requires
        0 <= i < samples.len(),
    ensures
        sample_bytes(samples.take(i + 1)) == sample_bytes(samples.take(i)) + bytes16(
            unsigned16(samples[i] as int),
        ),
{
    let more = sample_bytes(samples.take(i + 1));
    let less = sample_bytes(samples.take(i));
    assert forall|k: int| 0 <= k < more.len() implies more[k] == (less + bytes16(
        unsigned16(samples[i] as int),
    ))[k] by {
        if k < 2 * i {
            assert(samples.take(i + 1)[k / 2] == samples.take(i)[k / 2]);
        } else {
            assert(k / 2 == i);
        }
    }
    assert(more =~= less + bytes16(unsigned16(samples[i] as int)));
}

/// The bytes of a header that reading depends on.
spec fn header_facts(d: Seq<u8>, n: int) -> bool {
    &&& tag(d, 0, 0x52, 0x49, 0x46, 0x46)
    &&& tag(d, 8, 0x57, 0x41, 0x56, 0x45)
    &&& tag(d, 12, 0x66, 0x6d, 0x74, 0x20)
    &&& tag(d, 36, 0x64, 0x61, 0x74, 0x61)
    &&& le32(d, 16) == 16
    &&& le16(d, 20) == 1
    &&& le16(d, 22) == 2
    &&& le32(d, 24) == 44_100
    &&& le16(d, 34) == 16
    &&& le32(d, 40) == n
}

proof fn lemma_header(n: int)
    requires
        0 <= n < 0x1_0000_0000,
    ensures
        wav_header(n).len() == 44,
        header_facts(wav_header(n), n),
{
    let h = wav_header(n);
    assert(h[16] == 16 && h[17] == 0 && h[18] == 0 && h[19] == 0);
    assert(h[20] == 1 && h[21] == 0 && h[22] == 2 && h[23] == 0);
    assert(h[24] == 0x44 && h[25] == 0xac && h[26] == 0 && h[27] == 0);
    assert(h[34] == 16 && h[35] == 0);
    assert(h[40] == n % 0x100 && h[41] == n / 0x100 % 0x100 && h[42] == n / 0x1_0000 % 0x100
        && h[43] == n / 0x100_0000 % 0x100);
    assert(n / 0x100 / 0x100 == n / 0x1_0000 && n / 0x1_0000 / 0x100 == n / 0x100_0000);
}

proof fn lemma_chunks(d: Seq<u8>, n: int)
    requires
        d.len() == 44 + n,
        n >= 0,
        n % 2 == 0,
        header_facts(d, n),
    ensures
        ({
            let f = WavFormat { format: 1, channels: 2, rate: 44_100, bits: 16 };
            chunks_from(d, 12, None, None) == Some((Some(f), Some((44int, n))))
        }),
{
    let f = WavFormat { format: 1, channels: 2, rate: 44_100, bits: 16 };
    let body = Some((44int, n));
    assert(format_at(d, 20) == f);
    assert(chunks_from(d, 44 + n, Some(f), body) == Some((Some(f), body)));
    assert(chunks_from(d, 36, Some(f), None) == chunks_from(d, 44 + n, Some(f), body));
    assert(chunks_from(d, 12, None, None) == chunks_from(d, 36, Some(f), None));
}

proof fn lemma_sample(d: Seq<u8>, samples: Seq<i16>, k: int)
    requires
        0 <= k < samples.len(),
        d.len() == 44 + 2 * samples.len(),
        forall|i: int|
            0 <= i < 2 * samples.len() ==> #[trigger] d[44 + i] == sample_bytes(samples)[i],
    ensures
        signed16(le16(d, 44 + 2 * k)) == samples[k],
{
    let v = unsigned16(samples[k] as int);
    let b = sample_bytes(samples);
    assert((2 * k) / 2 == k && (2 * k) % 2 == 0 && (2 * k + 1) / 2 == k && (2 * k + 1) % 2 == 1);
    assert(b[2 * k] == bytes16(v)[0]);
    assert(b[2 * k + 1] == bytes16(v)[1]);
    assert(d[44 + 2 * k] == b[2 * k]);
    assert(d[44 + (2 * k + 1)] == b[2 * k + 1]);
    assert(le16(d, 44 + 2 * k) == v);
}

/// Reading gives back what was written.
pub proof fn law_wav_round_trip(samples: Seq<i16>)
    requires
        samples.len() % 2 == 0,
        36 + 2 * samples.len() <= u32::MAX,
    ensures
        wav_clip(wav_file(samples)) == Some(samples),
{
    let n = 2 * samples.len() as int;
    let h = wav_header(n);
    let d = wav_file(samples);
    lemma_header(n);
    assert(forall|i: int| 0 <= i < 44 ==> #[trigger] d[i] == h[i]);
    assert(forall|i: int| 0 <= i < n ==> #[trigger] d[44 + i] == sample_bytes(samples)[i]);
    lemma_chunks(d, n);
    let f = WavFormat { format: 1, channels: 2, rate: 44_100, bits: 16 };
    let got = clip_samples(d, f, 44, n);
    let count = samples.len() as int;
    assert(2 * f.channels as int == 4);
    assert((2 * count) / 4 == count / 2);
    assert(n / (2 * f.channels as int) == samples.len() / 2);
    assert(resampled_len((samples.len() / 2) as int, 44_100) == samples.len() / 2);
    assert forall|k: int| 0 <= k < samples.len() implies got[k] == samples[k] by {
        let i = k / 2;
        assert(i * 44_100 / 44_100 == i);
        lemma_sample(d, samples, k);
        assert(44 + 2 * 2 * i + 2 * (k % 2) == 44 + 2 * k);
    }
    assert(got =~= samples);
}

/// A sound of the track.
#[derive(Debug, Clone, Copy, PartialEq, Eq, Structural)]
pub struct SoundEvent {
    /// Frame of the track at which it starts.
    pub frame: u128,
    /// Whether it is the miss sound.
    pub miss: bool,
}

/// The sounds of a render.
#[derive(Debug, Clone)]
pub struct HitsoundPlan {
    /// Length of the track in frames.
    pub frames: u128,
    /// Its sounds in note order.
    pub events: Vec<SoundEvent>,
}

/// The frame of a track at which a song time sounds, `rel` after its start. The track runs in
/// wall-clock time.
pub open spec fn frame_of(rel: int, speed: int) -> int {
    441 * rel / (10 * speed)
}

/// The length of a track over `span` of song time, in frames, rounded up.
pub open spec fn track_len(span: int, speed: int) -> int {
    (441 * span + 10 * speed - 1) / (10 * speed)
}

/// The hits in a row that end before note `n`.
pub open spec fn streak_before(results: Seq<NoteResult>, n: nat) -> int
    decreases n,
{
    if n == 0 || !results[n - 1].hit {
        0
    } else {
        streak_before(results, (n - 1) as nat) + 1
    }
}

/// When note `n` sounds: a hit at its time, a miss at the note's time where it breaks a combo
/// that is long enough.
pub open spec fn sounds_at(
    results: Seq<NoteResult>,
    note_times: Seq<i64>,
    with_miss: bool,
    n: nat,
) -> Option<int> {
    let r = results[n as int];
    if r.hit {
        match r.hit_ms {
            Some(t) => Some(t as int),
            None => None,
        }
    } else if with_miss && streak_before(results, n) >= MISS_SOUND_COMBO_THRESHOLD && r.note_index
        < note_times.len() {
        Some(note_times[r.note_index as int] as int)
    } else {
        None
    }
}

/// The sounds of the first `n` notes within the render.
pub open spec fn events_of(
    results: Seq<NoteResult>,
    note_times: Seq<i64>,
    with_miss: bool,
    start: int,
    end: int,
    speed: int,
    n: nat,
) -> Seq<SoundEvent>
    decreases n,
{
    if n == 0 {
        Seq::empty()
    } else {
        let before = events_of(results, note_times, with_miss, start, end, speed, (n - 1) as nat);
        match sounds_at(results, note_times, with_miss, (n - 1) as nat) {
            Some(t) if start <= t < end => before.push(
                SoundEvent {
                    frame: frame_of(t - start, speed) as u128,
                    miss: !results[n - 1].hit,
                },
            ),
            _ => before,
        }
    }
}

/// Lays out the sounds of a render from `start_ms` to `end_ms` of song time. The track runs in
/// wall-clock time, so a hit sounds earlier or later by the speed. None where nothing would
/// sound.
pub fn hitsound_plan(
    with_miss: bool,
    results: &[NoteResult],
    note_times: &[i64],
    start_ms: i64,
    end_ms: i64,
    speed: i64,
    volume: i64,
) -> (plan: Option<HitsoundPlan>)
    requires
        results@.len() <= u32::MAX,
    ensures
        ({
            let events = events_of(
                results@,
                note_times@,
                with_miss,
                start_ms as int,
                end_ms as int,
                speed as int,
                results@.len(),
            );
            if start_ms >= end_ms || volume <= 0 || speed <= 0 || events.len() == 0 {
                plan is None
            } else {
                &&& plan is Some
                &&& plan->0.events@ == events
                &&& plan->0.frames == track_len(end_ms - start_ms, speed as int)
            }
        }),
{
    if end_ms <= start_ms || volume <= 0 || speed <= 0 {
        return None;
    }
    let span: u128 = (end_ms as i128 - start_ms as i128) as u128;
    let unit: u128 = 10 * speed as u128;
    let frames: u128 = (441 * span + unit - 1) / unit;
    let mut events: Vec<SoundEvent> = Vec::new();
    let mut streak: u32 = 0;
    let mut i: usize = 0;
    while i < results.len()
        invariant
            i <= results@.len() <= u32::MAX,
            start_ms < end_ms,
            speed > 0,
            unit == 10 * speed,
            streak == streak_before(results@, i as nat),
            streak <= i,
            events@ == events_of(
                results@,
                note_times@,
                with_miss,
                start_ms as int,
                end_ms as int,
                speed as int,
                i as nat,
            ),
        decreases results@.len() - i,
    {
        let r: NoteResult = results[i];
        let mut at: Option<i64> = None;
        if r.hit {
            at = r.hit_ms;
            streak = streak + 1;
        } else {
            if with_miss && streak >= MISS_SOUND_COMBO_THRESHOLD && r.note_index
                < note_times.len() {
                at = Some(note_times[r.note_index]);
            }
            streak = 0;
        }
        if let Some(t) = at {
            if start_ms <= t && t < end_ms {
                let rel: u128 = (t as i128 - start_ms as i128) as u128;
                events.push(SoundEvent { frame: 441 * rel / unit, miss: !r.hit });
            }
        }
        i = i + 1;
    }
    if events.len() == 0 {
        return None;
    }
    Some(HitsoundPlan { frames, events })
}

/// Every sound starts within the track.
pub proof fn law_sounds_lie_within_the_track(rel: int, span: int, speed: int)
    requires
        0 <= rel < span,
        speed > 0,
    ensures
        0 <= frame_of(rel, speed) < track_len(span, speed),
{
    let u = 10 * speed;
    assert(0 <= 441 * rel / u && 441 * rel / u < (441 * span + u - 1) / u) by (nonlinear_arith)
        requires
            0 <= rel < span,
            u > 0,
    {
        let q = 441 * rel / u;
        assert(0 <= q && q * u <= 441 * rel) by (nonlinear_arith)
            requires
                q == 441 * rel / u,
                u > 0,
                rel >= 0,
        ;
        let p = (441 * span + u - 1) / u;
        assert(441 * span <= p * u) by (nonlinear_arith)
            requires
                p == (441 * span + u - 1) / u,
                u > 0,
        {
            let m = (441 * span + u - 1) % u;
            assert(441 * span + u - 1 == p * u + m && m < u) by (nonlinear_arith)
                requires
                    p == (441 * span + u - 1) / u,
                    m == (441 * span + u - 1) % u,
                    u > 0,
            ;
        }
        assert(q < p) by (nonlinear_arith)
            requires
                q * u < p * u,
                u > 0,
        ;
    }
}

/// A miss is heard only where at least five hits in a row came before it.
pub proof fn law_miss_sound_needs_a_combo(
    results: Seq<NoteResult>,
    note_times: Seq<i64>,
    with_miss: bool,
    n: nat,
)
    requires
        n < results.len(),
        !results[n as int].hit,
        sounds_at(results, note_times, with_miss, n) is Some,
    ensures
        streak_before(results, n) >= MISS_SOUND_COMBO_THRESHOLD,
{
}

/// Sounds keep the time of the video: so many seconds into it, at whatever speed the song is
/// played, are that many times 44100 frames of the track. What comes later sounds later.
pub proof fn law_sounds_keep_the_time_of_the_video(rel: int, later: int, speed: int, secs: int)
    requires
        0 <= rel <= later,
        speed > 0,
        secs >= 0,
    ensures
        frame_of(1000 * secs * speed, speed) == 44_100 * secs,
        track_len(1000 * secs * speed, speed) == 44_100 * secs,
        10 * speed * frame_of(rel, speed) <= 441 * rel < 10 * speed * (frame_of(rel, speed) + 1),
        frame_of(rel, speed) <= frame_of(later, speed),
        frame_of(0, speed) == 0,
{
    let d = 10 * speed;
    let n = 441 * (1000 * secs * speed);
    assert(n == d * (44_100 * secs)) by (nonlinear_arith)
        requires
            n == 441 * (1000 * secs * speed),
            d == 10 * speed,
    ;
    vstd::arithmetic::div_mod::lemma_div_multiples_vanish(44_100 * secs, d);
    vstd::arithmetic::div_mod::lemma_fundamental_div_mod_converse(
        n + d - 1,
        d,
        44_100 * secs,
        d - 1,
    );
    assert(d * (44_100 * secs) == 44_100 * secs * d) by (nonlinear_arith);
    let f = frame_of(rel, speed);
    vstd::arithmetic::div_mod::lemma_fundamental_div_mod(441 * rel, d);
    vstd::arithmetic::div_mod::lemma_mod_bound(441 * rel, d);
    assert(d * (f + 1) == d * f + d) by (nonlinear_arith);
    vstd::arithmetic::div_mod::lemma_div_is_ordered(441 * rel, 441 * later, d);
    vstd::arithmetic::div_mod::lemma_div_basics(d);
}

/// The streak before a note is the run of hits that ends right before it: all of these are hits,
/// and what stands before them is not.
pub proof fn law_streaks_are_unbroken(results: Seq<NoteResult>, n: nat)
    requires
        n <= results.len(),
    ensures
        ({
            let c = streak_before(results, n);
            &&& 0 <= c <= n
            &&& forall|i: int| n - c <= i < n ==> (#[trigger] results[i]).hit
            &&& c < n ==> !results[n - c - 1].hit
        }),
    decreases n,
{
    if n > 0 && results[n - 1].hit {
        law_streaks_are_unbroken(results, (n - 1) as nat);
    }
}

/// Every sound within the clip is laid out, once and in order, and nothing else: a hit at the time
/// at which it was hit, a miss that ends a streak of 5 or more at the time of its note, each of
/// them counted from the start of the clip in video time.
pub proof fn law_every_sound_is_laid_out(
    results: Seq<NoteResult>,
    note_times: Seq<i64>,
    with_miss: bool,
    start: int,
    end: int,
    speed: int,
    n: nat,
    i: int,
)
    requires
        n <= results.len(),
        0 <= i < n,
        start <= end,
        end - start <= 0x1_0000_0000_0000_0000,
        speed > 0,
    ensures
        ({
            let events = events_of(results, note_times, with_miss, start, end, speed, n);
            let r = results[i];
            &&& r.hit && (r.hit_ms matches Some(t) && start <= t < end) ==> has_sound_at(
                events,
                r.hit_ms->0 - start,
                speed,
                false,
            )
            &&& !r.hit && with_miss && streak_before(results, i as nat) >= 5 && r.note_index
                < note_times.len() && start <= note_times[r.note_index as int] < end
                ==> has_sound_at(events, note_times[r.note_index as int] - start, speed, true)
            &&& events.len() == tally(
                |k: int|
                    {
                        let s = results[k];
                        ||| s.hit && (s.hit_ms matches Some(t) && start <= t < end)
                        ||| !s.hit && with_miss && streak_before(results, k as nat) >= 5
                            && s.note_index < note_times.len() && start
                            <= note_times[s.note_index as int] < end
                    },
                n,
            )
        }),
    decreases n,
{
    let m = (n - 1) as nat;
    let before = events_of(results, note_times, with_miss, start, end, speed, m);
    let events = events_of(results, note_times, with_miss, start, end, speed, n);
    let sounds = |k: int|
        {
            let s = results[k];
            ||| s.hit && (s.hit_ms matches Some(t) && start <= t < end)
            ||| !s.hit && with_miss && streak_before(results, k as nat) >= 5 && s.note_index
                < note_times.len() && start <= note_times[s.note_index as int] < end
        };
    if m > 0 {
        law_every_sound_is_laid_out(
            results,
            note_times,
            with_miss,
            start,
            end,
            speed,
            m,
            if i < m {
                i
            } else {
                0
            },
        );
    }
    assert(tally(sounds, 0) == 0);
    assert(before.len() == tally(sounds, m));
    assert(tally(sounds, n) == tally(sounds, m) + if sounds(m as int) {
        1nat
    } else {
        0nat
    });
    let r = results[i];
    let miss = !r.hit;
    if sounds(i) {
        let t: int = if r.hit {
            r.hit_ms->0 as int
        } else {
            note_times[r.note_index as int] as int
        };
        if i < m {
            assert(has_sound_at(before, t - start, speed, miss));
            let k = choose|k: int|
                0 <= k < before.len() && (#[trigger] before[k]).miss == miss && 10 * speed
                    * before[k].frame <= 441 * (t - start) < 10 * speed * (before[k].frame + 1);
            assert(events[k] == before[k]);
            assert(has_sound_at(events, t - start, speed, miss));
        } else {
            law_sounds_keep_the_time_of_the_video(t - start, t - start, speed, 0);
            let f = frame_of(t - start, speed);
            assert(0 <= f <= 441 * (t - start)) by (nonlinear_arith)
                requires
                    10 * speed * f <= 441 * (t - start) < 10 * speed * (f + 1),
                    t - start >= 0,
                    speed > 0,
            ;
            assert(events[before.len() as int].frame == f);
            assert(events[before.len() as int].miss == miss);
            assert(has_sound_at(events, t - start, speed, miss));
        }
    }
}

/// Whether a sound is laid out so far into the clip.
pub open spec fn has_sound_at(events: Seq<SoundEvent>, rel: int, speed: int, miss: bool) -> bool {
    exists|k: int|
        0 <= k < events.len() && (#[trigger] events[k]).miss == miss && 10 * speed * events[k].frame
            <= 441 * rel < 10 * speed * (events[k].frame + 1)
}

/// A clip lasts as long as its file says, to a sample, at whatever rate that was recorded; at the
/// rate of the track every frame is kept.
pub proof fn law_clips_keep_their_length(frames: int, rate: int)
    requires
        frames >= 0,
        rate > 0,
    ensures
        resampled_len(frames, rate) * rate <= 44_100 * frames < (resampled_len(frames, rate) + 1)
            * rate,
        resampled_len(frames, 44_100) == frames,
{
    let n = frames * 44_100;
    let q = resampled_len(frames, rate);
    vstd::arithmetic::div_mod::lemma_fundamental_div_mod(n, rate);
    vstd::arithmetic::div_mod::lemma_mod_bound(n, rate);
    assert(q * rate == rate * q) by (nonlinear_arith);
    assert((q + 1) * rate == q * rate + rate) by (nonlinear_arith);
}

} // verus!
