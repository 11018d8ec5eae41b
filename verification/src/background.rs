//! A background of the user's own: a picture or a looping video behind the game, darkened as they
//! like.

use vstd::prelude::*;

use crate::config::{layer_model, BackgroundLayer, LayerModel, Rgb, SkinConfig};
use crate::encoder::put;
use crate::fixed::{
    div_nearest, greater, law_rounding_is_closest, law_rounding_is_monotone,
    law_rounding_keeps_whole_numbers, magnitude, nearest, within, ONE,
};
use crate::mods::texts;
use crate::number::{fixed_of, parse_fixed};
use crate::pictures::{decode_image_rgba, picture_of};
use crate::text::{
    begins, chars_of, decimal, index_from, occurs, occurs_at, part_of, push_decimal, push_rounded,
    push_signed, rounded, signed_decimal, trim, trimmed,
};

verus! {

/// What kind of file a background is.
#[derive(Debug, Clone, Copy, PartialEq, Eq, Structural)]
pub enum BackgroundKind {
    Image,
    Video,
}

/// What the first bytes of a file look like.
#[derive(Debug, Clone, Copy, PartialEq, Eq, Structural)]
pub enum Guess {
    /// A picture that may be animated.
    Gif,
    /// Another picture.
    Picture,
    /// Nothing that is known.
    Unknown,
}

/// What `image::guess_format` makes of the first bytes of a file.
pub uninterp spec fn guessed(head: Seq<u8>) -> Guess;

/// `image::guess_format` tells the format of a picture by the bytes that it starts with. The
/// guess depends on these alone; it is GIF exactly where they are `GIF89a` or `GIF87a`.
#[verifier::external_body]
fn guess_format(head: &[u8]) -> (g: Guess)
    ensures
        g == guessed(head@),
        g == Guess::Gif <==> begins(head@, seq![71u8, 73, 70, 56, 57, 97]) || begins(
            head@,
            seq![71u8, 73, 70, 56, 55, 97],
        ),
{
    match image::guess_format(head) {
        Ok(image::ImageFormat::Gif) => Guess::Gif,
        Ok(_) => Guess::Picture,
        Err(_) => Guess::Unknown,
    }
}

/// The kind of a file by what it looks like: what may be animated has to play.
pub fn kind_of(guess: Guess) -> (kind: BackgroundKind)
    ensures
        kind == (if guess == Guess::Picture {
            BackgroundKind::Image
        } else {
            BackgroundKind::Video
        }),
{
    match guess {
        Guess::Picture => BackgroundKind::Image,
        _ => BackgroundKind::Video,
    }
}

/// The kind of a file by its first bytes.
pub fn classify_bytes(head: &[u8]) -> (kind: BackgroundKind)
    ensures
        kind == (if guessed(head@) == Guess::Picture {
            BackgroundKind::Image
        } else {
            BackgroundKind::Video
        }),
        begins(head@, seq![71u8, 73, 70, 56, 57, 97]) ==> kind == BackgroundKind::Video,
{
    kind_of(guess_format(head))
}

/// Whether a picture can be decoded in full.
pub fn image_decodes(bytes: &[u8]) -> (r: bool)
    ensures
        r == (picture_of(bytes@) is Some),
{
    decode_image_rgba(bytes).is_some()
}

/// How the user placed a background. Numbers are in millionths.
#[derive(Debug, Clone, Copy)]
pub struct BackgroundOptions {
    /// Darkening from 0 to 1.
    pub dim: i64,
    /// Zoom on top of covering the frame.
    pub zoom: i64,
    /// Shift right and down, as a share of the frame.
    pub offset: [i64; 2],
    /// Second at which a video starts and loops.
    pub start_secs: i64,
    /// Seconds into the loop at which the first pass begins.
    pub sync_offset_secs: i64,
}

impl Default for BackgroundOptions {
    fn default() -> (o: BackgroundOptions)
        ensures
            o.dim == 600_000,
            o.zoom == ONE,
            o.offset@ == seq![0i64, 0],
            o.start_secs == 0,
            o.sync_offset_secs == 0,
    {
        let o: BackgroundOptions = BackgroundOptions {
            dim: 600_000,
            zoom: ONE,
            offset: [0, 0],
            start_secs: 0,
            sync_offset_secs: 0,
        };
        assert(o.offset@ =~= seq![0i64, 0]);
        o
    }
}

/// A video background and how it is placed.
#[derive(Debug, Clone)]
pub struct BackgroundVideo {
    pub path: String,
    pub opts: BackgroundOptions,
}

fn limit(v: i64, lo: i64, hi: i64) -> (r: i64)
    ensures
        r == within(v as int, lo as int, hi as int),
{
    if v < lo {
        lo
    } else if v > hi {
        hi
    } else {
        v
    }
}

/// A layer that covers the frame, zoomed and shifted.
pub open spec fn covering(o: BackgroundOptions) -> LayerModel {
    LayerModel {
        fit: 2,
        placement: 0,
        center_x: 500_000 + within(o.offset@[0] as int, -1_000_000, 1_000_000),
        center_y: 500_000 + within(o.offset@[1] as int, -1_000_000, 1_000_000),
        scale_x: within(o.zoom as int, 1_000_000, 4_000_000),
        scale_y: within(o.zoom as int, 1_000_000, 4_000_000),
        flip_horizontal: false,
        space_x: 0,
        space_y: 0,
        space_w: 0,
        space_h: 0,
        tint: Rgb { r: 255_000_000, g: 255_000_000, b: 255_000_000 },
        tint_opacity: 1_000_000,
    }
}

/// A layer that covers the frame, zoomed and shifted.
pub fn cover_layer(bytes: Vec<u8>, opts: &BackgroundOptions) -> (l: BackgroundLayer)
    ensures
        l.bytes@ == bytes@,
        layer_model(l) == covering(*opts),
{
    let zoom: i64 = limit(opts.zoom, 1_000_000, 4_000_000);
    BackgroundLayer {
        bytes,
        fit: 2,
        placement: 0,
        center_x: 500_000 + limit(opts.offset[0], -1_000_000, 1_000_000),
        center_y: 500_000 + limit(opts.offset[1], -1_000_000, 1_000_000),
        scale_x: zoom,
        scale_y: zoom,
        flip_horizontal: false,
        space_x: 0,
        space_y: 0,
        space_w: 0,
        space_h: 0,
        tint: Rgb { r: 255_000_000, g: 255_000_000, b: 255_000_000 },
        tint_opacity: 1_000_000,
    }
}

/// Puts a background in place of the skin's layers. `bytes` is the picture; a video has none here.
pub fn apply_background(
    cfg: &mut SkinConfig,
    kind: BackgroundKind,
    bytes: Vec<u8>,
    opts: &BackgroundOptions,
)
    ensures
        final(cfg).custom_bg_dim == Some(within(opts.dim as int, 0, 1_000_000) as i64),
        final(cfg).custom_bg_video == (kind == BackgroundKind::Video),
        match kind {
            BackgroundKind::Image => {
                &&& final(cfg).background_images@.len() == 1
                &&& final(cfg).background_images@[0].bytes@ == bytes@
                &&& layer_model(final(cfg).background_images@[0]) == covering(*opts)
            },
            BackgroundKind::Video => final(cfg).background_images@.len() == 0,
        },
        *final(cfg) == (SkinConfig {
            custom_bg_dim: final(cfg).custom_bg_dim,
            custom_bg_video: final(cfg).custom_bg_video,
            background_images: final(cfg).background_images,
            ..*old(cfg)
        }),
{
    let mut layers: Vec<BackgroundLayer> = Vec::new();
    if kind == BackgroundKind::Image {
        layers.push(cover_layer(bytes, opts));
    }
    cfg.background_images = layers;
    cfg.custom_bg_dim = Some(limit(opts.dim, 0, 1_000_000));
    cfg.custom_bg_video = kind == BackgroundKind::Video;
}

/// The field behind `Duration: ` in what an encoder says of a file: up to a comma or the end of
/// the line.
pub open spec fn duration_field(text: Seq<char>, at: int) -> Seq<char> {
    let from = at + 10;
    let comma = index_from(text, ',', from);
    let line = index_from(text, '\n', from);
    trimmed(text.subrange(from, if comma < line {
        comma
    } else {
        line
    }))
}

/// The first position of `part` from one on; -1 where there is none.
pub open spec fn first_of(s: Seq<char>, part: Seq<char>, from: int) -> int
    decreases s.len() + 1 - from,
{
    if from < 0 || from + part.len() > s.len() {
        -1
    } else if occurs(s, part, from) {
        from
    } else {
        first_of(s, part, from + 1)
    }
}

/// A number cut to the range of an `i64`.
pub open spec fn clipped(n: int) -> int {
    within(n, -(i64::MAX as int), i64::MAX as int)
}

/// The seconds that a field like `00:01:23.45` gives, in millionths.
pub open spec fn clock_seconds(field: Seq<char>) -> Option<int> {
    let a = index_from(field, ':', 0);
    let b = index_from(field, ':', a + 1);
    let c = index_from(field, ':', b + 1);
    if a >= field.len() || b >= field.len() {
        None
    } else {
        match (
            fixed_of(trimmed(field.take(a))),
            fixed_of(field.subrange(a + 1, b)),
            fixed_of(field.subrange(b + 1, c)),
        ) {
            (Some(h), Some(m), Some(s)) => Some(clipped(h * 3600 + m * 60 + s)),
            _ => None,
        }
    }
}

/// The length of a video in what an encoder says of it, in millionths of a second.
pub open spec fn duration_in(text: Seq<char>) -> Option<int> {
    let at = first_of(text, "Duration: "@, 0);
    if at < 0 {
        None
    } else {
        clock_seconds(duration_field(text, at))
    }
}

fn find_first(s: &[char], part: &[char]) -> (at: Option<usize>)
    requires
        part@.len() > 0,
    ensures
        match at {
            Some(i) => i == first_of(s@, part@, 0) && i + part@.len() <= s@.len(),
            None => first_of(s@, part@, 0) < 0,
        },
{
    let len: usize = s.len();
    let mut i: usize = 0;
    while i < len && len - i >= part.len()
        invariant
            i <= len == s@.len(),
            part@.len() > 0,
            first_of(s@, part@, 0) == first_of(s@, part@, i as int),
        decreases len - i,
    {
        if occurs_at(s, part, i) {
            return Some(i);
        }
        i = i + 1;
    }
    None
}

fn seconds_in(field: &[char]) -> (s: Option<i64>)
    ensures
        match s {
            Some(v) => clock_seconds(field@) == Some(v as int),
            None => clock_seconds(field@) is None,
        },
{
    let len: usize = field.len();
    let a: usize = crate::text::find_char(field, ':', 0);
    if a >= len {
        return None;
    }
    let b: usize = crate::text::find_char(field, ':', a + 1);
    if b >= len {
        return None;
    }
    let c: usize = crate::text::find_char(field, ':', b + 1);
    let first: Vec<char> = part_of(field, 0, a);
    assert(first@ =~= field@.take(a as int));
    let h: Vec<char> = trim(first.as_slice());
    let m: Vec<char> = part_of(field, a + 1, b);
    let sec: Vec<char> = part_of(field, b + 1, c);
    match (
        parse_fixed(h.as_slice()),
        parse_fixed(m.as_slice()),
        parse_fixed(sec.as_slice()),
    ) {
        (Some(h), Some(m), Some(s)) => {
            let v: i128 = h as i128 * 3600 + m as i128 * 60 + s as i128;
            if v > i64::MAX as i128 {
                Some(i64::MAX)
            } else if v < -(i64::MAX as i128) {
                Some(-i64::MAX)
            } else {
                Some(v as i64)
            }
        },
        _ => None,
    }
}

/// Reads the length of a video from what an encoder says of it.
pub fn parse_ffmpeg_duration(stderr: &str) -> (d: Option<i64>)
    ensures
        match d {
            Some(v) => duration_in(stderr@) == Some(v as int),
            None => duration_in(stderr@) is None,
        },
{
    let text: Vec<char> = chars_of(stderr);
    let len: usize = text.len();
    let key: Vec<char> = chars_of("Duration: ");
    proof {
        reveal_strlit("Duration: ");
        assert(key@.len() == 10);
    }
    let at: usize = match find_first(text.as_slice(), key.as_slice()) {
        Some(at) => at,
        None => {
            return None;
        },
    };
    assert(at + 10 <= len);
    let from: usize = at + 10;
    let comma: usize = crate::text::find_char(text.as_slice(), ',', from);
    let line: usize = crate::text::find_char(text.as_slice(), '\n', from);
    let end: usize = if comma < line {
        comma
    } else {
        line
    };
    let raw: Vec<char> = part_of(text.as_slice(), from, end);
    assert(raw@ =~= text@.subrange(from as int, end as int));
    let field: Vec<char> = trim(raw.as_slice());
    seconds_in(field.as_slice())
}

/// Whether a character can stand in a frame rate.
pub open spec fn in_rate(c: char) -> bool {
    ('0' <= c && c <= '9') || c == '.'
}

/// Where the digits and points that end at `end` start.
pub open spec fn rate_start(s: Seq<char>, end: int) -> int
    decreases end,
{
    if end > 0 && end <= s.len() && in_rate(s[end - 1]) {
        rate_start(s, end - 1)
    } else {
        end
    }
}

/// The frame rate that stands before `end`, in millionths: between 0 and 1000.
pub open spec fn rate_before(s: Seq<char>, end: int) -> Option<int> {
    match fixed_of(s.subrange(rate_start(s, end), end)) {
        Some(v) => if 0 < v < 1_000_000_000 {
            Some(v)
        } else {
            None
        },
        None => None,
    }
}

/// The last frame rate before ` fps` in the first `n` characters.
pub open spec fn last_rate(s: Seq<char>, n: nat) -> Option<int>
    decreases n,
{
    if n == 0 {
        None
    } else if occurs(s, " fps"@, n - 1) && rate_before(s, n - 1) is Some {
        rate_before(s, n - 1)
    } else {
        last_rate(s, (n - 1) as nat)
    }
}

/// Reads the frame rate of a video from what an encoder says of it: the last one, since a file
/// lists its video behind other streams.
pub fn parse_ffmpeg_fps(stderr: &str) -> (fps: Option<i64>)
    ensures
        match fps {
            Some(v) => last_rate(stderr@, stderr@.len()) == Some(v as int),
            None => last_rate(stderr@, stderr@.len()) is None,
        },
{
    let text: Vec<char> = chars_of(stderr);
    let key: Vec<char> = chars_of(" fps");
    let len: usize = text.len();
    let mut i: usize = len;
    while i > 0
        invariant
            i <= len == text@.len(),
            text@ == stderr@,
            key@ == " fps"@,
            last_rate(text@, len as nat) == last_rate(text@, i as nat),
        decreases i,
    {
        i = i - 1;
        if occurs_at(text.as_slice(), key.as_slice(), i) {
            let mut start: usize = i;
            while start > 0 && (('0' <= text[start - 1] && text[start - 1] <= '9') || text[start
                - 1] == '.')
                invariant
                    start <= i < text@.len(),
                    rate_start(text@, i as int) == rate_start(text@, start as int),
                decreases start,
            {
                start = start - 1;
            }
            let num: Vec<char> = part_of(text.as_slice(), start, i);
            assert(num@ =~= text@.subrange(rate_start(text@, i as int), i as int));
            if let Some(v) = parse_fixed(num.as_slice()) {
                if v > 0 && v < 1_000_000_000 {
                    return Some(v);
                }
            }
        }
    }
    None
}

/// The rate at which a video is decoded.
pub open spec fn decoded_rate(native: Option<i64>, fps: int) -> int {
    match native {
        Some(v) => within(nearest(v as int, ONE as int), 1, fps),
        None => fps,
    }
}

/// The rate at which a video is decoded: its own, at least 1 and at most that of the output.
pub fn decode_rate(native: Option<i64>, fps: u32) -> (r: u32)
    requires
        fps > 0,
    ensures
        r == decoded_rate(native, fps as int),
{
    match native {
        Some(v) => {
            let n: i128 = div_nearest(v as i128, ONE as i128);
            if n < 1 {
                1
            } else if n > fps as i128 {
                fps
            } else {
                n as u32
            }
        },
        None => fps,
    }
}

/// How far a shift can go with the frame still covered: half of what the content has to spare.
pub open spec fn covered_shift(wanted: int, content: int, frame: int) -> int {
    let spare = greater((content - frame) / 2, 0);
    within(wanted, -spare, spare)
}

/// Limits a shift so that the frame stays covered.
pub fn clamp_cover_offset(wanted: i64, content: i64, frame: i64) -> (r: i64)
    ensures
        r == covered_shift(wanted as int, content as int, frame as int),
{
    let d: i128 = content as i128 - frame as i128;
    if d <= 0 {
        return 0;
    }
    let spare: i128 = d / 2;
    let w: i128 = wanted as i128;
    if w < -spare {
        (-spare) as i64
    } else if w > spare {
        spare as i64
    } else {
        wanted
    }
}

/// A frame side under a zoom, to the pixel above.
pub open spec fn zoomed(side: u32, zoom: int) -> int {
    (side * within(zoom, 1_000_000, 4_000_000) + 999_999) / 1_000_000
}

/// A shift in pixels.
pub open spec fn shifted(side: u32, offset: int) -> int {
    nearest(within(offset, -1_000_000, 1_000_000) * side, 1_000_000)
}

/// The part of the filter for one direction: the crop position, kept inside the source.
pub open spec fn crop_expr(name: Seq<char>, side: u32, shift: int) -> Seq<char> {
    "'clip((i"@ + name + "-"@ + decimal(side as nat) + ")/2-("@ + signed_decimal(shift) + "),0,i"@
        + name + "-"@ + decimal(side as nat) + ")'"@
}

/// The filter that fills a frame with a video, zoomed and shifted.
pub open spec fn cover_filter(w: u32, h: u32, o: BackgroundOptions) -> Seq<char> {
    "scale="@ + decimal(zoomed(w, o.zoom as int) as nat) + ":"@ + decimal(
        zoomed(h, o.zoom as int) as nat,
    ) + ":force_original_aspect_ratio=increase,crop="@ + decimal(w as nat) + ":"@ + decimal(
        h as nat,
    ) + ":x="@ + crop_expr("w"@, w, shifted(w, o.offset@[0] as int)) + ":y="@ + crop_expr(
        "h"@,
        h,
        shifted(h, o.offset@[1] as int),
    )
}

fn push_crop(s: &mut String, name: &str, side: u32, shift: i64)
    ensures
        final(s)@ == old(s)@ + crop_expr(name@, side, shift as int),
{
    s.append("'clip((i");
    s.append(name);
    s.append("-");
    push_decimal(s, side as u128);
    s.append(")/2-(");
    push_signed(s, shift as i128);
    s.append("),0,i");
    s.append(name);
    s.append("-");
    push_decimal(s, side as u128);
    s.append(")'");
    assert(s@ =~= old(s)@ + crop_expr(name@, side, shift as int));
}

fn zoom_side(side: u32, zoom: i64) -> (n: u64)
    ensures
        n == zoomed(side, zoom as int),
{
    let z: i64 = limit(zoom, 1_000_000, 4_000_000);
    assert(0 <= side * z <= 0xffff_ffff * 4_000_000) by (nonlinear_arith)
        requires
            0 <= side <= 0xffff_ffff,
            0 <= z <= 4_000_000,
    ;
    (side as u64 * z as u64 + 999_999) / 1_000_000
}

fn shift_side(side: u32, offset: i64) -> (n: i64)
    ensures
        n == shifted(side, offset as int),
{
    let o: i64 = limit(offset, -1_000_000, 1_000_000);
    assert(-1_000_000 * 0xffff_ffff <= o * side <= 1_000_000 * 0xffff_ffff) by (nonlinear_arith)
        requires
            -1_000_000 <= o <= 1_000_000,
            0 <= side <= 0xffff_ffff,
    ;
    div_nearest(o as i128 * side as i128, 1_000_000) as i64
}

/// The filter that fills a frame with a video, zoomed and shifted.
pub fn cover_vf(w: u32, h: u32, opts: &BackgroundOptions) -> (s: String)
    ensures
        s@ == cover_filter(w, h, *opts),
{
    let mut s: String = "scale=".to_owned();
    push_decimal(&mut s, zoom_side(w, opts.zoom) as u128);
    s.append(":");
    push_decimal(&mut s, zoom_side(h, opts.zoom) as u128);
    s.append(":force_original_aspect_ratio=increase,crop=");
    push_decimal(&mut s, w as u128);
    s.append(":");
    push_decimal(&mut s, h as u128);
    s.append(":x=");
    push_crop(&mut s, "w", w, shift_side(w, opts.offset[0]));
    s.append(":y=");
    push_crop(&mut s, "h", h, shift_side(h, opts.offset[1]));
    assert(s@ =~= cover_filter(w, h, *opts));
    s
}

/// Where a clip that follows the song enters the loop of a video: the time of the clip folded
/// into the loop; 0 where the length is unknown or nothing is left to loop.
pub open spec fn loop_offset(elapsed: int, start: int, duration: Option<i64>) -> int {
    let from = greater(start, 0);
    match duration {
        Some(d) => if d - from > 50_000 {
            greater(elapsed, 0) % (d - from)
        } else {
            0
        },
        None => 0,
    }
}

/// Where a clip that follows the song enters the loop of a video. Seconds in millionths.
pub fn sync_offset(elapsed_out_secs: i64, start_secs: i64, duration: Option<i64>) -> (o: i64)
    ensures
        o == loop_offset(elapsed_out_secs as int, start_secs as int, duration),
{
    let from: i64 = if start_secs > 0 {
        start_secs
    } else {
        0
    };
    match duration {
        Some(d) => {
            let span: i128 = d as i128 - from as i128;
            if span > 50_000 {
                let e: i128 = if elapsed_out_secs > 0 {
                    elapsed_out_secs as i128
                } else {
                    0
                };
                (e % span) as i64
            } else {
                0
            }
        },
        None => 0,
    }
}

/// The second of a video that a preview shows: folded into the loop where its length is known.
pub open spec fn preview_second(t: int, start: int, duration: Option<i64>) -> int {
    let from = greater(start, 0);
    match duration {
        Some(d) => if d - from > 50_000 {
            from + greater(t, 0) % (d - from)
        } else {
            from + greater(t, 0)
        },
        None => from + greater(t, 0),
    }
}

/// The second of a video that a preview shows, in millionths.
pub fn preview_time(t_secs: i64, start_secs: i64, duration: Option<i64>) -> (t: i128)
    ensures
        t == preview_second(t_secs as int, start_secs as int, duration),
{
    let from: i128 = if start_secs > 0 {
        start_secs as i128
    } else {
        0
    };
    let e: i128 = if t_secs > 0 {
        t_secs as i128
    } else {
        0
    };
    match duration {
        Some(d) => {
            let span: i128 = d as i128 - from;
            if span > 50_000 {
                from + e % span
            } else {
                from + e
            }
        },
        None => from + e,
    }
}

/// The arguments before the file in decoding a video: where it starts.
pub open spec fn decode_head(start: int) -> Seq<Seq<char>> {
    seq!["-loglevel"@, "error"@] + (if start > 0 {
        seq!["-ss"@, rounded(start, 1_000_000, 3)]
    } else {
        Seq::empty()
    }) + seq!["-an"@, "-i"@]
}

/// The arguments before the file in decoding a video.
pub fn decode_head_args(start_secs: i64) -> (args: Vec<String>)
    ensures
        texts(args@) == decode_head(start_secs as int),
{
    let mut args: Vec<String> = Vec::new();
    put(&mut args, "-loglevel");
    put(&mut args, "error");
    if start_secs > 0 {
        let mut at: String = String::new();
        push_rounded(&mut at, start_secs as i128, 1_000_000, 3);
        assert(at@ =~= rounded(start_secs as int, 1_000_000, 3));
        put(&mut args, "-ss");
        put(&mut args, at.as_str());
    }
    put(&mut args, "-an");
    put(&mut args, "-i");
    assert(texts(args@) =~= decode_head(start_secs as int));
    args
}

/// The arguments behind the file in decoding a video.
pub fn decode_tail_args(w: u32, h: u32, fps: u32, opts: &BackgroundOptions) -> (args: Vec<String>)
    ensures
        texts(args@) == seq![
            "-f"@,
            "rawvideo"@,
            "-pix_fmt"@,
            "rgba"@,
            "-vf"@,
            cover_filter(w, h, *opts),
            "-r"@,
            decimal(fps as nat),
            "pipe:1"@,
        ],
{
    let mut args: Vec<String> = Vec::new();
    let mut rate: String = String::new();
    push_decimal(&mut rate, fps as u128);
    assert(rate@ =~= decimal(fps as nat));
    put(&mut args, "-f");
    put(&mut args, "rawvideo");
    put(&mut args, "-pix_fmt");
    put(&mut args, "rgba");
    put(&mut args, "-vf");
    put(&mut args, cover_vf(w, h, opts).as_str());
    put(&mut args, "-r");
    put(&mut args, rate.as_str());
    put(&mut args, "pipe:1");
    assert(texts(args@) =~= seq![
        "-f"@,
        "rawvideo"@,
        "-pix_fmt"@,
        "rgba"@,
        "-vf"@,
        cover_filter(w, h, *opts),
        "-r"@,
        decimal(fps as nat),
        "pipe:1"@,
    ]);
    args
}

/// Frames of a loop are kept in memory up to this many bytes.
pub const LOOP_BUF_CAP: usize = 67_108_864;

/// What a decoder has to do for the next frame.
#[derive(Debug, Clone, Copy, PartialEq, Eq, Structural)]
pub enum Need {
    /// There is no new frame: what is shown stays.
    Keep,
    /// The frame is one of those in memory.
    Recall(usize),
    /// A frame is to be read from the running process.
    Read,
    /// The process is to be started again, and a frame read from it.
    Restart,
}

/// A looping decoder of a video: how far it is, and the frames of a short loop.
#[derive(Debug, Clone)]
pub struct VideoDecoder {
    /// Frames that the running process gave.
    pub child_frames: u64,
    /// Frames of the first pass, while they fit.
    pub loop_buf: Vec<Vec<u8>>,
    /// Bytes in these.
    pub loop_bytes: usize,
    /// Whether the first pass is still being kept.
    pub buffering: bool,
    /// Whether the loop comes from memory.
    pub mem_loop: bool,
    /// Next frame of the loop in memory.
    pub buf_idx: usize,
    /// Bytes in one frame.
    pub frame_len: usize,
    /// Whether nothing more comes.
    pub done: bool,
}

impl VideoDecoder {
    /// What holds in every state.
    pub open spec fn well_formed(&self) -> bool {
        &&& self.loop_bytes <= LOOP_BUF_CAP
        &&& self.loop_bytes == self.loop_buf@.len() * self.frame_len
        &&& forall|i: int|
            0 <= i < self.loop_buf@.len() ==> (#[trigger] self.loop_buf@[i])@.len()
                == self.frame_len
        &&& self.mem_loop ==> self.buf_idx < self.loop_buf@.len() && !self.buffering
        &&& self.frame_len > 0
    }

    /// A decoder whose process was just started. The first pass is kept only where it starts at
    /// the start of the loop.
    pub fn new(frame_len: usize, opts: &BackgroundOptions) -> (d: VideoDecoder)
        requires
            frame_len > 0,
        ensures
            d.well_formed(),
            d.frame_len == frame_len,
            d.buffering == (opts.sync_offset_secs <= 0),
            d.child_frames == 0,
            d.loop_buf@.len() == 0,
            !d.mem_loop,
            !d.done,
    {
        VideoDecoder {
            child_frames: 0,
            loop_buf: Vec::new(),
            loop_bytes: 0,
            buffering: opts.sync_offset_secs <= 0,
            mem_loop: false,
            buf_idx: 0,
            frame_len,
            done: false,
        }
    }

    /// What is to be done to fill a buffer of a length with the next frame.
    pub fn next(&mut self, len: usize) -> (need: Need)
        requires
            old(self).well_formed(),
        ensures
            final(self).well_formed(),
            need == (if len != old(self).frame_len {
                Need::Keep
            } else if old(self).mem_loop {
                Need::Recall(old(self).buf_idx)
            } else if old(self).done {
                Need::Keep
            } else {
                Need::Read
            }),
            *final(self) == (if need is Recall {
                VideoDecoder {
                    buf_idx: if old(self).buf_idx + 1 < old(self).loop_buf@.len() {
                        (old(self).buf_idx + 1) as usize
                    } else {
                        0
                    },
                    ..*old(self)
                }
            } else {
                *old(self)
            }),
    {
        if len != self.frame_len {
            return Need::Keep;
        }
        if self.mem_loop {
            let at: usize = self.buf_idx;
            self.buf_idx = if self.loop_buf.len() - at > 1 {
                at + 1
            } else {
                0
            };
            return Need::Recall(at);
        }
        if self.done {
            return Need::Keep;
        }
        Need::Read
    }

    /// A frame was read from the running process.
    pub fn frame_read(&mut self, frame: &[u8])
        requires
            old(self).well_formed(),
            !old(self).mem_loop,
            frame@.len() == old(self).frame_len,
            old(self).child_frames < u64::MAX,
        ensures
            final(self).well_formed(),
            final(self).child_frames == old(self).child_frames + 1,
            final(self).done == old(self).done,
            !final(self).mem_loop,
            final(self).frame_len == old(self).frame_len,
            final(self).buffering == (old(self).buffering && old(self).loop_bytes + frame@.len()
                <= LOOP_BUF_CAP),
            old(self).buffering ==> match final(self).buffering {
                true => {
                    &&& final(self).loop_buf@.len() == old(self).loop_buf@.len() + 1
                    &&& final(self).loop_buf@.drop_last() == old(self).loop_buf@
                    &&& final(self).loop_buf@.last()@ == frame@
                },
                false => final(self).loop_buf@.len() == 0,
            },
            !old(self).buffering ==> final(self).loop_buf@ == old(self).loop_buf@,
    {
        self.child_frames = self.child_frames + 1;
        if self.buffering {
            if LOOP_BUF_CAP - self.loop_bytes >= frame.len() {
                self.loop_buf.push(vstd::slice::slice_to_vec(frame));
                assert(self.loop_buf@.drop_last() =~= old(self).loop_buf@);
                proof {
                    let n = old(self).loop_buf@.len() as int;
                    let one = self.frame_len as int;
                    assert((n + 1) * one == n * one + one) by (nonlinear_arith);
                }
                self.loop_bytes = self.loop_bytes + frame.len();
                assert(self.loop_bytes == self.loop_buf@.len() * self.frame_len);
                assert forall|i: int| 0 <= i < self.loop_buf@.len() implies (
                #[trigger] self.loop_buf@[i])@.len() == self.frame_len by {
                    if i < self.loop_buf@.len() - 1 {
                        assert(self.loop_buf@[i] == old(self).loop_buf@[i]);
                    }
                }
            } else {
                self.buffering = false;
                self.loop_buf = Vec::new();
                self.loop_bytes = 0;
                assert(0 * self.frame_len == 0) by (nonlinear_arith);
            }
        }
    }

    /// Nothing could be read from the running process, which is over. A process that gave nothing
    /// is broken and is not started again.
    pub fn read_failed(&mut self) -> (need: Need)
        requires
            old(self).well_formed(),
            !old(self).mem_loop,
        ensures
            final(self).well_formed(),
            need == (if old(self).child_frames == 0 {
                Need::Keep
            } else if old(self).buffering && old(self).loop_buf@.len() > 0 {
                Need::Recall(0)
            } else {
                Need::Restart
            }),
            *final(self) == (match need {
                Need::Keep => VideoDecoder { done: true, ..*old(self) },
                Need::Recall(_) => VideoDecoder {
                    buffering: false,
                    mem_loop: true,
                    buf_idx: if old(self).loop_buf@.len() > 1 {
                        1
                    } else {
                        0
                    },
                    ..*old(self)
                },
                _ => VideoDecoder { child_frames: 0, ..*old(self) },
            }),
    {
        if self.child_frames == 0 {
            self.done = true;
            return Need::Keep;
        }
        if self.buffering && self.loop_buf.len() > 0 {
            self.buffering = false;
            self.mem_loop = true;
            self.buf_idx = if self.loop_buf.len() > 1 {
                1
            } else {
                0
            };
            return Need::Recall(0);
        }
        self.child_frames = 0;
        Need::Restart
    }

    /// The process was started again, and a frame was read from it or not.
    pub fn restarted(&mut self, read: bool)
        requires
            old(self).well_formed(),
        ensures
            final(self).well_formed(),
            *final(self) == (if read {
                VideoDecoder { child_frames: 1, ..*old(self) }
            } else {
                VideoDecoder { done: true, ..*old(self) }
            }),
    {
        if read {
            self.child_frames = 1;
        } else {
            self.done = true;
        }
    }
}

/// When a new frame of a video is due: the frames owed, in shares of an output frame.
#[derive(Debug, Clone, Copy, PartialEq, Eq, Structural)]
pub struct Pacer {
    /// Video frames in the time of `out` output frames.
    pub src: u64,
    /// Output frames.
    pub out: u64,
    /// Video frames owed, times `out`.
    pub owed: u64,
}

/// The state behind the next output frame, and whether it gets a new frame.
pub open spec fn paced(p: Pacer) -> (Pacer, bool) {
    let owed = p.owed + p.src;
    if owed < p.out {
        (Pacer { owed: owed as u64, ..p }, false)
    } else {
        (Pacer { owed: (owed - p.out) as u64, ..p }, true)
    }
}

impl Pacer {
    /// What holds in every state.
    pub open spec fn well_formed(&self) -> bool {
        &&& self.src <= self.out
        &&& self.owed <= self.out
        &&& 0 < self.out <= u32::MAX
    }

    /// A video at one rate under an output at another. The first output frame gets the first
    /// frame of the video.
    pub fn new(src_fps: u32, out_fps: u32) -> (p: Pacer)
        ensures
            p.well_formed(),
            p.out == greater(out_fps as int, 1),
            p.src == (if src_fps < p.out {
                src_fps as int
            } else {
                p.out as int
            }),
            p.owed == p.out - p.src,
    {
        let out: u64 = if out_fps > 1 {
            out_fps as u64
        } else {
            1
        };
        let src: u64 = if (src_fps as u64) < out {
            src_fps as u64
        } else {
            out
        };
        Pacer { src, out, owed: out - src }
    }

    /// Whether the next output frame gets a new frame of the video.
    pub fn due(&mut self) -> (r: bool)
        requires
            old(self).well_formed(),
        ensures
            final(self).well_formed(),
            (*final(self), r) == paced(*old(self)),
    {
        self.owed = self.owed + self.src;
        if self.owed < self.out {
            false
        } else {
            self.owed = self.owed - self.out;
            true
        }
    }
}

/// The state after `n` output frames, and how many of them got a new frame.
pub open spec fn paced_times(p: Pacer, n: nat) -> (Pacer, nat)
    decreases n,
{
    if n == 0 {
        (p, 0)
    } else {
        let (q, k) = paced_times(p, (n - 1) as nat);
        let (r, due) = paced(q);
        (r, if due {
            k + 1
        } else {
            k
        })
    }
}

/// A video keeps its own rate: its first frame is shown at once, and of the output frames after
/// that one it has its share, rounded down.
pub proof fn law_video_keeps_its_rate(p: Pacer, n: nat)
    requires
        p.well_formed(),
        0 < p.src,
        p.owed == p.out - p.src,
    ensures
        paced(p).1,
        ({
            let (q, k) = paced_times(p, n);
            &&& q.well_formed()
            &&& q.out == p.out && q.src == p.src
            &&& k * p.out <= p.out + (n - 1) * p.src < (k + 1) * p.out
        }),
{
    lemma_paced(p, n);
    let (q, k) = paced_times(p, n);
    assert((k + 1) * p.out == k * p.out + p.out) by (nonlinear_arith);
}

proof fn lemma_paced(p: Pacer, n: nat)
    requires
        p.well_formed(),
        0 < p.src,
        p.owed == p.out - p.src,
    ensures
        ({
            let (q, k) = paced_times(p, n);
            &&& q.well_formed()
            &&& q.owed < q.out
            &&& q.out == p.out && q.src == p.src
            &&& k * p.out + q.owed == p.out + (n - 1) * p.src
        }),
    decreases n,
{
    if n > 0 {
        lemma_paced(p, (n - 1) as nat);
        let (q, k) = paced_times(p, (n - 1) as nat);
        assert((n - 2) * p.src + p.src == (n - 1) * p.src) by (nonlinear_arith);
        assert((k + 1) * p.out == k * p.out + p.out) by (nonlinear_arith);
    } else {
        assert((0 - 1) * p.src == -p.src && 0 * p.out == 0) by (nonlinear_arith);
    }
}

/// Under an output at twice its rate, a video gives every second output frame a new picture,
/// from the first on.
pub proof fn law_half_rate_alternates(p: Pacer, n: nat)
    requires
        p.well_formed(),
        p.out == 2 * p.src,
        p.owed == p.out - p.src,
    ensures
        paced(paced_times(p, n).0).1 == (n % 2 == 0),
{
    lemma_half_rate(p, n);
}

proof fn lemma_half_rate(p: Pacer, n: nat)
    requires
        p.well_formed(),
        p.out == 2 * p.src,
        p.owed == p.src,
    ensures
        ({
            let q = paced_times(p, n).0;
            &&& q.out == p.out && q.src == p.src
            &&& q.owed == if n % 2 == 0 {
                p.src as int
            } else {
                0
            }
        }),
    decreases n,
{
    if n > 0 {
        lemma_half_rate(p, (n - 1) as nat);
    }
}

/// A shifted background still covers the frame: on both sides at least half of the content, less
/// the shift, reaches the edge.
pub proof fn law_shift_keeps_the_frame_covered(wanted: int, content: int, frame: int)
    requires
        content >= frame,
    ensures
        content - 2 * magnitude(covered_shift(wanted, content, frame)) >= frame,
        content == frame ==> covered_shift(wanted, content, frame) == 0,
{
}

/// A loop offset lies within the loop.
pub proof fn law_offset_lies_in_the_loop(elapsed: int, start: int, duration: Option<i64>)
    ensures
        0 <= loop_offset(elapsed, start, duration),
        duration matches Some(d) ==> d - greater(start, 0) > 50_000 ==> loop_offset(
            elapsed,
            start,
            duration,
        ) < d - greater(start, 0),
{
}

/// A background of the user's own covers the frame from its middle, moved right and down by the
/// offsets and enlarged by the zoom, in both directions alike, and never smaller than the frame.
pub proof fn law_backgrounds_go_where_they_are_put(o: BackgroundOptions, turned: BackgroundOptions)
    requires
        turned.offset@[0] == o.offset@[1],
        turned.offset@[1] == o.offset@[0],
        turned.zoom == o.zoom,
    ensures
        magnitude(o.offset@[0] as int) <= 1_000_000 ==> covering(o).center_x == 500_000
            + o.offset@[0],
        magnitude(o.offset@[1] as int) <= 1_000_000 ==> covering(o).center_y == 500_000
            + o.offset@[1],
        1_000_000 <= o.zoom <= 4_000_000 ==> covering(o).scale_x == o.zoom,
        covering(o).scale_x == covering(o).scale_y >= 1_000_000,
        covering(turned).center_x == covering(o).center_y,
        covering(turned).center_y == covering(o).center_x,
        !covering(o).flip_horizontal,
{
}

/// A zoomed side is no shorter than asked for and no more than a pixel longer, so that it covers
/// its side of the frame; a shift is the offset's share of the side and goes its way.
pub proof fn law_zoomed_sides_cover(side: u32, zoom: int, offset: int)
    ensures
        zoomed(side, zoom) >= side,
        1_000_000 <= zoom <= 4_000_000 ==> side * zoom <= 1_000_000 * zoomed(side, zoom) < side
            * zoom + 1_000_000,
        zoom < 1_000_000 ==> zoomed(side, zoom) == side,
        magnitude(offset) <= 1_000_000 ==> 2 * magnitude(
            1_000_000 * shifted(side, offset) - offset * side,
        ) <= 1_000_000,
        shifted(side, -offset) == -shifted(side, offset),
        offset >= 1_000_000 ==> shifted(side, offset) == side,
        shifted(side, 0) == 0,
{
    let z = within(zoom, 1_000_000, 4_000_000);
    assert(side * z >= side * 1_000_000) by (nonlinear_arith)
        requires
            z >= 1_000_000,
            side >= 0,
    ;
    let o = within(offset, -1_000_000, 1_000_000);
    law_rounding_is_closest(o * side, 1_000_000);
    assert((-o) * side == -(o * side)) by (nonlinear_arith);
    law_rounding_keeps_whole_numbers(side as int, 0, 1_000_000);
    law_rounding_keeps_whole_numbers(0, 0, 1_000_000);
    assert(0 * (side as int) == 0) by (nonlinear_arith);
}

/// A looping video is, after any time, as far into its loop as that time goes beyond whole loops;
/// a preview shows it that far behind its start, and a video without a loop goes on from there.
pub proof fn law_loops_come_round(elapsed: int, start: int, d: i64, rounds: int)
    requires
        elapsed >= 0,
        rounds >= 0,
    ensures
        ({
            let from = greater(start, 0);
            let len = d - from;
            &&& len > 50_000 ==> {
                let off = loop_offset(elapsed, start, Some(d));
                &&& 0 <= off < len
                &&& (elapsed - off) % len == 0
                &&& loop_offset(elapsed + rounds * len, start, Some(d)) == off
                &&& preview_second(elapsed, start, Some(d)) == from + off
                &&& from <= preview_second(elapsed, start, Some(d)) < d
                &&& elapsed < len ==> off == elapsed
            }
            &&& len <= 50_000 ==> loop_offset(elapsed, start, Some(d)) == 0
            &&& preview_second(elapsed, start, None) == from + elapsed
        }),
{
    let from = greater(start, 0);
    let len = d - from;
    if len > 50_000 {
        let off = elapsed % len;
        vstd::arithmetic::div_mod::lemma_fundamental_div_mod(elapsed, len);
        vstd::arithmetic::div_mod::lemma_mod_bound(elapsed, len);
        vstd::arithmetic::div_mod::lemma_mod_multiples_basic(elapsed / len, len);
        assert(elapsed - off == (elapsed / len) * len) by (nonlinear_arith)
            requires
                elapsed == len * (elapsed / len) + off,
        ;
        vstd::arithmetic::div_mod::lemma_mod_multiples_vanish(rounds, elapsed, len);
        assert(len * rounds + elapsed == elapsed + rounds * len) by (nonlinear_arith);
        assert(rounds * len >= 0) by (nonlinear_arith)
            requires
                rounds >= 0,
                len > 0,
        ;
        if elapsed < len {
            vstd::arithmetic::div_mod::lemma_small_mod(elapsed as nat, len as nat);
        }
    }
}

/// A video is decoded at its own rate, to the nearest whole one, but never faster than the output
/// and never at less than one frame a second; one of unknown rate goes at that of the output.
pub proof fn law_videos_are_decoded_at_their_rate(v: i64, fps: int)
    requires
        fps >= 1,
    ensures
        1 <= decoded_rate(Some(v), fps) <= fps,
        decoded_rate(None, fps) == fps,
        1_000_000 <= v <= fps * 1_000_000 ==> 2 * magnitude(
            1_000_000 * decoded_rate(Some(v), fps) - v,
        ) <= 1_000_000,
        v >= fps * 1_000_000 ==> decoded_rate(Some(v), fps) == fps,
        v <= 1_000_000 ==> decoded_rate(Some(v), fps) == 1,
{
    law_rounding_is_closest(v as int, 1_000_000);
    law_rounding_keeps_whole_numbers(fps, 0, 1_000_000);
    law_rounding_keeps_whole_numbers(1, 0, 1_000_000);
    if v >= fps * 1_000_000 {
        law_rounding_is_monotone(fps * 1_000_000, v as int, 1_000_000);
    }
    if v <= 1_000_000 {
        law_rounding_is_monotone(v as int, 1_000_000, 1_000_000);
    }
    if 1_000_000 <= v <= fps * 1_000_000 {
        law_rounding_is_monotone(v as int, fps * 1_000_000, 1_000_000);
        law_rounding_is_monotone(1_000_000, v as int, 1_000_000);
    }
}

} // verus!
