//! The plan of a video export: how long the clip is, what the encoder is told, and in which order
//! frames are drawn and read back.

use vstd::prelude::*;

use crate::audio::{frame_of, law_sounds_keep_the_time_of_the_video};
use crate::encoder::{args_for, filter_for, video_encoder_args, EncoderArgs};
use crate::error::Error;
use crate::fixed::{
    div_nearest, greater, law_rounding_is_closest, law_rounding_is_monotone,
    law_rounding_keeps_whole_numbers, lesser, magnitude, nearest, within, ONE,
};
use crate::mods::texts;
use crate::replay::Replay;
use crate::text::{
    chars_of, contains, decimal, holds, part_of, push_decimal, push_rounded, rounded, same_text,
    text_of,
};
use crate::transport::{frame_source, size_of, size_text, source_of};

verus! {

/// What the user chose for an export. Times are in millionths of a millisecond, volumes and
/// seconds in millionths.
#[derive(Debug, Clone)]
pub struct VideoOptions {
    pub fps: u32,
    /// Song time at which the video starts.
    pub start_ms: i64,
    /// Song time at which the video ends.
    pub end_ms: i64,
    /// Whether there is a song to go with it.
    pub audio: bool,
    /// Quality from 0 to 100, higher is better.
    pub quality: u32,
    /// Speed preset.
    pub preset: String,
    /// Encoder: `x264`, `nvenc`, `qsv`, `amf` or `vaapi`.
    pub encoder: String,
    /// Seconds of results screen behind the clip.
    pub results_secs: i64,
    /// Motion blur from 0 to 2.
    pub motion_blur: u32,
    /// Volume of the song.
    pub music_volume: i64,
    /// More arguments, just before the output.
    pub extra_output_args: Vec<String>,
    /// Whether frames go over a socket.
    pub tcp_feed: bool,
    /// Bytes written to the socket at once; 0 is the whole frame.
    pub socket_chunk: usize,
    /// Whether frames are thrown away instead of encoded.
    pub discard_output: bool,
}

impl Default for VideoOptions {
    fn default() -> (o: VideoOptions)
        ensures
            o.fps == 60,
            o.start_ms == 0,
            o.end_ms == 0,
            !o.audio,
            o.quality == crate::quality::DEFAULT,
            o.preset@ == "veryfast"@,
            o.encoder@ == "x264"@,
            o.results_secs == 4_000_000,
            o.motion_blur == 0,
            o.music_volume == ONE,
            o.extra_output_args@.len() == 0,
            !o.tcp_feed,
            o.socket_chunk == 262_144,
            !o.discard_output,
    {
        VideoOptions {
            fps: 60,
            start_ms: 0,
            end_ms: 0,
            audio: false,
            quality: crate::quality::DEFAULT,
            preset: "veryfast".to_owned(),
            encoder: "x264".to_owned(),
            results_secs: 4_000_000,
            motion_blur: 0,
            music_volume: ONE,
            extra_output_args: Vec::new(),
            tcp_feed: false,
            socket_chunk: 262_144,
            discard_output: false,
        }
    }
}

/// The hit and miss sounds, and their volume in millionths.
#[derive(Debug, Clone)]
pub struct HitsoundOptions {
    pub hit_wav: Vec<u8>,
    pub miss_wav: Option<Vec<u8>>,
    pub volume: i64,
}

/// A run that is raced against, and its colour with channels from 0 to 1 in millionths.
#[derive(Debug, Clone)]
pub struct GhostOptions {
    pub replay: Replay,
    pub color: [i64; 3],
}

/// Two runs can race where their speeds differ by no more than 0.005.
pub open spec fn same_speed(main: i64, ghost: i64) -> bool {
    magnitude(ghost - main) <= 5_000
}

/// Refuses a ghost that ran at another speed: both runs share one timeline.
pub fn check_ghost(main: i64, ghost: i64) -> (r: Result<(), Error>)
    ensures
        match r {
            Ok(_) => same_speed(main, ghost),
            Err(Error::GhostRun(text)) => !same_speed(main, ghost) && text@
                == "speed mods must match: main "@ + rounded(main as int, 1_000_000, 2)
                + "x, ghost "@ + rounded(ghost as int, 1_000_000, 2) + "x"@,
            Err(_) => false,
        },
{
    let d: i128 = ghost as i128 - main as i128;
    if -5_000 <= d && d <= 5_000 {
        return Ok(());
    }
    let mut text: String = "speed mods must match: main ".to_owned();
    push_rounded(&mut text, main as i128, 1_000_000, 2);
    text.append("x, ghost ");
    push_rounded(&mut text, ghost as i128, 1_000_000, 2);
    text.append("x");
    Err(Error::GhostRun(text))
}

/// The clip that an export makes.
#[derive(Debug, Clone, Copy, PartialEq, Eq)]
pub struct ClipPlan {
    /// Song time at which the clip starts.
    pub start_ms: i64,
    /// Song time at which the clip ends.
    pub end_ms: i64,
    /// Playback speed.
    pub speed: i64,
    pub fps: u32,
    /// Song time that the clip covers.
    pub span_ms: i64,
    /// Frames of the run.
    pub play_frames: u64,
    /// Frames of the results screen.
    pub results_frames: u64,
}

/// The longest results screen that a clip is planned for, in millionths of a second.
pub const RESULTS_LIMIT: i64 = 1_000_000_000_000;

/// The largest time in a clip, in millionths of a millisecond: up to here its frames can be
/// counted at any rate.
pub const CLIP_LIMIT: i64 = 250_000_000_000_000_000;

/// Whether a clip can start or end at a time.
pub open spec fn in_clip(ms: i64) -> bool {
    magnitude(ms as int) <= CLIP_LIMIT
}

/// Where a run ends: a failed one at its fail time.
pub open spec fn run_end(replay: Replay) -> int {
    if replay.failed {
        replay.fail_time_ms * ONE
    } else {
        replay.length_ms as int
    }
}

/// Where a clip ends: not behind the end of the run.
pub open spec fn clip_end(opts: VideoOptions, replay: Replay) -> int {
    lesser(opts.end_ms as int, greater(run_end(replay), opts.start_ms as int))
}

/// Whether the results are shown: only where the clip reaches the last half second of the run.
pub open spec fn shows_results(opts: VideoOptions, replay: Replay) -> bool {
    opts.results_secs > 0 && clip_end(opts, replay) >= run_end(replay) - 500_000_000
}

/// The playback speed of a clip.
pub open spec fn clip_speed(replay: Replay) -> int {
    within(replay.speed as int, 250_000, 3_000_000)
}

/// `n / d` to the whole above.
pub open spec fn ceiling(n: int, d: int) -> int {
    (n + d - 1) / d
}

/// Whether this is the clip that an export makes.
pub open spec fn is_plan(p: ClipPlan, opts: VideoOptions, replay: Replay) -> bool {
    &&& p.start_ms == opts.start_ms
    &&& p.end_ms == clip_end(opts, replay)
    &&& p.speed == clip_speed(replay)
    &&& p.fps == opts.fps
    &&& p.span_ms == greater(p.end_ms - p.start_ms, 0)
    &&& p.play_frames == greater(ceiling(p.span_ms * p.fps, p.speed * 1000), 1)
    &&& p.results_frames == (if shows_results(opts, replay) {
        ceiling(opts.results_secs * opts.fps, ONE as int)
    } else {
        0
    })
}

/// Plans the clip of an export.
pub fn plan_clip(opts: &VideoOptions, replay: &Replay) -> (p: ClipPlan)
    requires
        opts.fps > 0,
        in_clip(opts.start_ms),
        in_clip(opts.end_ms),
        opts.results_secs <= RESULTS_LIMIT,
    ensures
        is_plan(p, *opts, *replay),
        p.play_frames + p.results_frames <= u64::MAX,
        0 < p.fps,
        250_000 <= p.speed <= 3_000_000,
        0 <= p.span_ms <= 500_000_000_000_000_000,
        in_clip(p.start_ms),
        p.results_frames < 5_000_000_000_000_000,
{
    let run: i128 = if replay.failed {
        replay.fail_time_ms as i128 * ONE as i128
    } else {
        replay.length_ms as i128
    };
    let start: i128 = opts.start_ms as i128;
    let reach: i128 = if run > start {
        run
    } else {
        start
    };
    let end: i128 = if (opts.end_ms as i128) < reach {
        opts.end_ms as i128
    } else {
        reach
    };
    let results: bool = opts.results_secs > 0 && end >= run - 500_000_000;
    let speed: i64 = if replay.speed < 250_000 {
        250_000
    } else if replay.speed > 3_000_000 {
        3_000_000
    } else {
        replay.speed
    };
    let span: i128 = if end > start {
        end - start
    } else {
        0
    };
    assert(0 <= span * opts.fps <= 500_000_000_000_000_000 * 0xffff_ffff) by (nonlinear_arith)
        requires
            0 <= span <= 500_000_000_000_000_000,
            0 < opts.fps <= 0xffff_ffff,
    ;
    let n: i128 = span * opts.fps as i128;
    let d: i128 = speed as i128 * 1000;
    let frames: i128 = (n + d - 1) / d;
    assert(0 <= frames <= 8_700_000_000_000_000_000) by (nonlinear_arith)
        requires
            frames == (n + d - 1) / d as int,
            0 <= n <= 500_000_000_000_000_000 * 0xffff_ffff,
            250_000_000 <= d <= 3_000_000_000,
    ;
    let play: u64 = if frames > 1 {
        frames as u64
    } else {
        1
    };
    let shown: u64 = if results {
        assert(0 <= opts.results_secs * opts.fps <= 1_000_000_000_000 * 0xffff_ffff)
            by (nonlinear_arith)
            requires
                0 <= opts.results_secs <= 1_000_000_000_000,
                0 < opts.fps <= 0xffff_ffff,
        ;
        ((opts.results_secs as i128 * opts.fps as i128 + (ONE as i128 - 1)) / ONE as i128) as u64
    } else {
        0
    };
    ClipPlan {
        start_ms: opts.start_ms,
        end_ms: end as i64,
        speed,
        fps: opts.fps,
        span_ms: span as i64,
        play_frames: play,
        results_frames: shown,
    }
}

/// The song time of frame `i`: at a higher speed each frame covers more of the song.
pub open spec fn song_time(p: ClipPlan, i: int) -> int {
    p.start_ms + nearest(i * p.speed * 1000, p.fps as int)
}

impl ClipPlan {
    /// The song time of a frame of the run.
    pub fn song_ms(&self, i: u64) -> (t: i128)
        requires
            0 < self.fps,
            0 < self.speed <= 3_000_000,
        ensures
            t == song_time(*self, i as int),
    {
        assert(0 <= i * self.speed * 1000 <= 0xffff_ffff_ffff_ffff * 3_000_000_000)
            by (nonlinear_arith)
            requires
                0 <= i <= 0xffff_ffff_ffff_ffff,
                0 < self.speed <= 3_000_000,
        ;
        assert(0 <= i * self.speed <= 0xffff_ffff_ffff_ffff * 3_000_000) by (nonlinear_arith)
            requires
                0 <= i <= 0xffff_ffff_ffff_ffff,
                0 < self.speed <= 3_000_000,
        ;
        let n: i128 = i as i128 * self.speed as i128 * 1000;
        self.start_ms as i128 + div_nearest(n, self.fps as i128)
    }
}

/// One argument of the encoder: words, or a path that only the caller knows.
#[derive(Debug, Clone)]
pub enum Arg {
    Text(String),
    /// The song.
    Audio,
    /// The track with the hit sounds.
    Hitsounds,
    /// The file that is written.
    Output,
}

/// An argument as plain text.
pub enum ArgModel {
    Text(Seq<char>),
    Audio,
    Hitsounds,
    Output,
}

impl View for Arg {
    type V = ArgModel;

    open spec fn view(&self) -> ArgModel {
        match self {
            Arg::Text(s) => ArgModel::Text(s@),
            Arg::Audio => ArgModel::Audio,
            Arg::Hitsounds => ArgModel::Hitsounds,
            Arg::Output => ArgModel::Output,
        }
    }
}

/// Arguments as plain text.
pub open spec fn arg_models(list: Seq<Arg>) -> Seq<ArgModel> {
    Seq::new(list.len(), |i: int| list[i]@)
}

/// Words as arguments.
pub open spec fn said(words: Seq<Seq<char>>) -> Seq<ArgModel> {
    Seq::new(words.len(), |i: int| ArgModel::Text(words[i]))
}

/// What is known of an export when the encoder is started.
#[derive(Debug, Clone)]
pub struct EncodeJob {
    pub width: u32,
    pub height: u32,
    /// Whether frames are handed over as NV12.
    pub feed_nv12: bool,
    /// Port of the socket that frames go over; none for the standard input.
    pub port: Option<u16>,
    /// VA-API device, where one was found.
    pub vaapi_device: Option<String>,
    /// Whether VA-API takes the better rate control.
    pub vaapi_icq: bool,
    /// Whether there is a track with hit sounds.
    pub hitsounds: bool,
}

/// The arguments before the inputs.
pub open spec fn head_args(opts: VideoOptions, job: EncodeJob) -> Seq<ArgModel> {
    said(seq!["-y"@, "-loglevel"@, "error"@, "-nostats"@]) + (match job.vaapi_device {
        Some(dev) => if opts.encoder@ == "vaapi"@ {
            said(seq!["-vaapi_device"@, dev@])
        } else {
            Seq::empty()
        },
        None => Seq::empty(),
    })
}

/// The inputs: frames, song and hit sounds.
pub open spec fn input_args(opts: VideoOptions, job: EncodeJob) -> Seq<ArgModel> {
    said(
        seq![
            "-f"@,
            "rawvideo"@,
            "-pix_fmt"@,
            if job.feed_nv12 {
                "nv12"@
            } else {
                "rgba"@
            },
            "-s"@,
            size_of(job.width, job.height),
            "-r"@,
            decimal(opts.fps as nat),
            "-i"@,
            source_of(job.port),
        ],
    ) + (if opts.audio {
        said(seq!["-ss"@, rounded(opts.start_ms as int, 1_000_000_000, 3), "-i"@]) + seq![
            ArgModel::Audio,
        ] + (if job.hitsounds {
            said(seq!["-i"@]) + seq![ArgModel::Hitsounds]
        } else {
            Seq::empty()
        })
    } else {
        Seq::empty()
    })
}

/// The filter that blends neighbouring frames; empty for no motion blur.
pub open spec fn blur(strength: u32) -> Seq<char> {
    if strength == 0 {
        Seq::empty()
    } else if strength == 1 {
        "tmix=frames=2"@
    } else {
        "tmix=frames=3"@
    }
}

/// The filters before the encoder.
pub open spec fn filter_chain(blur: Seq<char>, filter: Seq<char>) -> Seq<char> {
    if blur.len() == 0 {
        filter
    } else if filter.len() == 0 {
        blur
    } else {
        blur + ","@ + filter
    }
}

/// How the video is encoded.
pub open spec fn video_args(opts: VideoOptions, job: EncodeJob) -> Seq<ArgModel> {
    if opts.discard_output {
        said(seq!["-c:v"@, "copy"@, "-an"@])
    } else {
        let chain = filter_chain(
            blur(opts.motion_blur),
            filter_for(opts.encoder@, job.feed_nv12),
        );
        (if chain.len() == 0 {
            Seq::empty()
        } else {
            said(seq!["-vf"@, chain])
        }) + said(
            args_for(opts.encoder@, opts.quality, opts.preset@, job.feed_nv12, job.vaapi_icq),
        )
    }
}

/// The filter that shifts the rate of the song; empty at the song's own speed.
pub open spec fn rate_filter(speed: int) -> Seq<char> {
    if magnitude(speed - ONE) > 1_000 {
        "aresample=48000,asetrate="@ + rounded(48_000 * speed, 1_000_000, 0)
            + ",aresample=48000,"@
    } else {
        Seq::empty()
    }
}

/// The filter that cuts the song off where the clip ends.
pub open spec fn trim_filter(p: ClipPlan) -> Seq<char> {
    "atrim=duration="@ + rounded(p.span_ms as int, p.speed * 1000, 3) + ",apad"@
}

/// The filters of the song: rate, volume and length.
pub open spec fn song_filter(p: ClipPlan, volume: int) -> Seq<char> {
    rate_filter(p.speed as int) + "volume="@ + rounded(volume, 1_000_000, 3) + ","@ + trim_filter(p)
}

/// How the sound is encoded.
pub open spec fn audio_args(opts: VideoOptions, job: EncodeJob, p: ClipPlan) -> Seq<ArgModel> {
    let volume = within(opts.music_volume as int, 0, 1_500_000);
    if !opts.audio || opts.discard_output {
        Seq::empty()
    } else {
        (if job.hitsounds {
            said(
                seq![
                    "-filter_complex"@,
                    "[1:a]"@ + song_filter(p, volume)
                        + "[song];                     [song][2:a]amix=inputs=2:duration=first:normalize=0[aout]"@,
                    "-map"@,
                    "0:v"@,
                    "-map"@,
                    "[aout]"@,
                ],
            )
        } else if magnitude(volume - ONE) > 1_000 || rate_filter(p.speed as int).len() > 0 {
            said(seq!["-af"@, song_filter(p, volume)])
        } else {
            said(seq!["-af"@, trim_filter(p)])
        }) + said(seq!["-c:a"@, "aac"@, "-b:a"@, "192k"@])
    }
}

/// Whether some argument asks for the index at the front of the file.
pub open spec fn asks_faststart(args: Seq<Seq<char>>) -> bool {
    exists|i: int| 0 <= i < args.len() && holds(#[trigger] args[i], "faststart"@)
}

/// The length of the video, and the output.
pub open spec fn output_args(opts: VideoOptions, p: ClipPlan) -> Seq<ArgModel> {
    said(seq!["-t"@, rounded(p.play_frames + p.results_frames, p.fps as int, 3)]) + (
    if asks_faststart(texts(opts.extra_output_args@)) {
        Seq::empty()
    } else {
        said(seq!["-movflags"@, "+faststart"@])
    }) + said(texts(opts.extra_output_args@)) + (if opts.discard_output {
        said(seq!["-f"@, "null"@, "-"@])
    } else {
        seq![ArgModel::Output]
    })
}

/// All arguments of the encoder.
pub open spec fn encode_args(opts: VideoOptions, job: EncodeJob, p: ClipPlan) -> Seq<ArgModel> {
    head_args(opts, job) + input_args(opts, job) + video_args(opts, job) + audio_args(opts, job, p)
        + output_args(opts, p)
}

fn say(args: &mut Vec<Arg>, word: &str)
    ensures
        arg_models(final(args)@) == arg_models(old(args)@).push(ArgModel::Text(word@)),
{
    args.push(Arg::Text(word.to_owned()));
    assert(arg_models(args@) =~= arg_models(old(args)@).push(ArgModel::Text(word@)));
}

fn say_path(args: &mut Vec<Arg>, arg: Arg)
    ensures
        arg_models(final(args)@) == arg_models(old(args)@).push(arg@),
{
    args.push(arg);
    assert(arg_models(args@) =~= arg_models(old(args)@).push(arg@));
}

fn say_all(args: &mut Vec<Arg>, words: &[String])
    ensures
        arg_models(final(args)@) == arg_models(old(args)@) + said(texts(words@)),
{
    let mut i: usize = 0;
    assert(arg_models(args@) =~= arg_models(old(args)@) + said(texts(words@).take(0)));
    while i < words.len()
        invariant
            i <= words@.len(),
            arg_models(args@) == arg_models(old(args)@) + said(texts(words@).take(i as int)),
        decreases words@.len() - i,
    {
        let ghost before = arg_models(args@);
        say(args, words[i].as_str());
        assert(arg_models(args@) =~= arg_models(old(args)@) + said(texts(words@).take(i + 1)));
        i = i + 1;
    }
    assert(texts(words@).take(i as int) =~= texts(words@));
}

fn push_head(args: &mut Vec<Arg>, opts: &VideoOptions, job: &EncodeJob)
    ensures
        arg_models(final(args)@) == arg_models(old(args)@) + head_args(*opts, *job),
{
    say(args, "-y");
    say(args, "-loglevel");
    say(args, "error");
    say(args, "-nostats");
    if same_text(opts.encoder.as_str(), "vaapi") {
        if let Some(dev) = &job.vaapi_device {
            say(args, "-vaapi_device");
            say(args, dev.as_str());
        }
    }
    assert(arg_models(args@) =~= arg_models(old(args)@) + head_args(*opts, *job));
}

fn push_inputs(args: &mut Vec<Arg>, opts: &VideoOptions, job: &EncodeJob)
    ensures
        arg_models(final(args)@) == arg_models(old(args)@) + input_args(*opts, *job),
{
    say(args, "-f");
    say(args, "rawvideo");
    say(args, "-pix_fmt");
    if job.feed_nv12 {
        say(args, "nv12");
    } else {
        say(args, "rgba");
    }
    say(args, "-s");
    say(args, size_text(job.width, job.height).as_str());
    say(args, "-r");
    let mut fps: String = String::new();
    push_decimal(&mut fps, opts.fps as u128);
    assert(fps@ =~= decimal(opts.fps as nat));
    say(args, fps.as_str());
    say(args, "-i");
    say(args, frame_source(job.port).as_str());
    if opts.audio {
        say(args, "-ss");
        let mut at: String = String::new();
        push_rounded(&mut at, opts.start_ms as i128, 1_000_000_000, 3);
        assert(at@ =~= rounded(opts.start_ms as int, 1_000_000_000, 3));
        say(args, at.as_str());
        say(args, "-i");
        say_path(args, Arg::Audio);
        if job.hitsounds {
            say(args, "-i");
            say_path(args, Arg::Hitsounds);
        }
    }
    assert(arg_models(args@) =~= arg_models(old(args)@) + input_args(*opts, *job));
}

fn blur_filter(strength: u32) -> (f: &'static str)
    ensures
        f@ == blur(strength),
{
    if strength == 0 {
        proof {
            reveal_strlit("");
        }
        assert(""@ =~= Seq::empty());
        ""
    } else if strength == 1 {
        "tmix=frames=2"
    } else {
        "tmix=frames=3"
    }
}

fn push_video(args: &mut Vec<Arg>, opts: &VideoOptions, job: &EncodeJob)
    ensures
        arg_models(final(args)@) == arg_models(old(args)@) + video_args(*opts, *job),
{
    if opts.discard_output {
        say(args, "-c:v");
        say(args, "copy");
        say(args, "-an");
        assert(arg_models(args@) =~= arg_models(old(args)@) + video_args(*opts, *job));
        return;
    }
    let enc: EncoderArgs = video_encoder_args(
        opts.encoder.as_str(),
        opts.quality,
        opts.preset.as_str(),
        job.feed_nv12,
        job.vaapi_icq,
    );
    let blended: &str = blur_filter(opts.motion_blur);
    let vaapi: bool = same_text(opts.encoder.as_str(), "vaapi");
    proof {
        reveal_strlit("hwupload");
        reveal_strlit("format=nv12,hwupload");
        reveal_strlit("tmix=frames=2");
        reveal_strlit("tmix=frames=3");
    }
    let ghost chain = filter_chain(blended@, enc.filter@);
    let ghost before = arg_models(args@);
    if opts.motion_blur > 0 || vaapi {
        let mut filters: String = blended.to_owned();
        if opts.motion_blur > 0 && vaapi {
            filters.append(",");
        }
        filters.append(enc.filter.as_str());
        assert(filters@ =~= chain);
        say(args, "-vf");
        say(args, filters.as_str());
        assert(arg_models(args@) =~= before + said(seq!["-vf"@, chain]));
    } else {
        assert(chain.len() == 0);
        assert(arg_models(args@) =~= before + Seq::<ArgModel>::empty());
    }
    say_all(args, enc.args.as_slice());
    assert(arg_models(args@) =~= arg_models(old(args)@) + video_args(*opts, *job));
}

fn push_trim(s: &mut String, p: &ClipPlan)
    requires
        0 < p.speed <= 3_000_000,
        0 <= p.span_ms,
    ensures
        final(s)@ == old(s)@ + trim_filter(*p),
{
    s.append("atrim=duration=");
    push_rounded(s, p.span_ms as i128, p.speed as u128 * 1000, 3);
    s.append(",apad");
    assert(s@ =~= old(s)@ + trim_filter(*p));
}

fn song_filters(p: &ClipPlan, volume: i64) -> (s: String)
    requires
        0 < p.speed <= 3_000_000,
        0 <= p.span_ms,
        0 <= volume,
    ensures
        s@ == song_filter(*p, volume as int),
{
    let mut s: String = String::new();
    let off: i64 = p.speed - ONE;
    if off > 1_000 || off < -1_000 {
        s.append("aresample=48000,asetrate=");
        push_rounded(&mut s, 48_000 * p.speed as i128, 1_000_000, 0);
        s.append(",aresample=48000,");
    }
    assert(s@ =~= rate_filter(p.speed as int));
    s.append("volume=");
    push_rounded(&mut s, volume as i128, 1_000_000, 3);
    s.append(",");
    push_trim(&mut s, p);
    assert(s@ =~= song_filter(*p, volume as int));
    s
}

fn push_audio(args: &mut Vec<Arg>, opts: &VideoOptions, job: &EncodeJob, p: &ClipPlan)
    requires
        0 < p.speed <= 3_000_000,
        0 <= p.span_ms,
    ensures
        arg_models(final(args)@) == arg_models(old(args)@) + audio_args(*opts, *job, *p),
{
    if !opts.audio || opts.discard_output {
        assert(arg_models(args@) =~= arg_models(old(args)@) + Seq::<ArgModel>::empty());
        return;
    }
    let volume: i64 = if opts.music_volume < 0 {
        0
    } else if opts.music_volume > 1_500_000 {
        1_500_000
    } else {
        opts.music_volume
    };
    let off: i64 = p.speed - ONE;
    let shifted: bool = off > 1_000 || off < -1_000;
    let scaled: bool = volume - ONE > 1_000 || volume - ONE < -1_000;
    proof {
        reveal_strlit("aresample=48000,asetrate=");
    }
    if job.hitsounds {
        let mut graph: String = "[1:a]".to_owned();
        graph.append(song_filters(p, volume).as_str());
        graph.append(
            "[song];                     [song][2:a]amix=inputs=2:duration=first:normalize=0[aout]",
        );
        say(args, "-filter_complex");
        say(args, graph.as_str());
        say(args, "-map");
        say(args, "0:v");
        say(args, "-map");
        say(args, "[aout]");
    } else if scaled || shifted {
        say(args, "-af");
        say(args, song_filters(p, volume).as_str());
    } else {
        let mut cut: String = String::new();
        push_trim(&mut cut, p);
        assert(cut@ =~= trim_filter(*p));
        say(args, "-af");
        say(args, cut.as_str());
    }
    say(args, "-c:a");
    say(args, "aac");
    say(args, "-b:a");
    say(args, "192k");
    assert(arg_models(args@) =~= arg_models(old(args)@) + audio_args(*opts, *job, *p));
}

fn wants_faststart(words: &[String]) -> (r: bool)
    ensures
        r == asks_faststart(texts(words@)),
{
    let mut i: usize = 0;
    while i < words.len()
        invariant
            i <= words@.len(),
            forall|j: int| 0 <= j < i ==> !holds(#[trigger] texts(words@)[j], "faststart"@),
        decreases words@.len() - i,
    {
        let chars: Vec<char> = chars_of(words[i].as_str());
        assert(texts(words@)[i as int] == words@[i as int]@);
        if contains(chars.as_slice(), "faststart") {
            return true;
        }
        i = i + 1;
    }
    false
}

fn push_output(args: &mut Vec<Arg>, opts: &VideoOptions, p: &ClipPlan)
    requires
        0 < p.fps,
        p.play_frames + p.results_frames <= u64::MAX,
    ensures
        arg_models(final(args)@) == arg_models(old(args)@) + output_args(*opts, *p),
{
    let mut length: String = String::new();
    push_rounded(&mut length, (p.play_frames + p.results_frames) as i128, p.fps as u128, 3);
    assert(length@ =~= rounded(p.play_frames + p.results_frames, p.fps as int, 3));
    say(args, "-t");
    say(args, length.as_str());
    if !wants_faststart(opts.extra_output_args.as_slice()) {
        say(args, "-movflags");
        say(args, "+faststart");
    }
    let ghost before = arg_models(args@);
    say_all(args, opts.extra_output_args.as_slice());
    if opts.discard_output {
        say(args, "-f");
        say(args, "null");
        say(args, "-");
    } else {
        say_path(args, Arg::Output);
    }
    assert(arg_models(args@) =~= arg_models(old(args)@) + output_args(*opts, *p));
}

/// All arguments of the encoder for an export.
pub fn ffmpeg_args(opts: &VideoOptions, job: &EncodeJob, p: &ClipPlan) -> (args: Vec<Arg>)
    requires
        0 < p.fps,
        0 < p.speed <= 3_000_000,
        0 <= p.span_ms,
        p.play_frames + p.results_frames <= u64::MAX,
    ensures
        arg_models(args@) == encode_args(*opts, *job, *p),
{
    let mut args: Vec<Arg> = Vec::new();
    assert(arg_models(args@) =~= Seq::empty());
    push_head(&mut args, opts, job);
    push_inputs(&mut args, opts, job);
    push_video(&mut args, opts, job);
    push_audio(&mut args, opts, job, p);
    push_output(&mut args, opts, p);
    assert(arg_models(args@) =~= encode_args(*opts, *job, *p));
    args
}

/// The last full stop in a name; -1 where there is none.
pub open spec fn last_stop(name: Seq<char>) -> int
    decreases name.len(),
{
    if name.len() == 0 {
        -1
    } else if name.last() == '.' {
        name.len() - 1
    } else {
        last_stop(name.drop_last())
    }
}

/// The name of the file while it is written. The mark stands before the extension, from which
/// the encoder takes the format.
pub open spec fn part_name(name: Seq<char>) -> Seq<char> {
    let at = last_stop(name);
    if at > 0 {
        name.take(at) + ".rhythr-part."@ + name.skip(at + 1)
    } else {
        name + ".rhythr-part"@
    }
}

/// The name of the file while it is written.
pub fn partial_name(name: &str) -> (s: String)
    ensures
        s@ == part_name(name@),
{
    let chars: Vec<char> = chars_of(name);
    let len: usize = chars.len();
    let mut at: usize = len;
    assert(chars@.take(at as int) =~= chars@);
    while at > 0 && chars[at - 1] != '.'
        invariant
            at <= len == chars@.len(),
            last_stop(chars@) == last_stop(chars@.take(at as int)),
        decreases at,
    {
        assert(chars@.take(at as int).drop_last() =~= chars@.take(at - 1));
        at = at - 1;
    }
    assert(last_stop(chars@) == at - 1);
    if at > 1 {
        let stem: Vec<char> = part_of(chars.as_slice(), 0, at - 1);
        let ext: Vec<char> = part_of(chars.as_slice(), at, len);
        assert(stem@ =~= chars@.take(at - 1));
        assert(ext@ =~= chars@.skip(at as int));
        let mut s: String = text_of(stem.as_slice());
        s.append(".rhythr-part.");
        s.append(text_of(ext.as_slice()).as_str());
        s
    } else {
        let mut s: String = name.to_owned();
        s.append(".rhythr-part");
        s
    }
}

/// An unfinished video never takes the name of the finished one, and it has the same ending, from
/// which the encoder tells the kind of the file.
pub proof fn law_unfinished_videos_stand_aside(name: Seq<char>)
    ensures
        part_name(name) != name,
        last_stop(name) > 0 ==> part_name(name).skip(last_stop(part_name(name))) == name.skip(
            last_stop(name),
        ),
{
    reveal_strlit(".rhythr-part.");
    reveal_strlit(".rhythr-part");
    let at = last_stop(name);
    lemma_last_stop(name);
    if at > 0 {
        let part = part_name(name);
        assert(part.len() == name.len() + 12);
        let ext = name.skip(at + 1);
        let end = at + 12;
        assert(part[end] == '.');
        assert(forall|i: int| end < i < part.len() ==> #[trigger] part[i] == name[i - 12]);
        lemma_last_stop_at(part, end);
        assert(part.skip(end) =~= name.skip(at));
    } else {
        assert(part_name(name).len() == name.len() + 12);
    }
}

proof fn lemma_last_stop(name: Seq<char>)
    ensures
        -1 <= last_stop(name) < name.len(),
        last_stop(name) >= 0 ==> name[last_stop(name)] == '.',
        forall|i: int| last_stop(name) < i < name.len() ==> #[trigger] name[i] != '.',
    decreases name.len(),
{
    if name.len() > 0 && name.last() != '.' {
        let rest = name.drop_last();
        lemma_last_stop(rest);
        assert forall|i: int| last_stop(name) < i < name.len() implies #[trigger] name[i] != '.' by {
            if i < rest.len() {
                assert(rest[i] != '.');
            }
        }
    }
}

proof fn lemma_last_stop_at(name: Seq<char>, at: int)
    requires
        0 <= at < name.len(),
        name[at] == '.',
        forall|i: int| at < i < name.len() ==> #[trigger] name[i] != '.',
    ensures
        last_stop(name) == at,
{
    lemma_last_stop(name);
}

/// How many frames are drawn before the first of them is read.
pub const READBACK_SLOTS: u64 = 3;

/// What is to be done next.
#[derive(Debug, Clone, Copy, PartialEq, Eq, Structural)]
pub enum Step {
    /// Draw a frame of the run into a slot.
    Submit { frame: u64, slot: u64 },
    /// Read a frame of the run from its slot and hand it to the encoder.
    Read { frame: u64, slot: u64 },
    /// Hand the results screen to the encoder.
    Results { frame: u64 },
    /// Nothing is left.
    Done,
}

/// How far an export is.
#[derive(Debug, Clone, Copy, PartialEq, Eq, Structural)]
pub struct Pipeline {
    pub play_frames: u64,
    pub results_frames: u64,
    /// Frames drawn.
    pub submitted: u64,
    /// Frames read.
    pub read: u64,
    /// Results frames written.
    pub shown: u64,
}

/// What is to be done next: frames are drawn in order, each is read when two newer ones are on
/// their way, then come the rest and the results screen.
pub open spec fn next_step(p: Pipeline) -> Step {
    if p.submitted - p.read > READBACK_SLOTS - 1 || (p.submitted >= p.play_frames && p.read
        < p.submitted) {
        Step::Read { frame: p.read, slot: p.read % READBACK_SLOTS }
    } else if p.submitted < p.play_frames {
        Step::Submit { frame: p.submitted, slot: p.submitted % READBACK_SLOTS }
    } else if p.shown < p.results_frames {
        Step::Results { frame: (p.play_frames + p.shown) as u64 }
    } else {
        Step::Done
    }
}

/// The state behind a step.
pub open spec fn after_step(p: Pipeline, s: Step) -> Pipeline {
    match s {
        Step::Submit { .. } => Pipeline { submitted: (p.submitted + 1) as u64, ..p },
        Step::Read { .. } => Pipeline { read: (p.read + 1) as u64, ..p },
        Step::Results { .. } => Pipeline { shown: (p.shown + 1) as u64, ..p },
        Step::Done => p,
    }
}

impl Pipeline {
    /// What holds in every state.
    pub open spec fn well_formed(&self) -> bool {
        &&& self.read <= self.submitted <= self.play_frames
        &&& self.submitted - self.read <= READBACK_SLOTS
        &&& self.shown <= self.results_frames
        &&& self.shown > 0 ==> self.read == self.play_frames
        &&& self.play_frames + self.results_frames <= u64::MAX
    }

    /// Nothing is done.
    pub fn new(play_frames: u64, results_frames: u64) -> (p: Pipeline)
        requires
            play_frames + results_frames <= u64::MAX,
        ensures
            p.well_formed(),
            p == (Pipeline { play_frames, results_frames, submitted: 0, read: 0, shown: 0 }),
    {
        Pipeline { play_frames, results_frames, submitted: 0, read: 0, shown: 0 }
    }

    /// What is to be done next; the state moves on as if it were done.
    pub fn advance(&mut self) -> (s: Step)
        requires
            old(self).well_formed(),
        ensures
            s == next_step(*old(self)),
            *final(self) == after_step(*old(self), s),
            final(self).well_formed(),
    {
        if self.submitted - self.read > READBACK_SLOTS - 1 || (self.submitted >= self.play_frames
            && self.read < self.submitted) {
            let s: Step = Step::Read { frame: self.read, slot: self.read % READBACK_SLOTS };
            self.read = self.read + 1;
            s
        } else if self.submitted < self.play_frames {
            let s: Step = Step::Submit {
                frame: self.submitted,
                slot: self.submitted % READBACK_SLOTS,
            };
            self.submitted = self.submitted + 1;
            s
        } else if self.shown < self.results_frames {
            let s: Step = Step::Results { frame: self.play_frames + self.shown };
            self.shown = self.shown + 1;
            s
        } else {
            Step::Done
        }
    }

    /// Whether the time that a frame took to hand on counts: only what runs beside the drawing of
    /// a later frame does.
    pub fn counts(&self, frame: u64) -> (r: bool)
        ensures
            r == (frame + (READBACK_SLOTS - 1) < self.play_frames),
    {
        self.play_frames >= READBACK_SLOTS && frame <= self.play_frames - READBACK_SLOTS
    }

    /// How many frames the encoder has.
    pub fn written(&self) -> (n: u64)
        requires
            self.well_formed(),
        ensures
            n == self.read + self.shown,
    {
        self.read + self.shown
    }
}

/// A frame is never drawn into a slot that holds a frame which was not read yet.
pub proof fn law_slots_are_free(p: Pipeline, waiting: u64)
    requires
        p.well_formed(),
        p.read <= waiting < p.submitted,
    ensures
        next_step(p) matches Step::Submit { slot, .. } ==> slot != waiting % READBACK_SLOTS,
{
}

/// The encoder gets every frame once and in order: each step hands over the next frame or none.
pub proof fn law_frames_come_in_order(p: Pipeline)
    requires
        p.well_formed(),
    ensures
        match next_step(p) {
            Step::Submit { frame, .. } => frame == p.submitted,
            Step::Read { frame, .. } => frame == p.read + p.shown,
            Step::Results { frame } => frame == p.read + p.shown,
            Step::Done => p.read + p.shown == p.play_frames + p.results_frames,
        },
{
}

/// An export comes to an end: every step but the last brings it closer.
pub proof fn law_export_ends(p: Pipeline)
    requires
        p.well_formed(),
    ensures
        next_step(p) != Step::Done ==> ({
            let q = after_step(p, next_step(p));
            q.submitted + q.read + q.shown == p.submitted + p.read + p.shown + 1
        }),
        p.submitted + p.read + p.shown <= 2 * p.play_frames + p.results_frames,
{
}

/// Where the time of a render went, for each frame, in millionths of a millisecond.
#[derive(Debug, Clone)]
pub struct RenderStats {
    pub frames: u64,
    pub build_ms: i64,
    pub readback_ms: i64,
    pub convert_ms: i64,
    pub feed_ms: i64,
    /// Whether nothing was encoded.
    pub discarded: bool,
    pub transport: String,
}

/// The words on a render.
pub open spec fn stats_text(s: RenderStats) -> Seq<char> {
    "per frame: build "@ + rounded(s.build_ms as int, 1_000_000, 2) + " ms · readback "@ + rounded(
        s.readback_ms as int,
        1_000_000,
        2,
    ) + " ms · convert "@ + rounded(s.convert_ms as int, 1_000_000, 2) + " ms · feed "@ + rounded(
        s.feed_ms as int,
        1_000_000,
        2,
    ) + " ms ("@ + (if s.discarded {
        s.transport@ + ", NO ENCODING — transport only"@
    } else {
        s.transport@
    }) + ")"@
}

impl RenderStats {
    /// One line: the stages of a frame.
    pub fn summary(&self) -> (s: String)
        ensures
            s@ == stats_text(*self),
    {
        let mut s: String = "per frame: build ".to_owned();
        push_rounded(&mut s, self.build_ms as i128, 1_000_000, 2);
        s.append(" ms · readback ");
        push_rounded(&mut s, self.readback_ms as i128, 1_000_000, 2);
        s.append(" ms · convert ");
        push_rounded(&mut s, self.convert_ms as i128, 1_000_000, 2);
        s.append(" ms · feed ");
        push_rounded(&mut s, self.feed_ms as i128, 1_000_000, 2);
        s.append(" ms (");
        s.append(self.transport.as_str());
        if self.discarded {
            s.append(", NO ENCODING — transport only");
        }
        s.append(")");
        assert(s@ =~= stats_text(*self));
        s
    }
}

/// The time of a stage for each frame, from its nanoseconds over the run: a nanosecond is a
/// millionth of a millisecond.
pub fn per_frame(total_ns: i64, frames: u64) -> (ms: i64)
    ensures
        ms == nearest(total_ns as int, greater(frames as int, 1)),
{
    let n: i128 = if frames > 1 {
        frames as i128
    } else {
        1
    };
    div_nearest(total_ns as i128, n) as i64
}

/// The name of the transport that carried the frames.
pub open spec fn used_transport(socket: bool, chunk: usize) -> Seq<char> {
    if !socket {
        "pipe"@
    } else if chunk == 0 {
        "socket, whole frame"@
    } else if chunk % 1024 == 0 {
        "socket, "@ + decimal((chunk / 1024) as nat) + " KiB"@
    } else {
        "socket, "@ + decimal(chunk as nat) + " B"@
    }
}

/// The name of the transport that carried the frames.
pub fn transport_used(socket: bool, chunk: usize) -> (s: String)
    ensures
        s@ == used_transport(socket, chunk),
{
    if !socket {
        return "pipe".to_owned();
    }
    if chunk == 0 {
        return "socket, whole frame".to_owned();
    }
    let mut s: String = "socket, ".to_owned();
    if chunk % 1024 == 0 {
        push_decimal(&mut s, (chunk / 1024) as u128);
        s.append(" KiB");
    } else {
        push_decimal(&mut s, chunk as u128);
        s.append(" B");
    }
    s
}

/// A clip shows its own part of the song: the first frame shows the moment at which the clip
/// starts, no frame shows an earlier moment than the one before it, a second of video covers a
/// second of the run at its speed, and all frames of the run lie between start and end. One more
/// frame would lie at the end or behind it.
pub proof fn law_clips_show_their_part_of_the_song(
    p: ClipPlan,
    opts: VideoOptions,
    replay: Replay,
    i: int,
    j: int,
)
    requires
        is_plan(p, opts, replay),
        opts.fps > 0,
        p.start_ms <= p.end_ms,
        0 <= i <= j,
    ensures
        song_time(p, 0) == opts.start_ms,
        song_time(p, i) <= song_time(p, j),
        song_time(p, i + opts.fps) == song_time(p, i) + 1000 * p.speed,
        j < p.play_frames ==> opts.start_ms <= song_time(p, i) <= song_time(p, j) <= p.end_ms,
        song_time(p, p.play_frames as int) >= p.end_ms,
        2 * magnitude(
            (song_time(p, i) - opts.start_ms) * opts.fps - i * (1000 * within(
                replay.speed as int,
                250_000,
                3_000_000,
            )),
        ) <= opts.fps,
{
    let (s, f) = (p.speed as int, p.fps as int);
    let d = s * 1000;
    assert(0 * s * 1000 == 0) by (nonlinear_arith);
    assert forall|k: int| #[trigger] (k * s * 1000) == k * d by {
        assert(k * s * 1000 == k * d) by (nonlinear_arith)
            requires
                d == s * 1000,
        ;
    }
    law_rounding_is_closest(0, f);
    assert(f * nearest(0, f) == 0 ==> nearest(0, f) == 0) by (nonlinear_arith)
        requires
            f > 0,
    ;
    crate::fixed::lemma_nearest_bound(0, f);
    assert(i * d <= j * d && i * d >= 0) by (nonlinear_arith)
        requires
            0 <= i <= j,
            d > 0,
    ;
    law_rounding_is_monotone(i * s * 1000, j * s * 1000, f);
    law_rounding_is_closest(i * s * 1000, f);
    crate::fixed::lemma_nearest_bound(i * s * 1000, f);
    assert((i + f) * s * 1000 == i * s * 1000 + f * d) by (nonlinear_arith)
        requires
            d == s * 1000,
    ;
    law_rounding_keeps_whole_numbers(d, i * s * 1000, f);
    assert(f * nearest(i * d, f) == nearest(i * d, f) * f) by (nonlinear_arith);
    lemma_frames_fill_the_span(p.span_ms as int, f, d, j);
    lemma_frames_fill_the_span(p.span_ms as int, f, d, p.play_frames as int);
}

proof fn lemma_frames_fill_the_span(span: int, fps: int, d: int, j: int)
    requires
        span >= 0,
        fps > 0,
        d > 0,
        j >= 0,
    ensures
        j < greater(ceiling(span * fps, d), 1) ==> nearest(j * d, fps) <= span,
        j >= greater(ceiling(span * fps, d), 1) ==> nearest(j * d, fps) >= span,
{
    let n = span * fps;
    let c = ceiling(n, d);
    let r = (n + d - 1) % d;
    assert(n >= 0) by (nonlinear_arith)
        requires
            n == span * fps,
            span >= 0,
            fps > 0,
    ;
    assert(n + d - 1 == d * c + r && 0 <= r < d) by (nonlinear_arith)
        requires
            d > 0,
            c == (n + d - 1) / d,
            r == (n + d - 1) % d,
    ;
    assert(fps * span == n) by (nonlinear_arith)
        requires
            n == span * fps,
    ;
    law_rounding_keeps_whole_numbers(span, 0, fps);
    if j < greater(c, 1) {
        assert(j * d <= n) by (nonlinear_arith)
            requires
                j <= c - 1 || j == 0,
                d * c <= n + d - 1,
                d > 0,
                n >= 0,
        ;
        law_rounding_is_monotone(j * d, fps * span, fps);
    } else {
        assert(j * d >= n) by (nonlinear_arith)
            requires
                j >= c,
                d * c > n - 1,
                d > 0,
        ;
        law_rounding_is_monotone(fps * span, j * d, fps);
    }
}

/// A clip ends where it was asked to, or with the run where that is earlier, and never before it
/// starts unless it was asked to. A failed run ends when it failed.
pub proof fn law_clips_end_with_the_run(p: ClipPlan, opts: VideoOptions, replay: Replay)
    requires
        is_plan(p, opts, replay),
    ensures
        ({
            let over = if replay.failed {
                replay.fail_time_ms * 1_000_000
            } else {
                replay.length_ms as int
            };
            &&& p.start_ms == opts.start_ms
            &&& p.fps == opts.fps
            &&& p.end_ms <= opts.end_ms
            &&& opts.end_ms <= over ==> p.end_ms == opts.end_ms
            &&& opts.start_ms <= over <= opts.end_ms ==> p.end_ms == over
            &&& over <= opts.start_ms <= opts.end_ms ==> p.end_ms == opts.start_ms
            &&& p.span_ms >= 0 && (p.start_ms <= p.end_ms ==> p.span_ms == p.end_ms - p.start_ms)
            &&& 250_000 <= p.speed <= 3_000_000 && (250_000 <= replay.speed <= 3_000_000 ==> p.speed
                == replay.speed)
        }),
{
}

/// The results follow the run alone: they are shown where the clip reaches the last half second of
/// the run, for as many frames as their time asks for, and not at all elsewhere.
pub proof fn law_results_follow_the_run(p: ClipPlan, opts: VideoOptions, replay: Replay)
    requires
        is_plan(p, opts, replay),
        opts.fps > 0,
        opts.results_secs >= 0,
    ensures
        ({
            let over = if replay.failed {
                replay.fail_time_ms * 1_000_000
            } else {
                replay.length_ms as int
            };
            let n = p.results_frames as int;
            let asked = opts.results_secs * opts.fps;
            &&& p.end_ms < over - 500_000_000 ==> n == 0
            &&& p.end_ms >= over - 500_000_000 ==> (n - 1) * 1_000_000 < asked <= n * 1_000_000
            &&& opts.results_secs == 0 ==> n == 0
        }),
{
    let asked = opts.results_secs * opts.fps;
    assert(opts.results_secs == 0 ==> asked == 0) by (nonlinear_arith)
        requires
            asked == opts.results_secs * opts.fps,
    ;
}

/// A sound is heard with its picture: what happens at the song time that a frame shows lies, in the
/// track, that frame's time into the video, to two samples.
pub proof fn law_sounds_meet_their_pictures(p: ClipPlan, i: int)
    requires
        0 < p.fps,
        250_000 <= p.speed <= 3_000_000,
        0 <= i,
    ensures
        ({
            let f = frame_of(song_time(p, i) - p.start_ms, p.speed as int);
            -2 * p.fps <= f * p.fps - 44_100 * i <= p.fps
        }),
{
    let (fps, s) = (p.fps as int, p.speed as int);
    let n = i * p.speed * 1000;
    let rel = song_time(p, i) - p.start_ms;
    assert(n == 1000 * (i * s) && n >= 0) by (nonlinear_arith)
        requires
            n == i * p.speed * 1000,
            s == p.speed,
            i >= 0,
            s > 0,
    ;
    law_rounding_is_closest(n, fps);
    law_rounding_is_monotone(0, n, fps);
    law_rounding_keeps_whole_numbers(0, 0, fps);
    law_sounds_keep_the_time_of_the_video(rel, rel, s, 0);
    let f = frame_of(rel, s);
    assert(rel * fps == fps * rel) by (nonlinear_arith);
    let x = f * fps;
    let y = 10 * s * x;
    assert(y <= 441 * (rel * fps) < y + 10 * s * fps) by (nonlinear_arith)
        requires
            10 * s * f <= 441 * rel < 10 * s * (f + 1),
            x == f * fps,
            y == 10 * s * x,
            fps > 0,
    ;
    let z = i * s;
    assert(10 * s * (44_100 * i) == 441_000 * z) by (nonlinear_arith)
        requires
            z == i * s,
    ;
    let d = x - 44_100 * i;
    assert(10 * s * d == y - 441_000 * z) by (nonlinear_arith)
        requires
            y == 10 * s * x,
            10 * s * (44_100 * i) == 441_000 * z,
            d == x - 44_100 * i,
    ;
    assert(10 * s * fps >= 2_500_000 * fps) by (nonlinear_arith)
        requires
            s >= 250_000,
            fps > 0,
    ;
    assert(2 * (10 * s * d) <= 441 * fps);
    assert(d <= fps) by (nonlinear_arith)
        requires
            2 * (10 * s * d) <= 441 * fps,
            s >= 250_000,
            fps > 0,
    ;
    assert(2 * (10 * s * d) > -441 * fps - 2 * (10 * s * fps));
    assert(d >= -2 * fps) by (nonlinear_arith)
        requires
            2 * (10 * s * d) > -441 * fps - 2 * (10 * s * fps),
            s >= 250_000,
            fps > 0,
    ;
}

/// The song starts where the pictures start, and plays at their speed for as long as they do.
pub proof fn law_the_song_starts_with_the_pictures(opts: VideoOptions, job: EncodeJob, p: ClipPlan)
    requires
        opts.audio,
        p.start_ms == opts.start_ms,
        0 < p.fps,
    ensures
        ({
            let args = input_args(opts, job);
            &&& args[10] == ArgModel::Text("-ss"@)
            &&& args[11] == ArgModel::Text(rounded(song_time(p, 0), 1_000_000_000, 3))
            &&& args[13] == ArgModel::Audio
            &&& args[5] == ArgModel::Text(
                decimal(job.width as nat) + "x"@ + decimal(job.height as nat),
            )
            &&& args[7] == ArgModel::Text(decimal(p.fps as nat)) || p.fps != opts.fps
        }),
        rate_filter(1_000_000).len() == 0,
        trim_filter(p) == "atrim=duration="@ + rounded(p.span_ms as int, p.speed * 1000, 3)
            + ",apad"@,
        output_args(opts, p)[1] == ArgModel::Text(
            rounded(p.play_frames + p.results_frames, p.fps as int, 3),
        ),
{
    law_rounding_keeps_whole_numbers(0, 0, p.fps as int);
    assert(0 * p.speed * 1000 == 0) by (nonlinear_arith);
}

/// A clip and the scene in it run at the same speed.
pub proof fn law_clips_and_scenes_share_their_speed(replay: Replay)
    ensures
        clip_speed(replay) == crate::scene::taken_speed(replay.speed as int),
        250_000 <= replay.speed <= 3_000_000 ==> clip_speed(replay) == replay.speed,
        250_000 <= clip_speed(replay) <= 3_000_000,
{
}

} // verus!
