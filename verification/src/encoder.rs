//! Video encoders: the arguments that each one takes, how it is tried out, and what its failure
//! says.

use vstd::prelude::*;

use crate::extraction::{lossy_text, lossy_utf8};
use crate::mods::texts;
use crate::quality::{crf_of, hardware_q, hardware_q_of, x264_crf, DEFAULT};
use crate::text::{
    begins, char_views, chars_of, decimal, lines_of, push_decimal, same_text, split_lines,
    starts_with, text_of, trim, trimmed,
};

verus! {

/// What an encoder takes on the command line.
#[derive(Debug, Clone)]
pub struct EncoderArgs {
    /// The end of the filter chain, empty where the encoder needs none.
    pub filter: String,
    /// Codec, quality and preset.
    pub args: Vec<String>,
}

/// AMF's quality step for a speed preset.
pub open spec fn amf_step(preset: Seq<char>) -> Seq<char> {
    if preset == "ultrafast"@ || preset == "superfast"@ || preset == "veryfast"@ {
        "speed"@
    } else if preset == "slow"@ || preset == "slower"@ || preset == "veryslow"@ || preset
        == "placebo"@ {
        "quality"@
    } else {
        "balanced"@
    }
}

/// AMF's quality step for a speed preset.
pub fn amf_quality(preset: &str) -> (q: &'static str)
    ensures
        q@ == amf_step(preset@),
{
    if same_text(preset, "ultrafast") || same_text(preset, "superfast") || same_text(
        preset,
        "veryfast",
    ) {
        "speed"
    } else if same_text(preset, "slow") || same_text(preset, "slower") || same_text(
        preset,
        "veryslow",
    ) || same_text(preset, "placebo") {
        "quality"
    } else {
        "balanced"
    }
}

/// NVENC's preset for a speed preset.
pub open spec fn nvenc_step(preset: Seq<char>) -> Seq<char> {
    if preset == "ultrafast"@ || preset == "superfast"@ {
        "p1"@
    } else if preset == "veryfast"@ {
        "p2"@
    } else if preset == "faster"@ {
        "p3"@
    } else if preset == "slow"@ {
        "p5"@
    } else if preset == "slower"@ {
        "p6"@
    } else if preset == "veryslow"@ || preset == "placebo"@ {
        "p7"@
    } else {
        "p4"@
    }
}

/// NVENC's preset for a speed preset.
pub fn nvenc_preset(preset: &str) -> (p: &'static str)
    ensures
        p@ == nvenc_step(preset@),
{
    if same_text(preset, "ultrafast") || same_text(preset, "superfast") {
        "p1"
    } else if same_text(preset, "veryfast") {
        "p2"
    } else if same_text(preset, "faster") {
        "p3"
    } else if same_text(preset, "slow") {
        "p5"
    } else if same_text(preset, "slower") {
        "p6"
    } else if same_text(preset, "veryslow") || same_text(preset, "placebo") {
        "p7"
    } else {
        "p4"
    }
}

/// QuickSync's preset for a speed preset: it lacks the fastest and the slowest ones.
pub open spec fn qsv_step(preset: Seq<char>) -> Seq<char> {
    if preset == "ultrafast"@ || preset == "superfast"@ || preset == "veryfast"@ {
        "veryfast"@
    } else if preset == "faster"@ {
        "faster"@
    } else if preset == "fast"@ {
        "fast"@
    } else if preset == "slow"@ {
        "slow"@
    } else if preset == "slower"@ || preset == "veryslow"@ || preset == "placebo"@ {
        "slower"@
    } else {
        "medium"@
    }
}

/// QuickSync's preset for a speed preset.
pub fn qsv_preset(preset: &str) -> (p: &'static str)
    ensures
        p@ == qsv_step(preset@),
{
    if same_text(preset, "ultrafast") || same_text(preset, "superfast") || same_text(
        preset,
        "veryfast",
    ) {
        "veryfast"
    } else if same_text(preset, "faster") {
        "faster"
    } else if same_text(preset, "fast") {
        "fast"
    } else if same_text(preset, "slow") {
        "slow"
    } else if same_text(preset, "slower") || same_text(preset, "veryslow") || same_text(
        preset,
        "placebo",
    ) {
        "slower"
    } else {
        "medium"
    }
}

/// The format in which frames go to an encoder that takes both.
pub open spec fn pixel_format(nv12: bool) -> Seq<char> {
    if nv12 {
        "nv12"@
    } else {
        "yuv420p"@
    }
}

/// The end of the filter chain for an encoder: only VA-API needs frames uploaded.
pub open spec fn filter_for(encoder: Seq<char>, feed_nv12: bool) -> Seq<char> {
    if encoder != "vaapi"@ {
        Seq::empty()
    } else if feed_nv12 {
        "hwupload"@
    } else {
        "format=nv12,hwupload"@
    }
}

/// The codec, quality and preset of an encoder.
pub open spec fn args_for(
    encoder: Seq<char>,
    quality: u32,
    preset: Seq<char>,
    feed_nv12: bool,
    vaapi_icq: bool,
) -> Seq<Seq<char>> {
    let hw = decimal(hardware_q_of(quality) as nat);
    if encoder == "vaapi"@ {
        if vaapi_icq {
            seq![
                "-c:v"@,
                "h264_vaapi"@,
                "-profile:v"@,
                "high"@,
                "-rc_mode"@,
                "ICQ"@,
                "-global_quality"@,
                hw,
            ]
        } else {
            seq!["-c:v"@, "h264_vaapi"@, "-profile:v"@, "high"@, "-rc_mode"@, "CQP"@, "-qp"@, hw]
        }
    } else if encoder == "nvenc"@ {
        seq![
            "-c:v"@,
            "h264_nvenc"@,
            "-pix_fmt"@,
            pixel_format(feed_nv12),
            "-profile:v"@,
            "high"@,
            "-preset"@,
            nvenc_step(preset),
            "-rc"@,
            "vbr"@,
            "-cq"@,
            hw,
            "-b:v"@,
            "0"@,
        ]
    } else if encoder == "qsv"@ {
        seq![
            "-c:v"@,
            "h264_qsv"@,
            "-pix_fmt"@,
            "nv12"@,
            "-profile:v"@,
            "high"@,
            "-preset"@,
            qsv_step(preset),
            "-global_quality"@,
            hw,
        ]
    } else if encoder == "amf"@ {
        seq![
            "-c:v"@,
            "h264_amf"@,
            "-pix_fmt"@,
            pixel_format(feed_nv12),
            "-profile:v"@,
            "high"@,
            "-quality"@,
            amf_step(preset),
            "-rc"@,
            "cqp"@,
            "-qp_i"@,
            hw,
            "-qp_p"@,
            hw,
            "-qp_b"@,
            hw,
        ]
    } else {
        seq![
            "-c:v"@,
            "libx264"@,
            "-pix_fmt"@,
            "yuv420p"@,
            "-profile:v"@,
            "high"@,
            "-crf"@,
            decimal(crf_of(quality) as nat),
            "-preset"@,
            preset,
        ]
    }
}

/// Appends some arguments.
pub(crate) fn put(args: &mut Vec<String>, word: &str)
    ensures
        texts(final(args)@) == texts(old(args)@).push(word@),
{
    args.push(word.to_owned());
    assert(texts(args@) =~= texts(old(args)@).push(word@));
}

fn number(n: u32) -> (s: String)
    ensures
        s@ == decimal(n as nat),
{
    let mut s: String = String::new();
    push_decimal(&mut s, n as u128);
    assert(s@ =~= decimal(n as nat));
    s
}

/// The arguments of an encoder.
pub fn video_encoder_args(
    encoder: &str,
    quality: u32,
    preset: &str,
    feed_nv12: bool,
    vaapi_icq: bool,
) -> (e: EncoderArgs)
    ensures
        e.filter@ == filter_for(encoder@, feed_nv12),
        texts(e.args@) == args_for(encoder@, quality, preset@, feed_nv12, vaapi_icq),
{
    let hw: String = number(hardware_q(quality));
    let pix: &str = if feed_nv12 {
        "nv12"
    } else {
        "yuv420p"
    };
    let mut filter: String = String::new();
    let mut args: Vec<String> = Vec::new();
    if same_text(encoder, "vaapi") {
        filter = if feed_nv12 {
            "hwupload".to_owned()
        } else {
            "format=nv12,hwupload".to_owned()
        };
        put(&mut args, "-c:v");
        put(&mut args, "h264_vaapi");
        put(&mut args, "-profile:v");
        put(&mut args, "high");
        put(&mut args, "-rc_mode");
        if vaapi_icq {
            put(&mut args, "ICQ");
            put(&mut args, "-global_quality");
        } else {
            put(&mut args, "CQP");
            put(&mut args, "-qp");
        }
        put(&mut args, hw.as_str());
    } else if same_text(encoder, "nvenc") {
        put(&mut args, "-c:v");
        put(&mut args, "h264_nvenc");
        put(&mut args, "-pix_fmt");
        put(&mut args, pix);
        put(&mut args, "-profile:v");
        put(&mut args, "high");
        put(&mut args, "-preset");
        put(&mut args, nvenc_preset(preset));
        put(&mut args, "-rc");
        put(&mut args, "vbr");
        put(&mut args, "-cq");
        put(&mut args, hw.as_str());
        put(&mut args, "-b:v");
        put(&mut args, "0");
    } else if same_text(encoder, "qsv") {
        put(&mut args, "-c:v");
        put(&mut args, "h264_qsv");
        put(&mut args, "-pix_fmt");
        put(&mut args, "nv12");
        put(&mut args, "-profile:v");
        put(&mut args, "high");
        put(&mut args, "-preset");
        put(&mut args, qsv_preset(preset));
        put(&mut args, "-global_quality");
        put(&mut args, hw.as_str());
    } else if same_text(encoder, "amf") {
        put(&mut args, "-c:v");
        put(&mut args, "h264_amf");
        put(&mut args, "-pix_fmt");
        put(&mut args, pix);
        put(&mut args, "-profile:v");
        put(&mut args, "high");
        put(&mut args, "-quality");
        put(&mut args, amf_quality(preset));
        put(&mut args, "-rc");
        put(&mut args, "cqp");
        put(&mut args, "-qp_i");
        put(&mut args, hw.as_str());
        put(&mut args, "-qp_p");
        put(&mut args, hw.as_str());
        put(&mut args, "-qp_b");
        put(&mut args, hw.as_str());
    } else {
        let crf: String = number(x264_crf(quality));
        put(&mut args, "-c:v");
        put(&mut args, "libx264");
        put(&mut args, "-pix_fmt");
        put(&mut args, "yuv420p");
        put(&mut args, "-profile:v");
        put(&mut args, "high");
        put(&mut args, "-crf");
        put(&mut args, crf.as_str());
        put(&mut args, "-preset");
        put(&mut args, preset);
    }
    assert(texts(args@) =~= args_for(encoder@, quality, preset@, feed_nv12, vaapi_icq));
    EncoderArgs { filter, args }
}

/// The hardware encoders worth trying on a platform, best first.
pub open spec fn encoders_for(windows: bool) -> Seq<Seq<char>> {
    if windows {
        seq!["nvenc"@, "qsv"@, "amf"@]
    } else {
        seq!["nvenc"@, "qsv"@, "vaapi"@, "amf"@]
    }
}

/// The views of some texts.
pub open spec fn views(list: Seq<&'static str>) -> Seq<Seq<char>> {
    Seq::new(list.len(), |i: int| list[i]@)
}

/// The hardware encoders worth trying, best first: VA-API is not on Windows.
pub fn hardware_encoders(windows: bool) -> (list: Vec<&'static str>)
    ensures
        views(list@) == encoders_for(windows),
{
    let list: Vec<&'static str> = if windows {
        vec!["nvenc", "qsv", "amf"]
    } else {
        vec!["nvenc", "qsv", "vaapi", "amf"]
    };
    assert(views(list@) =~= encoders_for(windows));
    list
}

/// The last line that is not blank, without the white space around it.
pub open spec fn last_line(lines: Seq<Seq<char>>) -> Option<Seq<char>>
    decreases lines.len(),
{
    if lines.len() == 0 {
        None
    } else if trimmed(lines.last()).len() > 0 {
        Some(trimmed(lines.last()))
    } else {
        last_line(lines.drop_last())
    }
}

/// What an encoder's words explain: their last line that is not blank.
pub open spec fn explanation(text: Seq<char>) -> Seq<char> {
    match last_line(lines_of(text)) {
        Some(l) => l,
        None => "encoder test failed"@,
    }
}

/// What a text explains: its last line that is not blank.
pub fn explain(text: &str) -> (why: String)
    ensures
        why@ == explanation(text@),
{
    let chars: Vec<char> = chars_of(text);
    let lines: Vec<Vec<char>> = split_lines(chars.as_slice());
    let ghost all = lines_of(text@);
    let mut i: usize = lines.len();
    assert(all.take(i as int) =~= all);
    while i > 0
        invariant
            i <= lines@.len(),
            all == char_views(lines@),
            all == lines_of(text@),
            last_line(all) == last_line(all.take(i as int)),
        decreases i,
    {
        let line: Vec<char> = trim(lines[i - 1].as_slice());
        proof {
            assert(all.take(i as int).drop_last() =~= all.take(i - 1));
            assert(all.take(i as int).last() == lines@[i - 1]@);
        }
        if line.len() > 0 {
            return text_of(line.as_slice());
        }
        i = i - 1;
    }
    "encoder test failed".to_owned()
}

/// What an encoder's error output explains.
pub fn last_meaningful_line(stderr: &[u8]) -> (why: String)
    ensures
        why@ == explanation(lossy_utf8(stderr@)),
{
    explain(lossy_text(stderr).as_str())
}

/// What became of a trial run.
#[derive(Debug, Clone)]
pub enum Trial {
    /// It ended well.
    Succeeded,
    /// It failed, with this error output.
    Failed(Vec<u8>),
    /// It could not be started, for this reason.
    NotRun(String),
}

/// Why a trial run failed; none where it ended well.
pub open spec fn trial_error(t: Trial) -> Option<Seq<char>> {
    match t {
        Trial::Succeeded => None,
        Trial::Failed(stderr) => Some(explanation(lossy_utf8(stderr@))),
        Trial::NotRun(e) => Some("could not run ffmpeg: "@ + e@),
    }
}

/// A text that may be missing.
pub open spec fn optional(s: Option<String>) -> Option<Seq<char>> {
    match s {
        Some(s) => Some(s@),
        None => None,
    }
}

/// Why a trial run failed; none where it ended well.
pub fn encoder_error(trial: &Trial) -> (why: Option<String>)
    ensures
        optional(why) == trial_error(*trial),
{
    match trial {
        Trial::Succeeded => None,
        Trial::Failed(stderr) => Some(last_meaningful_line(stderr.as_slice())),
        Trial::NotRun(e) => {
            let mut why: String = "could not run ffmpeg: ".to_owned();
            why.append(e.as_str());
            Some(why)
        },
    }
}

/// Whether an encoder works: its trial gave no error.
pub fn encoder_works(error: &Option<String>) -> (r: bool)
    ensures
        r == (error is None),
{
    error.is_none()
}

/// How an encoder is tried out.
#[derive(Debug, Clone)]
pub enum Probe {
    /// It needs no trial: software always works.
    Needless,
    /// No device was found for it.
    NoDevice,
    /// A run with these arguments.
    Run(Vec<String>),
}

/// The arguments of the trial of an encoder.
pub open spec fn probe_args(encoder: Seq<char>, device: Option<Seq<char>>, icq: bool) -> Seq<
    Seq<char>,
> {
    let filter = filter_for(encoder, false);
    seq!["-hide_banner"@, "-loglevel"@, "error"@] + (match device {
        Some(d) if encoder == "vaapi"@ => seq!["-vaapi_device"@, d],
        _ => Seq::empty(),
    }) + seq!["-f"@, "lavfi"@, "-i"@, "color=black:size=256x256:rate=30:duration=0.1"@] + (
    if filter.len() == 0 {
        Seq::empty()
    } else {
        seq!["-vf"@, filter]
    }) + args_for(encoder, DEFAULT, "medium"@, false, icq) + seq!["-f"@, "null"@, "-"@]
}

/// Whether an encoder is a hardware one.
pub open spec fn is_hardware(encoder: Seq<char>) -> bool {
    encoder == "vaapi"@ || encoder == "nvenc"@ || encoder == "qsv"@ || encoder == "amf"@
}

/// How an encoder is tried out: with the arguments of a real render.
pub fn encoder_probe(encoder: &str, device: Option<&str>, icq: bool) -> (p: Probe)
    ensures
        match p {
            Probe::Needless => !is_hardware(encoder@),
            Probe::NoDevice => encoder@ == "vaapi"@ && device is None,
            Probe::Run(args) => is_hardware(encoder@) && (encoder@ == "vaapi"@ ==> device is Some)
                && texts(args@) == probe_args(
                encoder@,
                match device {
                    Some(d) => Some(d@),
                    None => None,
                },
                icq,
            ),
        },
{
    let vaapi: bool = same_text(encoder, "vaapi");
    if !vaapi && !same_text(encoder, "nvenc") && !same_text(encoder, "qsv") && !same_text(
        encoder,
        "amf",
    ) {
        return Probe::Needless;
    }
    let mut args: Vec<String> = Vec::new();
    put(&mut args, "-hide_banner");
    put(&mut args, "-loglevel");
    put(&mut args, "error");
    assert(texts(args@) =~= seq!["-hide_banner"@, "-loglevel"@, "error"@]);
    let ghost start = texts(args@);
    if vaapi {
        match device {
            Some(d) => {
                put(&mut args, "-vaapi_device");
                put(&mut args, d);
            },
            None => {
                return Probe::NoDevice;
            },
        }
    }
    let ghost with_device = match device {
        Some(d) if encoder@ == "vaapi"@ => seq!["-vaapi_device"@, d@],
        _ => Seq::empty(),
    };
    assert(texts(args@) =~= start + with_device);
    let ghost before = texts(args@);
    put(&mut args, "-f");
    put(&mut args, "lavfi");
    put(&mut args, "-i");
    put(&mut args, "color=black:size=256x256:rate=30:duration=0.1");
    assert(texts(args@) =~= before + seq![
        "-f"@,
        "lavfi"@,
        "-i"@,
        "color=black:size=256x256:rate=30:duration=0.1"@,
    ]);
    let enc: EncoderArgs = video_encoder_args(encoder, DEFAULT, "medium", false, icq);
    let ghost before = texts(args@);
    proof {
        reveal_strlit("format=nv12,hwupload");
    }
    if vaapi {
        put(&mut args, "-vf");
        put(&mut args, enc.filter.as_str());
        assert(texts(args@) =~= before + seq!["-vf"@, enc.filter@]);
    } else {
        assert(texts(args@) =~= before + Seq::<Seq<char>>::empty());
    }
    let ghost before = texts(args@);
    put_all(&mut args, enc.args.as_slice());
    let ghost after = texts(args@);
    put(&mut args, "-f");
    put(&mut args, "null");
    put(&mut args, "-");
    assert(texts(args@) =~= after + seq!["-f"@, "null"@, "-"@]);
    Probe::Run(args)
}

/// Appends a list of arguments.
pub(crate) fn put_all(args: &mut Vec<String>, more: &[String])
    ensures
        texts(final(args)@) == texts(old(args)@) + texts(more@),
{
    let mut i: usize = 0;
    assert(texts(args@) =~= texts(old(args)@) + texts(more@).take(0));
    while i < more.len()
        invariant
            i <= more@.len(),
            texts(args@) == texts(old(args)@) + texts(more@).take(i as int),
        decreases more@.len() - i,
    {
        put(args, more[i].as_str());
        assert(texts(more@).take(i + 1) =~= texts(more@).take(i as int).push(more@[i as int]@));
        assert(texts(args@) =~= texts(old(args)@) + texts(more@).take(i + 1));
        i = i + 1;
    }
    assert(texts(more@).take(i as int) =~= texts(more@));
}

/// The arguments of the trial of a VA-API device.
pub open spec fn device_args(device: Seq<char>, icq: bool) -> Seq<Seq<char>> {
    seq![
        "-hide_banner"@,
        "-loglevel"@,
        "error"@,
        "-vaapi_device"@,
        device,
        "-f"@,
        "lavfi"@,
        "-i"@,
        "color=black:size=256x256:rate=30:duration=0.1"@,
        "-vf"@,
        "format=nv12,hwupload"@,
        "-c:v"@,
        "h264_vaapi"@,
    ] + (if icq {
        seq!["-rc_mode"@, "ICQ"@, "-global_quality"@, "23"@]
    } else {
        Seq::empty()
    }) + seq!["-f"@, "null"@, "-"@]
}

/// The arguments of the trial of a VA-API device, with or without the better rate control.
pub fn vaapi_probe(device: &str, icq: bool) -> (args: Vec<String>)
    ensures
        texts(args@) == device_args(device@, icq),
{
    let mut args: Vec<String> = Vec::new();
    put(&mut args, "-hide_banner");
    put(&mut args, "-loglevel");
    put(&mut args, "error");
    put(&mut args, "-vaapi_device");
    put(&mut args, device);
    put(&mut args, "-f");
    put(&mut args, "lavfi");
    put(&mut args, "-i");
    put(&mut args, "color=black:size=256x256:rate=30:duration=0.1");
    put(&mut args, "-vf");
    put(&mut args, "format=nv12,hwupload");
    put(&mut args, "-c:v");
    put(&mut args, "h264_vaapi");
    if icq {
        put(&mut args, "-rc_mode");
        put(&mut args, "ICQ");
        put(&mut args, "-global_quality");
        put(&mut args, "23");
    }
    put(&mut args, "-f");
    put(&mut args, "null");
    put(&mut args, "-");
    assert(texts(args@) =~= device_args(device@, icq));
    args
}

/// What is said where no VA-API device works: why the usual one failed.
pub fn no_device_error(usual: &Trial) -> (why: String)
    ensures
        why@ == (match trial_error(*usual) {
            Some(e) => e,
            None => "no working VAAPI render device in /dev/dri"@,
        }),
{
    match encoder_error(usual) {
        Some(e) => e,
        None => "no working VAAPI render device in /dev/dri".to_owned(),
    }
}

/// Whether a file in the device directory is a render node.
pub fn is_render_node(name: &str) -> (r: bool)
    ensures
        r == begins(name@, "renderD"@),
{
    let chars: Vec<char> = chars_of(name);
    starts_with(chars.as_slice(), "renderD")
}

/// Answers to trials, by the program that was tried.
#[derive(Debug, Clone)]
pub struct ProbeCache {
    /// Programs and answers, oldest first.
    pub entries: Vec<(String, bool)>,
}

/// The last answer for a program.
pub open spec fn answer(entries: Seq<(Seq<char>, bool)>, ffmpeg: Seq<char>) -> Option<bool>
    decreases entries.len(),
{
    if entries.len() == 0 {
        None
    } else if entries.last().0 == ffmpeg {
        Some(entries.last().1)
    } else {
        answer(entries.drop_last(), ffmpeg)
    }
}

impl View for ProbeCache {
    type V = Seq<(Seq<char>, bool)>;

    open spec fn view(&self) -> Seq<(Seq<char>, bool)> {
        Seq::new(self.entries@.len(), |i: int| (self.entries@[i].0@, self.entries@[i].1))
    }
}

impl ProbeCache {
    /// No answers.
    pub fn new() -> (c: ProbeCache)
        ensures
            c@ == Seq::<(Seq<char>, bool)>::empty(),
    {
        let c: ProbeCache = ProbeCache { entries: Vec::new() };
        assert(c@ =~= Seq::empty());
        c
    }

    /// The answer for a program, where it was tried.
    pub fn recall(&self, ffmpeg: &str) -> (a: Option<bool>)
        ensures
            a == answer(self@, ffmpeg@),
    {
        let mut i: usize = self.entries.len();
        assert(self@.take(i as int) =~= self@);
        while i > 0
            invariant
                i <= self.entries@.len(),
                answer(self@, ffmpeg@) == answer(self@.take(i as int), ffmpeg@),
            decreases i,
        {
            assert(self@.take(i as int).drop_last() =~= self@.take(i - 1));
            assert(self@.take(i as int).last() == (
                self.entries@[i - 1].0@,
                self.entries@[i - 1].1,
            ));
            if same_text(self.entries[i - 1].0.as_str(), ffmpeg) {
                return Some(self.entries[i - 1].1);
            }
            i = i - 1;
        }
        None
    }

    /// Keeps an answer.
    pub fn remember(&mut self, ffmpeg: &str, works: bool)
        ensures
            final(self)@ == old(self)@.push((ffmpeg@, works)),
    {
        self.entries.push((ffmpeg.to_owned(), works));
        assert(self@ =~= old(self)@.push((ffmpeg@, works)));
    }
}

/// Whether frames can go to a program over a socket, where it was tried.
pub fn tcp_feed_works(cache: &ProbeCache, ffmpeg: &str) -> (a: Option<bool>)
    ensures
        a == answer(cache@, ffmpeg@),
{
    cache.recall(ffmpeg)
}

/// Whether VA-API takes the better rate control: not asked where it is not needed.
pub fn vaapi_icq_supported(cache: &ProbeCache, ffmpeg: &str, needed: bool) -> (a: Option<bool>)
    ensures
        a == (if needed {
            answer(cache@, ffmpeg@)
        } else {
            Some(false)
        }),
{
    if needed {
        cache.recall(ffmpeg)
    } else {
        Some(false)
    }
}

/// An answer that was kept is given again, and those for other programs stay.
pub proof fn law_answers_are_kept(
    entries: Seq<(Seq<char>, bool)>,
    ffmpeg: Seq<char>,
    works: bool,
    other: Seq<char>,
)
    ensures
        answer(entries.push((ffmpeg, works)), ffmpeg) == Some(works),
        other != ffmpeg ==> answer(entries.push((ffmpeg, works)), other) == answer(entries, other),
{
    assert(entries.push((ffmpeg, works)).drop_last() =~= entries);
}

/// The line that explains a failure is the last one with anything on it.
pub proof fn law_the_last_line_explains(lines: Seq<Seq<char>>)
    ensures
        last_line(lines) is None <==> (forall|i: int|
            0 <= i < lines.len() ==> trimmed(#[trigger] lines[i]).len() == 0),
        last_line(lines) matches Some(l) ==> l.len() > 0 && exists|i: int|
            0 <= i < lines.len() && trimmed(#[trigger] lines[i]) == l && (forall|j: int|
                i < j < lines.len() ==> trimmed(#[trigger] lines[j]).len() == 0),
    decreases lines.len(),
{
    if lines.len() > 0 {
        let rest = lines.drop_last();
        let last = lines.len() - 1;
        assert(lines.last() == lines[last]);
        if trimmed(lines.last()).len() > 0 {
            assert(trimmed(lines[last]) == last_line(lines)->0);
        } else {
            law_the_last_line_explains(rest);
            assert forall|i: int| 0 <= i < rest.len() implies rest[i] == #[trigger] lines[i] by {}
            if last_line(rest) is Some {
                let l = last_line(rest)->0;
                let i = choose|i: int|
                    0 <= i < rest.len() && trimmed(#[trigger] rest[i]) == l && (forall|j: int|
                        i < j < rest.len() ==> trimmed(#[trigger] rest[j]).len() == 0);
                assert(trimmed(lines[i]) == l);
                assert forall|j: int| i < j < lines.len() implies trimmed(#[trigger] lines[j]).len()
                    == 0 by {
                    if j < last {
                        assert(lines[j] == rest[j]);
                    }
                }
            } else {
                assert forall|i: int| 0 <= i < lines.len() implies trimmed(
                    #[trigger] lines[i],
                ).len() == 0 by {
                    if i < last {
                        assert(lines[i] == rest[i]);
                    }
                }
            }
        }
    }
}

/// Whatever the encoder, a better quality is never asked for with a larger number, and the codec is
/// named first.
pub proof fn law_encoders_are_named_first(
    encoder: Seq<char>,
    quality: u32,
    preset: Seq<char>,
    nv12: bool,
    icq: bool,
)
    ensures
        args_for(encoder, quality, preset, nv12, icq).len() >= 8,
        args_for(encoder, quality, preset, nv12, icq)[0] == "-c:v"@,
        encoder == "nvenc"@ ==> args_for(encoder, quality, preset, nv12, icq)[1] == "h264_nvenc"@
            || encoder == "vaapi"@,
        encoder == "vaapi"@ ==> args_for(encoder, quality, preset, nv12, icq)[7] == decimal(
            hardware_q_of(quality) as nat,
        ),
        !is_hardware(encoder) ==> args_for(encoder, quality, preset, nv12, icq)[1] == "libx264"@
            && args_for(encoder, quality, preset, nv12, icq)[7] == decimal(crf_of(quality) as nat)
            && args_for(encoder, quality, preset, nv12, icq)[9] == preset,
{
}

} // verus!
