//! The arguments for ffmpeg: it reads a source and writes MPEG-TS to its
//! standard output.
//!
//! The timestamps of the source are kept, so that the old and the new stream of
//! a change stand on one time line.

use crate::config::Run;
use crate::text;
use crate::text::{push_decimal, push_text, same_text};
use vstd::prelude::*;

verus! {

/// The characters of each text.
pub open spec fn texts(args: Seq<String>) -> Seq<Seq<char>> {
    Seq::new(args.len(), |i: int| args[i]@)
}

/// A bitrate as ffmpeg reads it.
pub open spec fn kilobits(rate: u32) -> Seq<char> {
    text::decimal(rate as int) + "k"@
}

/// What comes first: how the source is read, and that its timestamps are kept.
pub open spec fn input_args(source: Seq<char>) -> Seq<Seq<char>> {
    seq![
        "-nostdin"@,
        "-hide_banner"@,
        "-loglevel"@,
        "warning"@,
        "-fflags"@,
        "+discardcorrupt+genpts"@,
        "-i"@,
        source,
        "-copyts"@,
        "-muxdelay"@,
        "0"@,
        "-muxpreload"@,
        "0"@,
    ]
}

/// A short look at the source, for a fast start.
pub open spec fn probe_args() -> Seq<Seq<char>> {
    seq!["-probesize"@, "32768"@, "-analyzeduration"@, "0"@]
}

/// Video and sound as they are.
pub open spec fn copy_args() -> Seq<Seq<char>> {
    seq!["-c:v"@, "copy"@, "-c:a"@, "copy"@]
}

/// Video and sound encoded.
pub open spec fn encode_args(run: Run) -> Seq<Seq<char>> {
    seq![
        "-vf"@,
        "yadif=0:-1:0,scale="@ + text::decimal(run.width as int) + ":"@ + text::decimal(
            run.height as int,
        ),
        "-c:v"@,
        "libx264"@,
        "-preset"@,
        run.preset@,
        "-tune"@,
        "zerolatency"@,
        "-b:v"@,
        kilobits(run.bitrate),
        "-maxrate"@,
        kilobits(run.maxrate),
        "-bufsize"@,
        kilobits(run.bufsize),
        "-g"@,
        "25"@,
        "-pix_fmt"@,
        "yuv420p"@,
        "-c:a"@,
        "aac"@,
        "-b:a"@,
        kilobits(run.audio_bitrate),
        "-ac"@,
        "2"@,
        "-ar"@,
        "48000"@,
    ]
}

/// Video encoded by the hardware, sound as it is.
pub open spec fn hardware_args(run: Run) -> Seq<Seq<char>> {
    seq![
        "-c:v"@,
        "h264_v4l2m2m"@,
        "-level"@,
        "5"@,
        "-b:v"@,
        kilobits(run.bitrate),
        "-maxrate"@,
        kilobits(run.maxrate),
        "-g"@,
        "25"@,
        "-c:a"@,
        "copy"@,
    ]
}

/// What the mode of a ladder asks for; an unknown mode passes the source on.
pub open spec fn mode_args(run: Run) -> Seq<Seq<char>> {
    if run.mode@ == "copy"@ {
        probe_args() + copy_args()
    } else if run.mode@ == "encode"@ {
        probe_args() + encode_args(run)
    } else if run.mode@ == "hwencode"@ {
        hardware_args(run)
    } else {
        copy_args()
    }
}

/// The identifier of the first stream, where one is asked for.
pub open spec fn pid_args(video_pid: Option<u16>) -> Seq<Seq<char>> {
    match video_pid {
        Some(pid) => seq!["-mpegts_start_pid"@, text::decimal(pid as int)],
        None => seq![],
    }
}

/// How the stream is written.
pub open spec fn output_args(video_pid: Option<u16>) -> Seq<Seq<char>> {
    seq![
        "-f"@,
        "mpegts"@,
        "-mpegts_flags"@,
        "resend_headers"@,
        "-flush_packets"@,
        "1"@,
    ] + pid_args(video_pid) + seq!["pipe:1"@]
}

/// All arguments.
pub open spec fn all_args(run: Run, source: Seq<char>, video_pid: Option<u16>) -> Seq<Seq<char>> {
    input_args(source) + mode_args(run) + output_args(video_pid)
}

fn push_arg(args: &mut Vec<String>, arg: &str)
    ensures
        texts(final(args)@) == texts(old(args)@).push(arg@),
{
    args.push(arg.to_owned());
    assert(texts(args@) =~= texts(old(args)@).push(arg@));
}

fn push_number(args: &mut Vec<String>, number: u64)
    ensures
        texts(final(args)@) == texts(old(args)@).push(text::decimal(number as int)),
{
    let mut arg = String::new();
    push_decimal(&mut arg, number);
    assert(arg@ =~= text::decimal(number as int));
    args.push(arg);
    assert(texts(args@) =~= texts(old(args)@).push(text::decimal(number as int)));
}

fn push_rate(args: &mut Vec<String>, rate: u32)
    ensures
        texts(final(args)@) == texts(old(args)@).push(kilobits(rate)),
{
    let mut arg = String::new();
    push_decimal(&mut arg, rate as u64);
    push_text(&mut arg, "k");
    assert(arg@ =~= kilobits(rate));
    args.push(arg);
    assert(texts(args@) =~= texts(old(args)@).push(kilobits(rate)));
}

fn push_input(args: &mut Vec<String>, source: &str)
    ensures
        texts(final(args)@) == texts(old(args)@) + input_args(source@),
{
    push_arg(args, "-nostdin");
    push_arg(args, "-hide_banner");
    push_arg(args, "-loglevel");
    push_arg(args, "warning");
    push_arg(args, "-fflags");
    push_arg(args, "+discardcorrupt+genpts");
    push_arg(args, "-i");
    push_arg(args, source);
    push_arg(args, "-copyts");
    push_arg(args, "-muxdelay");
    push_arg(args, "0");
    push_arg(args, "-muxpreload");
    push_arg(args, "0");
    assert(texts(args@) =~= texts(old(args)@) + input_args(source@));
}

fn push_probe(args: &mut Vec<String>)
    ensures
        texts(final(args)@) == texts(old(args)@) + probe_args(),
{
    push_arg(args, "-probesize");
    push_arg(args, "32768");
    push_arg(args, "-analyzeduration");
    push_arg(args, "0");
    assert(texts(args@) =~= texts(old(args)@) + probe_args());
}

fn push_copy(args: &mut Vec<String>)
    ensures
        texts(final(args)@) == texts(old(args)@) + copy_args(),
{
    push_arg(args, "-c:v");
    push_arg(args, "copy");
    push_arg(args, "-c:a");
    push_arg(args, "copy");
    assert(texts(args@) =~= texts(old(args)@) + copy_args());
}

fn push_scale(args: &mut Vec<String>, width: u32, height: u32)
    ensures
        texts(final(args)@) == texts(old(args)@).push(
            "yadif=0:-1:0,scale="@ + text::decimal(width as int) + ":"@ + text::decimal(
                height as int,
            ),
        ),
{
    let mut arg = String::new();
    push_text(&mut arg, "yadif=0:-1:0,scale=");
    push_decimal(&mut arg, width as u64);
    push_text(&mut arg, ":");
    push_decimal(&mut arg, height as u64);
    let ghost expected = "yadif=0:-1:0,scale="@ + text::decimal(width as int) + ":"@
        + text::decimal(height as int);
    assert(arg@ =~= expected);
    args.push(arg);
    assert(texts(args@) =~= texts(old(args)@).push(expected));
}

fn push_encode(args: &mut Vec<String>, run: &Run)
    ensures
        texts(final(args)@) == texts(old(args)@) + encode_args(*run),
{
    push_arg(args, "-vf");
    push_scale(args, run.width, run.height);
    push_arg(args, "-c:v");
    push_arg(args, "libx264");
    push_arg(args, "-preset");
    push_arg(args, run.preset.as_str());
    push_arg(args, "-tune");
    push_arg(args, "zerolatency");
    push_arg(args, "-b:v");
    push_rate(args, run.bitrate);
    push_arg(args, "-maxrate");
    push_rate(args, run.maxrate);
    push_arg(args, "-bufsize");
    push_rate(args, run.bufsize);
    push_arg(args, "-g");
    push_arg(args, "25");
    push_arg(args, "-pix_fmt");
    push_arg(args, "yuv420p");
    push_arg(args, "-c:a");
    push_arg(args, "aac");
    push_arg(args, "-b:a");
    push_rate(args, run.audio_bitrate);
    push_arg(args, "-ac");
    push_arg(args, "2");
    push_arg(args, "-ar");
    push_arg(args, "48000");
    assert(texts(args@) =~= texts(old(args)@) + encode_args(*run));
}

fn push_hardware(args: &mut Vec<String>, run: &Run)
    ensures
        texts(final(args)@) == texts(old(args)@) + hardware_args(*run),
{
    push_arg(args, "-c:v");
    push_arg(args, "h264_v4l2m2m");
    push_arg(args, "-level");
    push_arg(args, "5");
    push_arg(args, "-b:v");
    push_rate(args, run.bitrate);
    push_arg(args, "-maxrate");
    push_rate(args, run.maxrate);
    push_arg(args, "-g");
    push_arg(args, "25");
    push_arg(args, "-c:a");
    push_arg(args, "copy");
    assert(texts(args@) =~= texts(old(args)@) + hardware_args(*run));
}

fn push_output(args: &mut Vec<String>, video_pid: Option<u16>)
    ensures
        texts(final(args)@) == texts(old(args)@) + output_args(video_pid),
{
    push_arg(args, "-f");
    push_arg(args, "mpegts");
    push_arg(args, "-mpegts_flags");
    push_arg(args, "resend_headers");
    push_arg(args, "-flush_packets");
    push_arg(args, "1");
    match video_pid {
        Some(pid) => {
            push_arg(args, "-mpegts_start_pid");
            push_number(args, pid as u64);
        },
        None => {},
    }
    push_arg(args, "pipe:1");
    assert(texts(args@) =~= texts(old(args)@) + output_args(video_pid));
}

/// The arguments with which a ladder of a source is started, with an identifier
/// for its video where one is asked for.
pub fn build_args(run: &Run, source: &str, video_pid: Option<u16>) -> (args: Vec<String>)
    ensures
        texts(args@) == all_args(*run, source@, video_pid),
{
    let mut args: Vec<String> = Vec::new();
    push_input(&mut args, source);
    if same_text(run.mode.as_str(), "copy") {
        push_probe(&mut args);
        push_copy(&mut args);
    } else if same_text(run.mode.as_str(), "encode") {
        push_probe(&mut args);
        push_encode(&mut args, run);
    } else if same_text(run.mode.as_str(), "hwencode") {
        push_hardware(&mut args, run);
    } else {
        push_copy(&mut args);
    }
    assert(texts(args@) =~= input_args(source@) + mode_args(*run));
    push_output(&mut args, video_pid);
    args
}

// ---------------------------------------------------------------------------
// Laws
// ---------------------------------------------------------------------------

/// Whether a value directly follows its option.
pub open spec fn given(args: Seq<Seq<char>>, option: Seq<char>, value: Seq<char>) -> bool {
    exists|i: int| 0 <= i && i + 1 < args.len() && #[trigger] args[i] == option && args[i + 1] == value
}

/// Whether an option is there.
pub open spec fn has_option(args: Seq<Seq<char>>, option: Seq<char>) -> bool {
    exists|i: int| 0 <= i < args.len() && #[trigger] args[i] == option
}

proof fn lemma_given(args: Seq<Seq<char>>, i: int)
    requires
        0 <= i,
        i + 1 < args.len(),
    ensures
        given(args, args[i], args[i + 1]),
        has_option(args, args[i]),
{
}

/// Whatever the ladder: ffmpeg takes no input from the terminal, reads the source,
/// keeps its timestamps without delay, and writes a transport stream that repeats
/// its tables to its standard output, each packet at once.
pub proof fn law_relays_source(run: Run, source: Seq<char>, video_pid: Option<u16>)
    ensures
        ({
            let args = all_args(run, source, video_pid);
            &&& args[0] == "-nostdin"@
            &&& args[6] == "-i"@ && args[7] == source
            &&& args[13 + mode_args(run).len() as int] == "-f"@
            &&& given(args, "-i"@, source)
            &&& has_option(args, "-copyts"@)
            &&& given(args, "-fflags"@, "+discardcorrupt+genpts"@)
            &&& given(args, "-loglevel"@, "warning"@)
            &&& has_option(args, "-hide_banner"@)
            &&& given(args, "-muxdelay"@, "0"@)
            &&& given(args, "-muxpreload"@, "0"@)
            &&& given(args, "-f"@, "mpegts"@)
            &&& given(args, "-mpegts_flags"@, "resend_headers"@)
            &&& given(args, "-flush_packets"@, "1"@)
            &&& args[args.len() - 1] == "pipe:1"@
            &&& video_pid matches Some(pid) ==> given(
                args,
                "-mpegts_start_pid"@,
                text::decimal(pid as int),
            )
        }),
{
    let args = all_args(run, source, video_pid);
    let n = 13 + mode_args(run).len() as int;
    lemma_given(args, 1);
    lemma_given(args, 2);
    lemma_given(args, 4);
    lemma_given(args, 6);
    lemma_given(args, 8);
    lemma_given(args, 9);
    lemma_given(args, 11);
    assert(args[n] == "-f"@ && args[n + 1] == "mpegts"@);
    lemma_given(args, n);
    assert(args[n + 2] == "-mpegts_flags"@ && args[n + 3] == "resend_headers"@);
    lemma_given(args, n + 2);
    assert(args[n + 4] == "-flush_packets"@ && args[n + 5] == "1"@);
    lemma_given(args, n + 4);
    if let Some(pid) = video_pid {
        assert(args[n + 6] == "-mpegts_start_pid"@);
        lemma_given(args, n + 6);
    }
}

/// A ladder that passes the source on copies video and sound, after a short look
/// at the source.
pub proof fn law_copies(run: Run, source: Seq<char>, video_pid: Option<u16>)
    requires
        run.mode@ == "copy"@,
    ensures
        ({
            let args = all_args(run, source, video_pid);
            &&& given(args, "-probesize"@, "32768"@)
            &&& given(args, "-analyzeduration"@, "0"@)
            &&& given(args, "-c:v"@, "copy"@)
            &&& given(args, "-c:a"@, "copy"@)
            &&& args.len() == 28 + pid_args(video_pid).len()
        }),
{
    let args = all_args(run, source, video_pid);
    lemma_given(args, 13);
    lemma_given(args, 15);
    lemma_given(args, 17);
    lemma_given(args, 19);
}

/// An encoding ladder scales the picture, and encodes video and sound with the
/// preset and the bitrates of the ladder, in kilobits.
pub proof fn law_encodes(run: Run, source: Seq<char>, video_pid: Option<u16>)
    requires
        run.mode@ == "encode"@,
    ensures
        ({
            let args = all_args(run, source, video_pid);
            &&& given(args, "-probesize"@, "32768"@)
            &&& given(args, "-analyzeduration"@, "0"@)
            &&& given(
                args,
                "-vf"@,
                "yadif=0:-1:0,scale="@ + text::decimal(run.width as int) + ":"@ + text::decimal(
                    run.height as int,
                ),
            )
            &&& given(args, "-c:v"@, "libx264"@)
            &&& given(args, "-preset"@, run.preset@)
            &&& given(args, "-tune"@, "zerolatency"@)
            &&& given(args, "-b:v"@, text::decimal(run.bitrate as int) + "k"@)
            &&& given(args, "-maxrate"@, text::decimal(run.maxrate as int) + "k"@)
            &&& given(args, "-bufsize"@, text::decimal(run.bufsize as int) + "k"@)
            &&& given(args, "-g"@, "25"@)
            &&& given(args, "-pix_fmt"@, "yuv420p"@)
            &&& given(args, "-c:a"@, "aac"@)
            &&& given(args, "-b:a"@, text::decimal(run.audio_bitrate as int) + "k"@)
            &&& given(args, "-ac"@, "2"@)
            &&& given(args, "-ar"@, "48000"@)
            &&& args.len() == 50 + pid_args(video_pid).len()
        }),
{
    let args = all_args(run, source, video_pid);
    lemma_modes_differ();
    assert(mode_args(run) == probe_args() + encode_args(run));
    lemma_given(args, 13);
    lemma_given(args, 15);
    lemma_given(args, 17);
    lemma_given(args, 19);
    lemma_given(args, 21);
    lemma_given(args, 23);
    lemma_given(args, 25);
    lemma_given(args, 27);
    lemma_given(args, 29);
    lemma_given(args, 31);
    lemma_given(args, 33);
    lemma_given(args, 35);
    lemma_given(args, 37);
    lemma_given(args, 39);
    lemma_given(args, 41);
}

proof fn lemma_modes_differ()
    ensures
        "copy"@ != "encode"@,
        "copy"@ != "hwencode"@,
        "encode"@ != "hwencode"@,
{
    reveal_strlit("copy");
    reveal_strlit("encode");
    reveal_strlit("hwencode");
    assert("copy"@.len() == 4 && "encode"@.len() == 6 && "hwencode"@.len() == 8);
}

/// A ladder that is encoded by the hardware has its video encoded with the bitrates
/// of the ladder, and its sound copied.
pub proof fn law_encodes_by_hardware(run: Run, source: Seq<char>, video_pid: Option<u16>)
    requires
        run.mode@ == "hwencode"@,
    ensures
        ({
            let args = all_args(run, source, video_pid);
            &&& given(args, "-c:v"@, "h264_v4l2m2m"@)
            &&& given(args, "-level"@, "5"@)
            &&& given(args, "-b:v"@, text::decimal(run.bitrate as int) + "k"@)
            &&& given(args, "-maxrate"@, text::decimal(run.maxrate as int) + "k"@)
            &&& given(args, "-g"@, "25"@)
            &&& given(args, "-c:a"@, "copy"@)
            &&& args.len() == 32 + pid_args(video_pid).len()
        }),
{
    let args = all_args(run, source, video_pid);
    lemma_modes_differ();
    assert(mode_args(run) == hardware_args(run));
    lemma_given(args, 13);
    lemma_given(args, 15);
    lemma_given(args, 17);
    lemma_given(args, 19);
    lemma_given(args, 21);
    lemma_given(args, 23);
}

/// A ladder of any other mode is copied; nothing is said of streams where no
/// identifier is asked for.
pub proof fn law_other_modes(run: Run, source: Seq<char>, pid: u16)
    requires
        run.mode@ != "copy"@,
        run.mode@ != "encode"@,
        run.mode@ != "hwencode"@,
    ensures
        ({
            let args = all_args(run, source, None);
            &&& given(args, "-c:v"@, "copy"@)
            &&& given(args, "-c:a"@, "copy"@)
            &&& args.len() == 24
        }),
        pid_args(None).len() == 0,
        pid_args(Some(pid)).len() == 2,
{
    let args = all_args(run, source, None);
    lemma_given(args, 13);
    lemma_given(args, 15);
}

} // verus!
