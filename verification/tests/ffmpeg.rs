//! The arguments for ffmpeg.

use itv_relay::config::Run;
use itv_relay::ffmpeg::build_args;

fn run(mode: &str) -> Run {
    Run {
        name: mode.into(),
        mode: mode.into(),
        width: 1280,
        height: 720,
        bitrate: 1000,
        maxrate: 1200,
        bufsize: 2500,
        preset: "ultrafast".into(),
        audio_bitrate: 96,
    }
}

fn joined(mode: &str, pid: Option<u16>) -> String {
    build_args(&run(mode), "http://s", pid).join(" ")
}

#[test]
fn copying_takes_a_short_look() {
    assert_eq!(
        joined("copy", None),
        "-nostdin -hide_banner -loglevel warning -fflags +discardcorrupt+genpts -i http://s \
         -copyts -muxdelay 0 -muxpreload 0 -probesize 32768 -analyzeduration 0 \
         -c:v copy -c:a copy \
         -f mpegts -mpegts_flags resend_headers -flush_packets 1 pipe:1"
    );
}

#[test]
fn encoding_sets_size_and_rates() {
    assert_eq!(
        joined("encode", None),
        "-nostdin -hide_banner -loglevel warning -fflags +discardcorrupt+genpts -i http://s \
         -copyts -muxdelay 0 -muxpreload 0 -probesize 32768 -analyzeduration 0 \
         -vf yadif=0:-1:0,scale=1280:720 -c:v libx264 -preset ultrafast -tune zerolatency \
         -b:v 1000k -maxrate 1200k -bufsize 2500k -g 25 -pix_fmt yuv420p \
         -c:a aac -b:a 96k -ac 2 -ar 48000 \
         -f mpegts -mpegts_flags resend_headers -flush_packets 1 pipe:1"
    );
}

#[test]
fn hardware_keeps_the_sound() {
    assert_eq!(
        joined("hwencode", None),
        "-nostdin -hide_banner -loglevel warning -fflags +discardcorrupt+genpts -i http://s \
         -copyts -muxdelay 0 -muxpreload 0 \
         -c:v h264_v4l2m2m -level 5 -b:v 1000k -maxrate 1200k -g 25 -c:a copy \
         -f mpegts -mpegts_flags resend_headers -flush_packets 1 pipe:1"
    );
}

#[test]
fn an_unknown_mode_copies() {
    assert_eq!(
        joined("mystery", None),
        "-nostdin -hide_banner -loglevel warning -fflags +discardcorrupt+genpts -i http://s \
         -copyts -muxdelay 0 -muxpreload 0 -c:v copy -c:a copy \
         -f mpegts -mpegts_flags resend_headers -flush_packets 1 pipe:1"
    );
}

#[test]
fn the_video_identifier_comes_before_the_output() {
    assert!(joined("copy", Some(514)).ends_with("-flush_packets 1 -mpegts_start_pid 514 pipe:1"));
}
