//! Preparing a stream.

use itv_relay::config::Run;
use itv_relay::prepare::{Next, Preparation, PrepareError, ReadOutcome, SWITCH_PREROLL_IDLE};
use itv_relay::preroll::pending_has_video_keyframe;

const SECOND: u128 = 1_000_000_000;

fn run(mode: &str) -> Run {
    Run {
        name: mode.into(),
        mode: mode.into(),
        width: 640,
        height: 360,
        bitrate: 500,
        maxrate: 650,
        bufsize: 1000,
        preset: "ultrafast".into(),
        audio_bitrate: 96,
    }
}

fn packet(pid: u16, payload: &[u8]) -> Vec<u8> {
    let mut packet = vec![0xff; 188];
    packet[0] = 0x47;
    packet[1] = ((pid >> 8) as u8) & 0x1f;
    packet[2] = pid as u8;
    packet[3] = 0x10;
    packet[4..4 + payload.len()].copy_from_slice(payload);
    packet
}

fn reason(next: Next) -> String {
    match next {
        Next::Fail(error) => error.message(),
        Next::Read(_) => "read".to_string(),
        Next::Finish => "finish".to_string(),
    }
}

#[test]
fn the_first_read_decides_alone() {
    let mut p = Preparation::new(&run("copy"), 3 * SECOND, 1000);
    assert_eq!(reason(p.take(ReadOutcome::End, 0)), "EOF immediately");
    assert_eq!(
        reason(p.take(ReadOutcome::Data(Vec::new()), 0)),
        "EOF immediately"
    );
    assert_eq!(
        reason(p.take(ReadOutcome::Failed("broken pipe".into()), 0)),
        "read err: broken pipe"
    );
    assert_eq!(
        reason(p.take(ReadOutcome::TimedOut, 3 * SECOND)),
        "first frame timeout"
    );
}

#[test]
fn later_reads_have_their_own_reasons() {
    let mut p = Preparation::new(&run("copy"), 3 * SECOND, 1000);
    assert!(matches!(
        p.take(ReadOutcome::Data(packet(0, b"pat")), 0),
        Next::Read(SWITCH_PREROLL_IDLE)
    ));
    assert_eq!(reason(p.take(ReadOutcome::End, 0)), "EOF during preroll");
    assert_eq!(
        reason(p.take(ReadOutcome::Failed("gone".into()), 0)),
        "read err during preroll: gone"
    );
}

#[test]
fn reads_wait_no_longer_than_is_left() {
    let mut p = Preparation::new(&run("copy"), 3 * SECOND, 1000);
    assert!(matches!(
        p.take(ReadOutcome::Data(packet(0, b"pat")), 3 * SECOND - 7),
        Next::Read(7)
    ));
    assert!(matches!(
        p.take(ReadOutcome::TimedOut, 3 * SECOND - 5),
        Next::Read(5)
    ));
    assert!(matches!(
        p.take(ReadOutcome::TimedOut, 3 * SECOND),
        Next::Finish
    ));
    assert_eq!(
        p.finish().err().map(|error| error.message()).as_deref(),
        Some("preroll reached timeout before IDR")
    );
}

#[test]
fn a_pause_ends_the_preparation_once_the_keyframe_is_there() {
    let mut p = Preparation::new(&run("copy"), 3 * SECOND, 100_000);
    assert!(matches!(
        p.take(ReadOutcome::Data(packet(256, &[0, 0, 1, 0x65])), 0),
        Next::Read(_)
    ));
    assert!(matches!(p.take(ReadOutcome::TimedOut, SECOND), Next::Finish));
}

#[test]
fn the_goal_and_the_keyframe_are_both_needed() {
    let mut p = Preparation::new(&run("copy"), 3 * SECOND, 376);
    assert!(matches!(
        p.take(ReadOutcome::Data(packet(256, &[0, 0, 1, 0x41])), 0),
        Next::Read(_)
    ));
    assert!(matches!(
        p.take(ReadOutcome::Data(packet(256, &[0, 0, 1, 0x41])), 0),
        Next::Read(_)
    ));
    assert!(matches!(
        p.take(ReadOutcome::Data(packet(256, &[0, 0, 1, 0x65])), 0),
        Next::Finish
    ));
}

#[test]
fn encoded_streams_wait_for_the_second_keyframe() {
    let mut p = Preparation::new(&run("encode"), 3 * SECOND, 188);
    assert!(matches!(
        p.take(ReadOutcome::Data(packet(256, &[0, 0, 1, 0x65])), 0),
        Next::Read(_)
    ));
    assert!(matches!(
        p.take(ReadOutcome::Data(packet(256, &[0, 0, 1, 0x65])), 0),
        Next::Finish
    ));
}

#[test]
fn without_a_keyframe_there_is_a_limit() {
    let mut p = Preparation::new(&run("copy"), 3 * SECOND, 188);
    let data = vec![0xff; 8_388_608];
    match p.take(ReadOutcome::Data(data), 0) {
        Next::Fail(PrepareError::LimitExceeded(limit)) => assert_eq!(limit, 8_388_608),
        other => panic!("{}", reason(other)),
    }
    assert_eq!(
        PrepareError::LimitExceeded(8_388_608).message(),
        "preroll exceeded 8388608 bytes before IDR"
    );
}

#[test]
fn the_result_starts_with_announcements_and_keeps_the_rest() {
    let mut p = Preparation::new(&run("copy"), 3 * SECOND, 188);
    let mut data = packet(0, b"pat");
    data.extend(packet(256, &[0, 0, 1, 0x41]));
    data.extend(packet(256, &[0, 0, 1, 0x65]));
    data.extend([0x47, 1, 2]);
    assert!(matches!(p.take(ReadOutcome::Data(data), 0), Next::Finish));
    let (chunks, tail) = p.finish().ok().unwrap();
    assert_eq!(tail, vec![0x47, 1, 2]);
    assert_eq!(chunks.len(), 2);
    assert_eq!(chunks[0].len(), 2 * 188);
    assert_eq!(chunks[0][3] & 0x30, 0x20);
    assert_eq!(chunks[0][5], 0x80);
    assert_eq!(chunks[1].len(), 2 * 188);
    assert_eq!(&chunks[1][4..7], b"pat");
    assert_eq!(&chunks[1][192..196], &[0, 0, 1, 0x65]);
}

fn table(pid: u16, section: &[u8]) -> Vec<u8> {
    let mut payload = vec![0];
    payload.extend_from_slice(section);
    starting(packet(pid, &payload))
}

fn starting(mut packet: Vec<u8>) -> Vec<u8> {
    packet[1] |= 0x40;
    packet
}

#[test]
fn an_encoded_stream_starts_at_its_second_keyframe_and_keeps_it() {
    let pat = table(
        0,
        &[
            0x00, 0xb0, 0x0d, 0, 1, 0xc1, 0, 0, 0, 1, 0xe1, 0x00, 0, 0, 0, 0,
        ],
    );
    let pmt = table(
        0x100,
        &[
            0x02, 0xb0, 0x17, 0, 1, 0xc1, 0, 0, 0xe1, 0x01, 0xf0, 0x00, 0x0f, 0xe1, 0x02, 0xf0,
            0x00, 0x1b, 0xe1, 0x01, 0xf0, 0x00, 0, 0, 0, 0,
        ],
    );
    let mut data = pat.clone();
    data.extend(pmt);
    data.extend(starting(packet(0x101, &[0, 0, 1, 0x65, 0x01])));
    data.extend(starting(packet(0x102, b"old-aac")));
    data.extend(starting(packet(0x101, &[0, 0, 1, 0x65, 0x02])));
    data.extend(packet(0x102, b"part-aac"));
    data.extend(starting(packet(0x102, b"new-aac")));
    let mut p = Preparation::new(&run("encode"), 3 * SECOND, 188);
    assert!(matches!(p.take(ReadOutcome::Data(data), 0), Next::Finish));
    let (chunks, tail) = p.finish().ok().unwrap();
    assert!(tail.is_empty());
    assert!(pending_has_video_keyframe(&chunks));
    assert_eq!(chunks[0].len(), 4 * 188);
    let body = &chunks[1];
    assert_eq!(body.len(), 4 * 188);
    assert_eq!(&body[..188], &pat[..]);
    assert_eq!(&body[2 * 188 + 4..2 * 188 + 9], &[0, 0, 1, 0x65, 0x02]);
    assert!(body.windows(7).any(|w| w == b"new-aac"));
    assert!(!body.windows(8).any(|w| w == b"part-aac"));
    assert!(!body.windows(7).any(|w| w == b"old-aac"));
}
