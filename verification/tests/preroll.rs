//! Cutting and marking streams.

use itv_relay::mpegts::{ts_pid, TS_PACKET_SIZE};
use itv_relay::preroll::{
    drop_initial_non_video_elementary_continuations, enqueue_complete_ts_packets,
    mark_initial_discontinuity, pending_has_video_keyframe, prepend_discontinuity_packets,
    trim_pending_to_nth_video_keyframe, trim_pending_to_nth_video_keyframe_pes,
    trim_pending_to_video_keyframe,
};
use std::collections::VecDeque;

fn packet_with_adaptation(pid: u16) -> Vec<u8> {
    let mut packet = vec![0xff; TS_PACKET_SIZE];
    packet[0] = 0x47;
    packet[1] = ((pid >> 8) as u8) & 0x1f;
    packet[2] = pid as u8;
    packet[3] = 0x30;
    packet[4] = 1;
    packet[5] = 0;
    packet
}

fn ts_packet(pid: u16, payload: &[u8]) -> Vec<u8> {
    let mut packet = vec![0xff; TS_PACKET_SIZE];
    packet[0] = 0x47;
    packet[1] = ((pid >> 8) as u8) & 0x1f;
    packet[2] = pid as u8;
    packet[3] = 0x10;
    let len = payload.len().min(TS_PACKET_SIZE - 4);
    packet[4..4 + len].copy_from_slice(&payload[..len]);
    packet
}

fn section_packet(pid: u16, section: &[u8]) -> Vec<u8> {
    let mut packet = ts_packet(pid, &[]);
    packet[1] |= 0x40;
    packet[4] = 0;
    let len = section.len().min(TS_PACKET_SIZE - 5);
    packet[5..5 + len].copy_from_slice(&section[..len]);
    packet
}

fn pat_packet(pmt_pid: u16) -> Vec<u8> {
    section_packet(
        0,
        &[
            0x00,
            0xb0,
            0x0d,
            0x00,
            0x01,
            0xc1,
            0x00,
            0x00,
            0x00,
            0x01,
            0xe0 | ((pmt_pid >> 8) as u8 & 0x1f),
            pmt_pid as u8,
            0,
            0,
            0,
            0,
        ],
    )
}

fn pmt_packet(pmt_pid: u16, video_pid: u16, audio_pid: u16) -> Vec<u8> {
    pmt_packet_with_video_type(pmt_pid, video_pid, audio_pid, 0x1b)
}

fn pmt_packet_with_video_type(
    pmt_pid: u16,
    video_pid: u16,
    audio_pid: u16,
    video_stream_type: u8,
) -> Vec<u8> {
    section_packet(
        pmt_pid,
        &[
            0x02,
            0xb0,
            0x17,
            0x00,
            0x01,
            0xc1,
            0x00,
            0x00,
            0xe0 | ((video_pid >> 8) as u8 & 0x1f),
            video_pid as u8,
            0xf0,
            0x00,
            0x0f,
            0xe0 | ((audio_pid >> 8) as u8 & 0x1f),
            audio_pid as u8,
            0xf0,
            0x00,
            video_stream_type,
            0xe0 | ((video_pid >> 8) as u8 & 0x1f),
            video_pid as u8,
            0xf0,
            0x00,
            0,
            0,
            0,
            0,
        ],
    )
}

#[test]
fn packetizer_holds_partial_ts_packet() {
    let mut tail = Vec::new();
    let mut pending = VecDeque::new();

    enqueue_complete_ts_packets(&vec![1; 100], &mut tail, &mut pending);
    assert!(pending.is_empty());
    assert_eq!(tail.len(), 100);

    enqueue_complete_ts_packets(&vec![2; 100], &mut tail, &mut pending);
    assert_eq!(pending.len(), 1);
    assert_eq!(pending[0].len(), TS_PACKET_SIZE);
    assert_eq!(tail.len(), 12);
}

#[test]
fn marks_first_packet_per_pid_as_discontinuous_when_possible() {
    let mut pending = VecDeque::from(vec![
        packet_with_adaptation(256),
        packet_with_adaptation(257),
        packet_with_adaptation(256),
    ]);

    mark_initial_discontinuity(&mut pending);

    assert_eq!(pending[0][5] & 0x80, 0x80);
    assert_eq!(pending[1][5] & 0x80, 0x80);
    assert_eq!(pending[2][5] & 0x80, 0);
}

#[test]
fn prepends_adaptation_only_discontinuity_packets_for_each_pid() {
    let mut first = ts_packet(256, b"video");
    first[3] = (first[3] & 0xf0) | 7;
    let mut second = ts_packet(257, b"audio");
    second[3] = (second[3] & 0xf0) | 3;
    let mut pending = VecDeque::from(vec![first, second]);

    prepend_discontinuity_packets(&mut pending);

    assert_eq!(pending[0].len(), TS_PACKET_SIZE * 2);
    assert_eq!(ts_pid(&pending[0][..TS_PACKET_SIZE]), Some(256));
    assert_eq!(pending[0][3] & 0x30, 0x20);
    assert_eq!(pending[0][3] & 0x0f, 7);
    assert_eq!(pending[0][5] & 0x80, 0x80);
    assert_eq!(ts_pid(&pending[0][TS_PACKET_SIZE..]), Some(257));
    assert_eq!(pending[0][TS_PACKET_SIZE + 3] & 0x0f, 3);
}

#[test]
fn copy_preroll_trim_keeps_pat_but_drops_pre_idr_video() {
    let mut pending = VecDeque::new();
    pending.push_back(ts_packet(0, b"old-pat"));
    pending.push_back(ts_packet(256, &[0, 0, 1, 0x41]));
    pending.push_back(ts_packet(0, b"new-pat"));
    pending.push_back(ts_packet(256, &[0, 0, 1, 0x65]));

    let trimmed = trim_pending_to_video_keyframe(pending).expect("IDR should be found");

    assert_eq!(ts_pid(&trimmed[0]), Some(0));
    assert!(trimmed[0][4..].starts_with(b"new-pat"));
    assert_eq!(trimmed[0].len(), TS_PACKET_SIZE * 2);
    assert_eq!(ts_pid(&trimmed[0][TS_PACKET_SIZE..]), Some(256));
    assert!(!trimmed[0].windows(4).any(|w| w == [0, 0, 1, 0x41]));
    assert!(pending_has_video_keyframe(&trimmed));
}

#[test]
fn copy_preroll_trim_keeps_h264_parameter_sets_before_idr() {
    let mut pending = VecDeque::new();
    pending.push_back(ts_packet(0, b"pat"));
    pending.push_back(ts_packet(256, &[0, 0, 1, 0x41]));
    pending.push_back(ts_packet(256, &[0, 0, 1, 0x67]));
    pending.push_back(ts_packet(256, &[0, 0, 1, 0x68]));
    pending.push_back(ts_packet(256, &[0, 0, 1, 0x65]));

    let trimmed = trim_pending_to_video_keyframe(pending).expect("IDR should be found");

    assert_eq!(trimmed[0].len(), TS_PACKET_SIZE * 4);
    assert_eq!(ts_pid(&trimmed[0]), Some(0));
    assert!(trimmed[0].windows(4).any(|w| w == [0, 0, 1, 0x67]));
    assert!(trimmed[0].windows(4).any(|w| w == [0, 0, 1, 0x68]));
    assert!(trimmed[0].windows(4).any(|w| w == [0, 0, 1, 0x65]));
    assert!(!trimmed[0].windows(4).any(|w| w == [0, 0, 1, 0x41]));
}

#[test]
fn copy_preroll_trim_keeps_non_adjacent_h264_parameter_sets_before_idr() {
    let mut pending = VecDeque::new();
    pending.push_back(ts_packet(0, b"pat"));
    pending.push_back(ts_packet(256, &[0, 0, 1, 0x67]));
    pending.push_back(ts_packet(256, &[0, 0, 1, 0x68]));
    pending.push_back(ts_packet(256, &[0, 0, 1, 0x41]));
    pending.push_back(ts_packet(256, &[0, 0, 1, 0x65]));

    let trimmed = trim_pending_to_video_keyframe(pending).expect("IDR should be found");

    assert_eq!(ts_pid(&trimmed[0]), Some(0));
    assert!(trimmed[0].windows(4).any(|w| w == [0, 0, 1, 0x67]));
    assert!(trimmed[0].windows(4).any(|w| w == [0, 0, 1, 0x68]));
    assert!(trimmed[0].windows(4).any(|w| w == [0, 0, 1, 0x65]));
    assert!(!trimmed[0].windows(4).any(|w| w == [0, 0, 1, 0x41]));
}

#[test]
fn preroll_can_trim_to_second_keyframe_for_encode_startup() {
    let mut pending = VecDeque::new();
    pending.push_back(ts_packet(0, b"pat"));
    pending.push_back(ts_packet(256, &[0, 0, 1, 0x67]));
    pending.push_back(ts_packet(256, &[0, 0, 1, 0x68]));
    pending.push_back(ts_packet(256, &[0, 0, 1, 0x65, 0x01]));
    pending.push_back(ts_packet(256, &[0, 0, 1, 0x41]));
    pending.push_back(ts_packet(256, &[0, 0, 1, 0x67]));
    pending.push_back(ts_packet(256, &[0, 0, 1, 0x68]));
    pending.push_back(ts_packet(256, &[0, 0, 1, 0x65, 0x02]));

    let trimmed =
        trim_pending_to_nth_video_keyframe(pending, 2).expect("second IDR should be found");

    assert!(!trimmed[0].windows(5).any(|w| w == [0, 0, 1, 0x65, 0x01]));
    assert!(trimmed[0].windows(5).any(|w| w == [0, 0, 1, 0x65, 0x02]));
    assert!(trimmed[0].windows(4).any(|w| w == [0, 0, 1, 0x67]));
    assert!(trimmed[0].windows(4).any(|w| w == [0, 0, 1, 0x68]));
}

#[test]
fn encode_preroll_trim_starts_at_pes_boundary_for_second_keyframe() {
    let pmt_pid = 100;
    let video_pid = 256;
    let audio_pid = 257;
    let mut dirty = ts_packet(video_pid, &[0, 0, 1, 0x41]);
    dirty[1] |= 0x40;
    let mut first_idr = ts_packet(video_pid, &[0, 0, 1, 0x65, 0x01]);
    first_idr[1] |= 0x40;
    let mut second_idr = ts_packet(video_pid, &[0, 0, 1, 0x65, 0x02]);
    second_idr[1] |= 0x40;
    let pending = VecDeque::from(vec![
        pat_packet(pmt_pid),
        pmt_packet(pmt_pid, video_pid, audio_pid),
        dirty,
        first_idr,
        second_idr,
    ]);

    let trimmed = trim_pending_to_nth_video_keyframe_pes(pending, 2)
        .expect("second IDR PES should be found");

    assert_eq!(ts_pid(&trimmed[0]), Some(0));
    assert_eq!(ts_pid(&trimmed[0][TS_PACKET_SIZE..]), Some(pmt_pid));
    assert_eq!(ts_pid(&trimmed[0][TS_PACKET_SIZE * 2..]), Some(video_pid));
    assert!(trimmed[0][TS_PACKET_SIZE * 2 + 1] & 0x40 != 0);
    assert!(!trimmed[0].windows(5).any(|w| w == [0, 0, 1, 0x65, 0x01]));
    assert!(trimmed[0].windows(5).any(|w| w == [0, 0, 1, 0x65, 0x02]));
}

#[test]
fn preroll_drops_initial_audio_continuation_until_pes_start() {
    let pmt_pid = 100;
    let video_pid = 256;
    let audio_pid = 257;
    let mut video_idr = ts_packet(video_pid, &[0, 0, 1, 0x65]);
    video_idr[1] |= 0x40;
    let audio_continuation = ts_packet(audio_pid, b"partial-aac");
    let mut audio_start = ts_packet(audio_pid, b"fresh-aac");
    audio_start[1] |= 0x40;
    let pending = VecDeque::from(vec![
        pat_packet(pmt_pid),
        pmt_packet(pmt_pid, video_pid, audio_pid),
        video_idr,
        audio_continuation,
        audio_start,
    ]);

    let trimmed =
        trim_pending_to_nth_video_keyframe_pes(pending, 1).expect("video PES should be found");
    let cleaned = drop_initial_non_video_elementary_continuations(trimmed);

    assert!(!cleaned[0].windows(11).any(|w| w == b"partial-aac"));
    assert!(cleaned[0].windows(9).any(|w| w == b"fresh-aac"));
    assert!(pending_has_video_keyframe(&cleaned));
}

#[test]
fn h264_idr_detection_handles_start_code_split_across_ts_packets() {
    let mut pending = VecDeque::new();
    pending.push_back(ts_packet(0, b"pat"));
    let mut first_payload = vec![0xaa; TS_PACKET_SIZE - 6];
    first_payload.extend_from_slice(&[0, 0]);
    pending.push_back(ts_packet(256, &first_payload));
    pending.push_back(ts_packet(256, &[1, 0x65, 0x88]));

    let trimmed = trim_pending_to_video_keyframe(pending).expect("split IDR should be found");

    assert_eq!(ts_pid(&trimmed[0]), Some(0));
    assert!(pending_has_video_keyframe(&trimmed));
}

#[test]
fn h264_idr_detection_uses_pmt_video_pid() {
    let pmt_pid = 100;
    let video_pid = 256;
    let audio_pid = 257;
    let mut pending = VecDeque::new();
    pending.push_back(pat_packet(pmt_pid));
    pending.push_back(pmt_packet(pmt_pid, video_pid, audio_pid));
    pending.push_back(ts_packet(audio_pid, &[0, 0, 1, 0x65]));
    pending.push_back(pat_packet(pmt_pid));
    pending.push_back(pmt_packet(pmt_pid, video_pid, audio_pid));
    pending.push_back(ts_packet(video_pid, &[0, 0, 1, 0x65]));

    let trimmed = trim_pending_to_video_keyframe(pending).expect("video IDR should be found");

    assert_eq!(trimmed[0].len(), TS_PACKET_SIZE * 3);
    assert_eq!(ts_pid(&trimmed[0]), Some(0));
    assert_eq!(ts_pid(&trimmed[0][TS_PACKET_SIZE..]), Some(pmt_pid));
    assert_eq!(ts_pid(&trimmed[0][TS_PACKET_SIZE * 2..]), Some(video_pid));
}

#[test]
fn h265_idr_detection_uses_pmt_video_pid() {
    let pmt_pid = 100;
    let video_pid = 300;
    let audio_pid = 301;
    let mut pending = VecDeque::new();
    pending.push_back(pat_packet(pmt_pid));
    pending.push_back(pmt_packet_with_video_type(
        pmt_pid, video_pid, audio_pid, 0x24,
    ));
    pending.push_back(ts_packet(audio_pid, &[0, 0, 1, 0x26]));
    pending.push_back(pat_packet(pmt_pid));
    pending.push_back(pmt_packet_with_video_type(
        pmt_pid, video_pid, audio_pid, 0x24,
    ));
    pending.push_back(ts_packet(video_pid, &[0, 0, 1, 0x26, 0x01]));

    let trimmed = trim_pending_to_video_keyframe(pending).expect("HEVC IDR should be found");

    assert_eq!(trimmed[0].len(), TS_PACKET_SIZE * 3);
    assert_eq!(ts_pid(&trimmed[0]), Some(0));
    assert_eq!(ts_pid(&trimmed[0][TS_PACKET_SIZE..]), Some(pmt_pid));
    assert_eq!(ts_pid(&trimmed[0][TS_PACKET_SIZE * 2..]), Some(video_pid));
}
