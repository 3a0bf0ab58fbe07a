//! Tables and keyframes.

use itv_relay::keyframe::{
    find_nth_video_keyframe_span, nal_start_codes, ts_payload_bytes_with_offsets,
};
use itv_relay::mpegts::{
    elementary_pids, parse_pat_for_pmt_pid, parse_pmt_for_video_stream, ts_payload_start, ts_pid,
    video_stream, VideoCodec,
};

fn packet(pid: u16, payload: &[u8]) -> Vec<u8> {
    let mut packet = vec![0xff; 188];
    packet[0] = 0x47;
    packet[1] = ((pid >> 8) as u8) & 0x1f;
    packet[2] = pid as u8;
    packet[3] = 0x10;
    packet[4..4 + payload.len()].copy_from_slice(payload);
    packet
}

fn table(pid: u16, section: &[u8]) -> Vec<u8> {
    let mut payload = vec![0];
    payload.extend_from_slice(section);
    let mut packet = packet(pid, &payload);
    packet[1] |= 0x40;
    packet
}

fn pat() -> Vec<u8> {
    table(
        0,
        &[
            0x00, 0xb0, 0x0d, 0, 1, 0xc1, 0, 0, 0, 1, 0xe1, 0x00, 0, 0, 0, 0,
        ],
    )
}

fn pmt(video_type: u8) -> Vec<u8> {
    table(
        0x100,
        &[
            0x02, 0xb0, 0x17, 0, 1, 0xc1, 0, 0, 0xe1, 0x01, 0xf0, 0x00, 0x0f, 0xe1, 0x02, 0xf0,
            0x00, video_type, 0xe1, 0x01, 0xf0, 0x00, 0, 0, 0, 0,
        ],
    )
}

#[test]
fn packets_have_identifiers_and_payloads() {
    let mut p = packet(0x1abc, b"x");
    assert_eq!(ts_pid(&p), Some(0x1abc));
    assert_eq!(ts_pid(&p[..187]), None);
    assert_eq!(ts_payload_start(&p), Some(4));
    p[3] = 0x30;
    p[4] = 182;
    assert_eq!(ts_payload_start(&p), Some(187));
    p[4] = 183;
    assert_eq!(ts_payload_start(&p), None);
    p[3] = 0x20;
    assert_eq!(ts_payload_start(&p), None);
    p[0] = 0;
    assert_eq!(ts_pid(&p), None);
}

#[test]
fn tables_announce_the_video() {
    assert_eq!(parse_pat_for_pmt_pid(&pat()), Some(0x100));
    assert_eq!(parse_pat_for_pmt_pid(&pmt(0x1b)), None);
    let video = parse_pmt_for_video_stream(&pmt(0x1b), 0x100).unwrap();
    assert_eq!((video.pid, video.codec), (0x101, VideoCodec::H264));
    let video = parse_pmt_for_video_stream(&pmt(0x24), 0x100).unwrap();
    assert_eq!(video.codec, VideoCodec::H265);
    assert!(parse_pmt_for_video_stream(&pmt(0x02), 0x100).is_none());
    assert!(parse_pmt_for_video_stream(&pmt(0x1b), 0x111).is_none());

    let mut data = pat();
    data.extend(pmt(0x1b));
    assert_eq!(video_stream(&data).unwrap().pid, 0x101);
    let mut pids: Vec<u16> = elementary_pids(&data).into_iter().collect();
    pids.sort();
    assert_eq!(pids, vec![0x101, 0x102]);
    assert!(video_stream(&pmt(0x1b)).is_none());
}

#[test]
fn payload_bytes_know_where_they_stand() {
    let mut data = packet(7, b"a");
    data.extend(packet(8, b"b"));
    data.extend(packet(7, b"c"));
    data.push(0x47);
    let (payload, offsets) = ts_payload_bytes_with_offsets(&data, Some(7));
    assert_eq!(payload.len(), 2 * 184);
    assert_eq!(payload[0], b'a');
    assert_eq!(payload[184], b'c');
    assert_eq!(offsets[0], 4);
    assert_eq!(offsets[184], 2 * 188 + 4);
    for (byte, offset) in payload.iter().zip(&offsets) {
        assert_eq!(*byte, data[*offset]);
    }
}

#[test]
fn start_codes_have_three_or_four_bytes() {
    let payload = [0, 0, 1, 9, 9, 9, 0, 0, 0, 1, 9, 9, 9, 0, 0, 1, 9];
    assert_eq!(nal_start_codes(&payload), vec![(0, 3), (6, 4)]);
    assert!(nal_start_codes(&[0, 0, 1]).is_empty());
}

#[test]
fn spans_start_at_the_prelude() {
    let mut data = packet(256, &[0, 0, 1, 0x41]);
    data.extend(packet(256, &[0, 0, 1, 0x67]));
    data.extend(packet(256, &[0, 0, 1, 0x68]));
    data.extend(packet(256, &[0, 0, 1, 0x65]));
    let span = find_nth_video_keyframe_span(&data, 1).unwrap();
    assert_eq!(span.prelude_offset, 188 + 4);
    assert_eq!(span.keyframe_offset, 3 * 188 + 4);
    assert_eq!(span.parameter_ranges, vec![(188, 376), (376, 564)]);
    assert_eq!(span.video_pid, None);
    assert!(find_nth_video_keyframe_span(&data, 2).is_none());
    assert!(find_nth_video_keyframe_span(&data, 0).is_none());
}

#[test]
fn start_codes_stand_around_two_zeros_and_a_one() {
    let payload = [0, 0, 0, 0, 1, 0, 0, 1, 2, 0, 0, 1, 0, 0, 0, 1, 9, 9, 9];
    assert_eq!(
        nal_start_codes(&payload),
        vec![(1, 4), (5, 3), (9, 3), (12, 4)]
    );
}
