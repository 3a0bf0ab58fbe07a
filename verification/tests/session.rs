//! A playing session.

use itv_relay::binary64::Binary64;
use itv_relay::clock::SECOND;
use itv_relay::config::{Config, Congestion, Run};
use itv_relay::prepare::{Next, Preparation, ReadOutcome};
use itv_relay::session::{ready_stream, times_measurable, Action, ReadyStream, Session};
use itv_relay::state::Regime;
use itv_relay::streambuf::SendResult;
use std::collections::VecDeque;

const NOW: u128 = 1_000_000 * SECOND;

fn float(value: f64) -> Binary64 {
    Binary64 { bits: value.to_bits() }
}

fn run(mode: &str, bitrate: u32) -> Run {
    Run {
        name: mode.into(),
        mode: mode.into(),
        width: 640,
        height: 360,
        bitrate,
        maxrate: bitrate,
        bufsize: 1000,
        preset: "ultrafast".into(),
        audio_bitrate: 100,
    }
}

fn config() -> Config {
    Config {
        playlist_path: "list.m3u".into(),
        listen: "0.0.0.0:8088".into(),
        base_url: None,
        logo_base: "http://logos".into(),
        epg_url: None,
        ladder: vec![run("copy", 8000), run("encode", 4700), run("encode", 2300)],
        startup_ladder: 1,
        startup_hold_s: float(5.0),
        switch_timeout_s: float(8.0),
        switch_preroll_bytes: 262_144,
        congestion: Congestion {
            down_ratio: float(0.95),
            down_hold_s: float(1.0),
            up_ratio: float(0.95),
            up_hold_s: float(2.0),
            up_cooldown_s: float(20.0),
            down_cooldown_s: float(8.0),
        },
        sample_interval_s: float(1.0),
    }
}

fn stream(ladder: usize, chunks: Vec<Vec<u8>>) -> ReadyStream {
    ReadyStream {
        ladder,
        chunks: VecDeque::from(chunks),
        tail: vec![0x47],
        rate: 600_000,
    }
}

fn session() -> Session {
    Session::new(&config(), stream(1, vec![vec![1; 188], vec![2; 188]]), NOW)
}

fn chunk_of(action: Action) -> Vec<u8> {
    match action {
        Action::Send(chunk) => chunk,
        _ => panic!("nothing to send"),
    }
}

fn drain(session: &mut Session) {
    while let Action::Send(_) = session.next() {
        assert!(session.sent(SendResult::Sent));
    }
}

#[test]
fn times_that_cannot_be_measured_are_told() {
    assert!(times_measurable(&config()));
    let mut cfg = config();
    cfg.congestion.down_cooldown_s = float(f64::INFINITY);
    assert!(!times_measurable(&cfg));
    let mut cfg = config();
    cfg.sample_interval_s = float(1e30);
    assert!(!times_measurable(&cfg));
    let mut cfg = config();
    cfg.switch_timeout_s = float(f64::NAN);
    assert!(!times_measurable(&cfg));
}

#[test]
fn what_is_ready_is_sent_first_and_in_order() {
    let mut s = session();
    let first = chunk_of(s.next());
    assert_eq!(first, vec![1; 188]);
    assert!(s.sent(SendResult::Full(first)));
    assert_eq!(chunk_of(s.next()), vec![1; 188]);
    assert!(s.sent(SendResult::Sent));
    assert_eq!(chunk_of(s.next()), vec![2; 188]);
    assert!(s.sent(SendResult::Sent));
    assert!(matches!(s.next(), Action::Read));
    assert!(!s.sent(SendResult::Closed));
}

#[test]
fn data_is_cut_into_packets_behind_the_rest() {
    let mut s = session();
    drain(&mut s);
    assert!(!s.read(ReadOutcome::Data(vec![9; 187])));
    let mut expected = vec![0x47];
    expected.extend(vec![9; 187]);
    assert_eq!(chunk_of(s.next()), expected);
    assert!(s.ts_tail.is_empty());
}

#[test]
fn a_broken_stream_is_recovered_behind_what_waits() {
    let mut s = session();
    s.pending_switch = Some(2);
    assert!(s.read(ReadOutcome::End));
    assert!(!s.read(ReadOutcome::End));
    assert_eq!(s.pending_switch, None);
    drain(&mut s);
    assert!(matches!(s.next(), Action::AwaitRecovery));
    assert!(s.recovery_done(Some(stream(2, vec![vec![7; 188]])), 100, NOW + SECOND));
    assert_eq!(s.cur_ladder, 2);
    assert_eq!(s.sm.current, 2);
    assert!(s.startup_direct_attempted);
    assert_eq!(s.prev_backlog_bytes, 288);
    assert_eq!(s.last_sample, NOW + SECOND);
    assert_eq!(chunk_of(s.next()), vec![7; 188]);
}

#[test]
fn without_any_stream_the_session_ends() {
    let mut s = session();
    assert!(s.read(ReadOutcome::Failed("gone".into())));
    assert!(!s.recovery_done(None, 0, NOW));
    drain(&mut s);
    assert!(matches!(s.next(), Action::Stop));
}

#[test]
fn a_nearly_full_queue_changes_the_ladder() {
    let mut s = session();
    assert!(!s.sample_due(NOW + SECOND - 1));
    assert!(s.sample_due(NOW + SECOND));
    assert_eq!(s.sample(60, 1_000_000, 500_000, NOW + SECOND), Some(2));
    assert_eq!(s.pending_switch, Some(2));
    assert_eq!(s.sm.current, 2);
    assert_eq!(s.cur_ladder, 1);

    // Nothing else is decided while the new stream is being prepared.
    assert_eq!(s.sample(64, 2_000_000, 0, NOW + 2 * SECOND), None);
    assert_eq!(s.sm.current, 2);

    s.switch_ready(stream(2, vec![vec![5; 188]]), 0);
    assert_eq!(s.cur_ladder, 2);
    assert_eq!(s.pending_switch, None);
    assert_eq!(s.prev_backlog_bytes, 188);
    assert_eq!(chunk_of(s.next()), vec![5; 188]);
    assert!(matches!(s.next(), Action::Read));
}

#[test]
fn a_failed_change_goes_on_as_before() {
    let mut s = session();
    assert_eq!(s.sample(60, 1_000_000, 500_000, NOW + SECOND), Some(2));
    s.switch_failed(NOW + 2 * SECOND);
    assert_eq!(s.cur_ladder, 1);
    assert_eq!(s.sm.current, 1);
    assert_eq!(s.sm.regime, Regime::Encode);
    assert_eq!(s.pending_writes.len(), 2);
    assert_eq!(s.sample(60, 1_000_000, 500_000, NOW + 3 * SECOND), None);
}

#[test]
fn ladder_zero_is_tried_once_after_the_start() {
    let mut s = session();
    drain(&mut s);
    assert_eq!(s.sample(0, 0, 600_000, NOW + SECOND), None);
    assert!(!s.startup_direct_attempted);
    assert_eq!(s.sample(0, 0, 600_000, NOW + 5 * SECOND), Some(0));
    assert!(s.startup_direct_attempted);
    assert_eq!(s.sm.regime, Regime::Probing);
    s.switch_failed(NOW + 6 * SECOND);
    assert_eq!(s.sm.consecutive_up_fails, 1);
    assert_eq!(s.sample(0, 0, 600_000, NOW + 7 * SECOND), None);
}

#[test]
fn ladder_zero_is_not_tried_without_a_player() {
    let mut s = session();
    drain(&mut s);
    assert_eq!(s.sample(0, 0, 0, NOW + 9 * SECOND), None);
    assert!(!s.startup_direct_attempted);
}

#[test]
fn a_ready_stream_has_the_rate_of_its_ladder() {
    let cfg = config();
    let mut packet = vec![0xff; 188];
    packet[..8].copy_from_slice(&[0x47, 1, 0, 0x10, 0, 0, 1, 0x65]);
    let mut p = Preparation::new(&cfg.ladder[0], SECOND, 188);
    assert!(matches!(
        p.take(ReadOutcome::Data(packet.clone()), 0),
        Next::Finish
    ));
    let stream = ready_stream(p, &cfg.ladder[0], 0).ok().unwrap();
    assert_eq!(stream.ladder, 0);
    assert_eq!(stream.rate, 1_000_000);
    assert_eq!(stream.chunks[1], packet);
    assert!(stream.tail.is_empty());

    let empty = Preparation::new(&cfg.ladder[1], SECOND, 188);
    assert_eq!(
        ready_stream(empty, &cfg.ladder[1], 1)
            .err()
            .map(|error| error.message())
            .as_deref(),
        Some("preroll reached timeout before IDR")
    );
}

#[test]
fn chunks_are_whole_packets_across_changes_and_recoveries() {
    let mut s = session();
    let mut sent: Vec<Vec<u8>> = Vec::new();
    s.read(ReadOutcome::Data(vec![3; 500]));
    s.read(ReadOutcome::Data(vec![4; 100]));
    for _ in 0..2 {
        sent.push(chunk_of(s.next()));
        s.sent(SendResult::Sent);
    }
    assert_eq!(s.sample(60, 1_000_000, 500_000, NOW + SECOND), Some(2));
    s.switch_ready(stream(2, vec![vec![5; 376]]), 0);
    s.read(ReadOutcome::Data(vec![6; 189]));
    s.read(ReadOutcome::End);
    s.recovery_done(Some(stream(1, vec![vec![7; 188]])), 0, NOW + 2 * SECOND);
    s.read(ReadOutcome::Data(vec![8; 700]));
    while let Action::Send(chunk) = s.next() {
        s.sent(SendResult::Full(chunk));
        sent.push(chunk_of(s.next()));
    }
    assert_eq!(sent.len(), 6);
    for chunk in &sent {
        assert!(!chunk.is_empty());
        assert_eq!(chunk.len() % 188, 0);
    }
}
