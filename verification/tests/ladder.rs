//! Orders and limits.

use itv_relay::binary64::Binary64;
use itv_relay::clock::SECOND;
use itv_relay::config::Run;
use itv_relay::ladder::{
    copy_preroll_limit, initial_output_timeout, next_video_pid, recovery_order,
    required_preroll_keyframes, startup_order, switch_preroll_goal, switch_timeout, Attempts,
    COPY_PREROLL_BYTE_LIMIT,
};

fn float(value: f64) -> Binary64 {
    Binary64 { bits: value.to_bits() }
}

#[test]
fn copy_preroll_limit_never_goes_below_configured_goal() {
    assert_eq!(copy_preroll_limit(64 * 1024), COPY_PREROLL_BYTE_LIMIT);
    assert_eq!(
        copy_preroll_limit(COPY_PREROLL_BYTE_LIMIT * 2),
        COPY_PREROLL_BYTE_LIMIT * 2
    );
}

#[test]
fn startup_order_tries_configured_then_lower_bitrates_then_higher() {
    assert_eq!(startup_order(5, 1), vec![1, 2, 3, 4, 0]);
    assert_eq!(startup_order(5, 0), vec![0, 1, 2, 3, 4]);
    assert_eq!(startup_order(5, 4), vec![4, 0, 1, 2, 3]);
    assert_eq!(startup_order(2, 99), vec![1, 0]);
    assert!(startup_order(0, 1).is_empty());
}

#[test]
fn recovery_order_tries_current_then_lower_bitrates_then_higher() {
    assert_eq!(recovery_order(5, 2), vec![2, 3, 4, 0, 1]);
    assert_eq!(recovery_order(5, 0), vec![0, 1, 2, 3, 4]);
    assert_eq!(recovery_order(5, 4), vec![4, 0, 1, 2, 3]);
    assert_eq!(recovery_order(2, 99), vec![1, 0]);
    assert!(recovery_order(0, 1).is_empty());
}

fn run(mode: &str) -> Run {
    Run {
        name: mode.into(),
        mode: mode.into(),
        width: 640,
        height: 360,
        bitrate: 500,
        maxrate: 650,
        bufsize: 1000,
        preset: "ultrafast".into(),
        audio_bitrate: 96,
    }
}

#[test]
fn initial_output_timeout_is_short_for_copy_but_tolerates_encode_gop_wait() {
    assert_eq!(
        initial_output_timeout(&run("copy"), float(8.0)),
        3 * SECOND
    );
    assert_eq!(
        initial_output_timeout(&run("encode"), float(4.0)),
        8 * SECOND
    );
    assert_eq!(
        initial_output_timeout(&run("encode"), float(30.0)),
        12 * SECOND
    );
}

#[test]
fn initial_output_timeout_keeps_what_lies_between() {
    assert_eq!(
        initial_output_timeout(&run("copy"), float(0.0)),
        100_000_000
    );
    assert_eq!(
        initial_output_timeout(&run("copy"), float(2.5)),
        2_500_000_000
    );
    assert_eq!(
        initial_output_timeout(&run("hwencode"), float(9.25)),
        9_250_000_000
    );
}

#[test]
fn replacements_have_their_own_limits() {
    assert_eq!(switch_timeout(float(0.5)), 2 * SECOND);
    assert_eq!(switch_timeout(float(8.0)), 8 * SECOND);
    assert_eq!(switch_timeout(float(f64::INFINITY)), 30 * SECOND);
    assert_eq!(switch_preroll_goal(1), 64 * 1024);
    assert_eq!(switch_preroll_goal(256 * 1024), 256 * 1024);
    assert_eq!(switch_preroll_goal(usize::MAX), 2 * 1024 * 1024);
}

#[test]
fn encoded_streams_need_two_keyframes() {
    assert_eq!(required_preroll_keyframes(&run("copy")), 1);
    assert_eq!(required_preroll_keyframes(&run("encode")), 2);
    assert_eq!(required_preroll_keyframes(&run("hwencode")), 2);
}

#[test]
fn video_identifiers_go_round() {
    assert_eq!(next_video_pid(0), 0x0200);
    assert_eq!(next_video_pid(1), 0x0202);
    assert_eq!(next_video_pid(0x05ff), 0x0dfe);
    assert_eq!(next_video_pid(0x0600), 0x0200);
    assert_eq!(next_video_pid(u16::MAX), 0x0200 + (0xffff % 0x0600) * 2);
}

#[test]
fn attempts_go_on_until_all_have_failed() {
    let mut attempts = Attempts::startup(3, 1);
    assert_eq!(attempts.next_ladder(), Some(1));
    attempts.failed("first".to_string());
    assert_eq!(attempts.next_ladder(), Some(2));
    assert_eq!(attempts.next_ladder(), Some(0));
    attempts.failed("last".to_string());
    assert_eq!(attempts.next_ladder(), None);
    assert_eq!(attempts.reason(), "last");
    assert_eq!(Attempts::recovery(0, 4).reason(), "empty ladder");
}
