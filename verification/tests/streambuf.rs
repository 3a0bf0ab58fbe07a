//! The queue to the player.

use itv_relay::streambuf::{RecvResult, SendResult, StreamBuf, BUF_CAP};

#[test]
fn send_timeout_returns_full_without_dropping_chunk() {
    let mut buf = StreamBuf::new();
    for _ in 0..BUF_CAP {
        assert_eq!(buf.try_send(vec![1; 4]), SendResult::Sent);
    }

    let chunk = vec![9; 3];
    let result = buf.try_send(chunk.clone());

    assert_eq!(result, SendResult::Full(chunk));
    assert_eq!(buf.backlog(), BUF_CAP);
}

#[test]
fn send_timeout_reports_closed_reader() {
    let mut buf = StreamBuf::new();
    buf.close();

    let result = buf.try_send(vec![1]);

    assert_eq!(result, SendResult::Closed);
}

#[test]
fn send_timeout_unblocks_when_reader_drains_queue() {
    let mut buf = StreamBuf::new();
    for _ in 0..BUF_CAP {
        assert_eq!(buf.try_send(vec![1; 4]), SendResult::Sent);
    }
    assert_eq!(buf.try_send(vec![9; 3]), SendResult::Full(vec![9; 3]));

    assert_eq!(buf.try_recv(), RecvResult::Data(vec![1, 1, 1, 1]));

    assert_eq!(buf.try_send(vec![9; 3]), SendResult::Sent);
    assert_eq!(buf.backlog(), BUF_CAP);
}

#[test]
fn clear_drops_queue_and_resets_backlog_bytes() {
    let mut buf = StreamBuf::new();
    assert_eq!(buf.try_send(vec![1; 10]), SendResult::Sent);
    assert_eq!(buf.try_send(vec![2; 20]), SendResult::Sent);
    assert_eq!(buf.backlog(), 2);
    assert_eq!(buf.backlog_bytes(), 30);

    buf.clear();

    assert_eq!(buf.backlog(), 0);
    assert_eq!(buf.backlog_bytes(), 0);
    assert_eq!(buf.try_recv(), RecvResult::Empty);
}

#[test]
fn chunks_come_out_in_order_and_are_counted() {
    let mut buf = StreamBuf::new();
    buf.try_send(vec![1, 2]);
    buf.try_send(vec![3]);
    assert_eq!(buf.try_recv(), RecvResult::Data(vec![1, 2]));
    assert_eq!(buf.backlog_bytes(), 1);
    assert_eq!(buf.try_recv(), RecvResult::Data(vec![3]));
    assert_eq!(buf.take_drained(), 3);
    assert_eq!(buf.take_drained(), 0);
}

#[test]
fn what_waits_is_received_after_closing() {
    let mut buf = StreamBuf::new();
    buf.try_send(vec![7]);
    buf.close();
    assert_eq!(buf.try_recv(), RecvResult::Data(vec![7]));
    assert_eq!(buf.try_recv(), RecvResult::Closed);
}
