use market_data_order_book::network_policy::{
    connect_attempt_due, receiver_step, retry_interval_secs, send_delay_ns, should_send,
    ReadOutcome, ReceiverAction, ReceiverState,
};

#[test]
fn sender_delay_follows_the_rate() {
    assert_eq!(send_delay_ns(1), Some(1_000_000_000));
    assert_eq!(send_delay_ns(1000), Some(1_000_000));
    assert_eq!(send_delay_ns(3), Some(333_333_333));
    assert_eq!(send_delay_ns(0), None);
    assert_eq!(send_delay_ns(-1), None);
    assert!(should_send(1));
    assert!(!should_send(0));
}

#[test]
fn receiver_counts_packets_and_stops_on_close() {
    let s = ReceiverState { packets: 0, errors: 0 };
    let (s, a) = receiver_step(s, ReadOutcome::Packet);
    assert!(matches!(a, ReceiverAction::Deliver));
    assert_eq!((s.packets, s.errors), (1, 0));
    let (s, a) = receiver_step(s, ReadOutcome::TimedOut);
    assert!(matches!(a, ReceiverAction::ReadAgain));
    assert_eq!((s.packets, s.errors), (1, 0));
    let (_, a) = receiver_step(ReceiverState { packets: 1, errors: 0 }, ReadOutcome::Closed);
    assert!(matches!(a, ReceiverAction::Stop));
    let (_, a) = receiver_step(s, ReadOutcome::Eof);
    assert!(matches!(a, ReceiverAction::Stop));
}

#[test]
fn receiver_gives_up_after_more_than_a_hundred_errors() {
    let mut s = ReceiverState { packets: 0, errors: 0 };
    for n in 1..=100usize {
        let (next, a) = receiver_step(s, ReadOutcome::Failed);
        assert!(matches!(a, ReceiverAction::ReadAgain));
        assert_eq!(next.errors, n);
        s = next;
    }
    let (s, a) = receiver_step(s, ReadOutcome::Failed);
    assert!(matches!(a, ReceiverAction::Stop));
    assert_eq!(s.errors, 101);
}

#[test]
fn connection_attempts_follow_the_retry_count() {
    assert!(connect_attempt_due(0, 2, false));
    assert!(connect_attempt_due(1, 2, true));
    assert!(!connect_attempt_due(2, 2, true));
    assert!(!connect_attempt_due(0, 0, true));
    assert!(connect_attempt_due(1_000, -1, true));
    assert!(!connect_attempt_due(0, -1, false));
    assert_eq!(retry_interval_secs(0), 1);
    assert_eq!(retry_interval_secs(5), 5);
}
