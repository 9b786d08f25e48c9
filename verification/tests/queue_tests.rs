use qbroker::errors::OffsetErr;
use qbroker::queue::{Message, Queue};

fn msg(text: &str) -> Message {
    Message { message: String::from(text) }
}

#[test]
fn append_poll_order() {
    let mut q = Queue::new();
    let texts = ["a", "b", "c", "d", "e"];
    for (i, t) in texts.iter().enumerate() {
        let offset = q.send_message(msg(t));
        assert_eq!(offset, i as u128);
    }
    let mut read_idx: u128 = 0;
    let polled = q.poll_message(&mut read_idx).unwrap();
    assert_eq!(read_idx, 5);
    assert_eq!(polled.len(), 5);
    for (i, m) in polled.iter().enumerate() {
        assert_eq!(m.message.as_str(), texts[i]);
    }
}

#[test]
fn poll_at_end_is_empty_not_error() {
    let mut q = Queue::new();
    q.send_message(msg("a"));
    let mut read_idx: u128 = 1;
    let polled = q.poll_message(&mut read_idx).unwrap();
    assert!(polled.is_empty());
    assert_eq!(read_idx, 1);
}

#[test]
fn poll_out_of_range_is_rejected() {
    let q = Queue::new();
    let mut read_idx: u128 = 7;
    let r: Result<_, OffsetErr> = q.poll_message(&mut read_idx);
    assert!(r.is_err());
    assert_eq!(read_idx, 7);
}

#[test]
fn poll_behind_truncation_is_rejected() {
    let mut q = Queue::new();
    q.send_message(msg("a"));
    q.send_message(msg("b"));
    q.truncate_oldest();
    let mut read_idx: u128 = 0;
    assert!(q.poll_message(&mut read_idx).is_err());
    let mut resync: u128 = q.start_offset();
    let polled = q.poll_message(&mut resync).unwrap();
    assert_eq!(polled.len(), 1);
    assert_eq!(polled[0].message.as_str(), "b");
}

#[test]
fn truncate_oldest_drops_front() {
    let mut q = Queue::new();
    q.send_message(msg("a"));
    q.send_message(msg("b"));
    q.send_message(msg("c"));
    q.truncate_oldest();
    assert_eq!(q.start_offset(), 1);
    assert_eq!(q.end_offset(), 3);
    let mut read_idx: u128 = 1;
    let polled = q.poll_message(&mut read_idx).unwrap();
    assert_eq!(polled.len(), 2);
    assert_eq!(polled[0].message.as_str(), "b");
    assert_eq!(polled[1].message.as_str(), "c");
}

#[test]
fn truncate_empty_log_is_noop() {
    let mut q = Queue::new();
    q.truncate_oldest();
    assert_eq!(q.start_offset(), 0);
    assert_eq!(q.end_offset(), 0);
}

#[test]
fn append_wakes_subscribers() {
    let mut q = Queue::new();
    let mut rx = q.signal_recv();
    assert!(rx.try_recv().is_err());
    q.send_message(msg("a"));
    assert!(rx.try_recv().is_ok());
}
