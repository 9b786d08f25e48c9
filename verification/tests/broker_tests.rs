use qbroker::event_orchestrator::EventOrchestrator;
use qbroker::queue::Message;

fn msg(text: &str) -> Message {
    Message { message: String::from(text) }
}

fn texts_of(polled: &[std::sync::Arc<Message>]) -> Vec<String> {
    polled.iter().map(|m| m.message.clone()).collect()
}

#[test]
fn publish_then_subscribe_replays_backlog_then_follows() {
    let mut orc = EventOrchestrator::new();
    let t = String::from("t");
    orc.ensure_topic(&t);
    orc.publish(&t, msg("a"));
    orc.publish(&t, msg("b"));
    orc.publish(&t, msg("c"));

    let mut read_idx = orc.subscriber_attach(&t);
    assert_eq!(read_idx, 0);
    let polled = orc.poll(&t, &mut read_idx).unwrap();
    assert_eq!(texts_of(&polled), vec!["a", "b", "c"]);
    assert_eq!(read_idx, 3);

    let polled = orc.poll(&t, &mut read_idx).unwrap();
    assert!(polled.is_empty());

    orc.publish(&t, msg("d"));
    let polled = orc.poll(&t, &mut read_idx).unwrap();
    assert_eq!(texts_of(&polled), vec!["d"]);
    assert_eq!(read_idx, 4);
}

#[test]
fn two_subscribers_survive_reclamation_on_empty_topic() {
    let mut orc = EventOrchestrator::new();
    let t = String::from("t");
    let mut r1 = orc.subscriber_attach(&t);
    let mut r2 = orc.subscriber_attach(&t);
    orc.cleaner();
    orc.publish(&t, msg("m"));
    let p1 = orc.poll(&t, &mut r1).unwrap();
    let p2 = orc.poll(&t, &mut r2).unwrap();
    assert_eq!(texts_of(&p1), vec!["m"]);
    assert_eq!(texts_of(&p2), vec!["m"]);
}

#[test]
fn released_claim_makes_backlog_reclaimable() {
    let mut orc = EventOrchestrator::new();
    let t = String::from("t");
    orc.ensure_topic(&t);
    orc.publish(&t, msg("a"));
    orc.publish(&t, msg("b"));
    orc.publish(&t, msg("c"));

    let read_idx = orc.subscriber_attach(&t);
    assert_eq!(read_idx, 0);
    // The session consumes "a" and moves its claim from offset 0 to 1,
    // then disconnects mid-backlog, releasing its final claim.
    orc.seek(&t, 0, 1);
    orc.down(&t, 1);

    orc.cleaner();
    assert_eq!(orc.topic_start(&t), Some(3));
    assert_eq!(orc.topic_end(&t), Some(3));
}

#[test]
fn reclamation_stops_at_claimed_offset() {
    let mut orc = EventOrchestrator::new();
    let t = String::from("t");
    orc.ensure_topic(&t);
    orc.publish(&t, msg("a"));
    orc.publish(&t, msg("b"));
    orc.publish(&t, msg("c"));
    orc.queue(&t, 1);
    orc.cleaner();
    assert_eq!(orc.topic_start(&t), Some(1));
    assert_eq!(orc.topic_end(&t), Some(3));
    let mut read_idx: u128 = 1;
    let polled = orc.poll(&t, &mut read_idx).unwrap();
    assert_eq!(texts_of(&polled), vec!["b", "c"]);
}

#[test]
fn replay_stays_gapless_across_reclamation() {
    let mut orc = EventOrchestrator::new();
    let t = String::from("t");
    orc.ensure_topic(&t);
    orc.publish(&t, msg("a"));
    orc.publish(&t, msg("b"));

    let mut read_idx = orc.subscriber_attach(&t);
    let first = orc.poll(&t, &mut read_idx).unwrap();
    assert_eq!(texts_of(&first), vec!["a", "b"]);

    orc.publish(&t, msg("c"));
    orc.publish(&t, msg("d"));
    // Reclamation removes only the offsets the subscriber already passed.
    orc.cleaner();
    assert_eq!(orc.topic_start(&t), Some(2));

    let second = orc.poll(&t, &mut read_idx).unwrap();
    assert_eq!(texts_of(&second), vec!["c", "d"]);
    assert_eq!(read_idx, 4);
}

#[test]
fn ensure_topic_twice_keeps_the_same_log() {
    let mut orc = EventOrchestrator::new();
    let t = String::from("t");
    orc.ensure_topic(&t);
    orc.publish(&t, msg("kept"));
    orc.ensure_topic(&t);
    assert_eq!(orc.topic_start(&t), Some(0));
    assert_eq!(orc.topic_end(&t), Some(1));
    let mut read_idx: u128 = 0;
    let polled = orc.poll(&t, &mut read_idx).unwrap();
    assert_eq!(texts_of(&polled), vec!["kept"]);
}

#[test]
fn attach_after_reclamation_starts_at_retained_window() {
    let mut orc = EventOrchestrator::new();
    let t = String::from("t");
    orc.ensure_topic(&t);
    orc.publish(&t, msg("a"));
    orc.publish(&t, msg("b"));
    orc.cleaner();
    assert_eq!(orc.topic_start(&t), Some(2));
    let mut read_idx = orc.subscriber_attach(&t);
    assert_eq!(read_idx, 2);
    assert_eq!(orc.reader_count(&t, 2), Some(1));
    orc.publish(&t, msg("c"));
    let polled = orc.poll(&t, &mut read_idx).unwrap();
    assert_eq!(texts_of(&polled), vec!["c"]);
}

#[test]
fn reader_counts_follow_claims() {
    let mut orc = EventOrchestrator::new();
    let t = String::from("t");
    let r = orc.subscriber_attach(&t);
    assert_eq!(orc.reader_count(&t, r), Some(1));
    orc.seek(&t, r, 5);
    assert_eq!(orc.reader_count(&t, r), Some(0));
    assert_eq!(orc.reader_count(&t, 5), Some(1));
    orc.down(&t, 5);
    assert_eq!(orc.reader_count(&t, 5), Some(0));
}

#[test]
fn release_without_entry_can_go_negative() {
    let mut orc = EventOrchestrator::new();
    let t = String::from("t");
    orc.ensure_topic(&t);
    orc.queue(&t, 2);
    orc.down(&t, 2);
    orc.down(&t, 2);
    assert_eq!(orc.reader_count(&t, 2), Some(-1));
}

#[test]
fn operations_on_missing_topic_do_nothing() {
    let mut orc = EventOrchestrator::new();
    let t = String::from("missing");
    orc.seek(&t, 0, 1);
    orc.down(&t, 0);
    orc.cleaner();
    assert!(!orc.has_topic(&t));
    assert_eq!(orc.topic_start(&t), None);
    assert_eq!(orc.reader_count(&t, 0), None);
}

#[test]
fn topics_are_independent() {
    let mut orc = EventOrchestrator::new();
    let a = String::from("alpha");
    let b = String::from("beta");
    orc.ensure_topic(&a);
    orc.ensure_topic(&b);
    orc.publish(&a, msg("for-alpha"));
    orc.publish(&b, msg("for-beta"));
    let mut ra: u128 = 0;
    let mut rb: u128 = 0;
    assert_eq!(texts_of(&orc.poll(&a, &mut ra).unwrap()), vec!["for-alpha"]);
    assert_eq!(texts_of(&orc.poll(&b, &mut rb).unwrap()), vec!["for-beta"]);
}

#[test]
fn publish_wakes_topic_subscribers() {
    let mut orc = EventOrchestrator::new();
    let t = String::from("t");
    orc.ensure_topic(&t);
    let mut rx = orc.signal_receiver(&t).unwrap();
    orc.publish(&t, msg("a"));
    assert!(rx.try_recv().is_ok());
}
