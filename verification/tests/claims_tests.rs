use capture_the_ip::capture::NewCapture;
use capture_the_ip::claims::{
    batch_of_queue, requeue_failed_batch, ClaimsAction, ClaimsEvent, ClaimsWorker,
};
use capture_the_ip::shutdown::StopReply;
use time::OffsetDateTime;

fn claim(ip: [u8; 4], nick: &str, secs: i64) -> NewCapture {
    NewCapture::create_from_ip_and_nick_at(
        ip,
        nick.to_string(),
        OffsetDateTime::from_unix_timestamp(secs).unwrap(),
    )
}

fn summary(v: &[NewCapture]) -> Vec<(i32, String, i64)> {
    v.iter().map(|c| (c.ip, c.nick.clone(), c.claimed_at.unix_timestamp())).collect()
}

fn ip(o: [u8; 4]) -> i32 {
    i32::from_be_bytes(o)
}

#[test]
fn batch_keeps_latest_claim_per_address_latest_first() {
    let queue = vec![
        claim([1, 1, 1, 1], "a", 1),
        claim([2, 2, 2, 2], "b", 2),
        claim([1, 1, 1, 1], "c", 3),
        claim([3, 3, 3, 3], "d", 4),
        claim([2, 2, 2, 2], "e", 5),
    ];
    let batch = batch_of_queue(queue);
    assert_eq!(
        summary(&batch),
        vec![
            (ip([2, 2, 2, 2]), "e".to_string(), 5),
            (ip([3, 3, 3, 3]), "d".to_string(), 4),
            (ip([1, 1, 1, 1]), "c".to_string(), 3),
        ]
    );
}

#[test]
fn batch_of_empty_queue_is_empty() {
    assert!(batch_of_queue(Vec::new()).is_empty());
}

#[test]
fn failed_batch_is_requeued_oldest_first() {
    let mut queue = vec![claim([9, 9, 9, 9], "new", 10)];
    let failed = vec![claim([2, 2, 2, 2], "x", 5), claim([1, 1, 1, 1], "y", 4)];
    requeue_failed_batch(&mut queue, failed);
    assert_eq!(
        summary(&queue),
        vec![
            (ip([9, 9, 9, 9]), "new".to_string(), 10),
            (ip([1, 1, 1, 1]), "y".to_string(), 4),
            (ip([2, 2, 2, 2]), "x".to_string(), 5),
        ]
    );
}

#[test]
fn failed_batch_retried_unchanged() {
    let queue = vec![claim([1, 1, 1, 1], "a", 1), claim([2, 2, 2, 2], "b", 2), claim([1, 1, 1, 1], "c", 3)];
    let batch = batch_of_queue(queue);
    let first = summary(&batch);
    let mut empty = Vec::new();
    requeue_failed_batch(&mut empty, batch);
    assert_eq!(summary(&batch_of_queue(empty)), first);
}

#[test]
fn failed_batch_behind_new_claims_loses_no_address() {
    let mut queue = vec![claim([5, 5, 5, 5], "n1", 20), claim([1, 1, 1, 1], "n2", 21)];
    let failed = vec![claim([2, 2, 2, 2], "f1", 6), claim([1, 1, 1, 1], "f2", 5)];
    requeue_failed_batch(&mut queue, failed);
    let mut ips: Vec<i32> = batch_of_queue(queue).iter().map(|c| c.ip).collect();
    ips.sort();
    let mut want = vec![ip([1, 1, 1, 1]), ip([2, 2, 2, 2]), ip([5, 5, 5, 5])];
    want.sort();
    assert_eq!(ips, want);
}

#[test]
fn worker_writes_received_claims_on_tick() {
    let mut w = ClaimsWorker::new();
    assert!(matches!(w.step(ClaimsEvent::Tick), ClaimsAction::Continue));
    assert!(matches!(w.step(ClaimsEvent::Received(Some(claim([1, 2, 3, 4], "a", 1)))), ClaimsAction::Continue));
    assert!(matches!(w.step(ClaimsEvent::Received(None)), ClaimsAction::Continue));
    assert!(matches!(w.step(ClaimsEvent::Received(Some(claim([1, 2, 3, 4], "b", 2)))), ClaimsAction::Continue));
    assert_eq!(w.queue.len(), 2);
    match w.step(ClaimsEvent::Tick) {
        ClaimsAction::Write(batch) => {
            assert_eq!(summary(&batch), vec![(ip([1, 2, 3, 4]), "b".to_string(), 2)]);
            w.write_failed(batch);
        }
        _ => panic!("expected a batch"),
    }
    assert_eq!(w.queue.len(), 1);
    match w.step(ClaimsEvent::Tick) {
        ClaimsAction::Write(batch) => assert_eq!(summary(&batch), vec![(ip([1, 2, 3, 4]), "b".to_string(), 2)]),
        _ => panic!("expected the batch again"),
    }
    assert!(w.queue.is_empty());
}

#[test]
fn worker_sends_stop_token_once() {
    let mut w = ClaimsWorker::new();
    assert!(matches!(w.step(ClaimsEvent::Terminate), ClaimsAction::Stop(StopReply::SendToken)));
    assert!(matches!(w.step(ClaimsEvent::Terminate), ClaimsAction::Stop(StopReply::SenderConsumed)));
}
