//! The supervisor's steal rules, merging as a fixed point, and the
//! recurring window, each pinned on concrete values.

use std::time::{Duration, Instant};

use gaffer::job::{ExclusionKey, KeyedJob, LabeledJob};
use gaffer::queue::sort_priority;
use gaffer::runner::Supervisor;
use gaffer::source::{channel, IntervalRecurringJob, RecurringJob};

#[test]
fn steal_respects_running_exclusion() {
    let mut sup: Supervisor<KeyedJob> = Supervisor::new();
    sup.queue.push(KeyedJob::new(5, 1));
    sup.queue.push(KeyedJob::new(4, 2));
    let running = vec![Some(ExclusionKey::Excl(1)), None];
    let batch = sup.steal(&running, 2);
    assert_eq!(batch, vec![KeyedJob::new(4, 2)]);
    assert_eq!(sup.queue, vec![KeyedJob::new(5, 1)]);
}

#[test]
fn free_keys_never_conflict() {
    let mut sup: Supervisor<LabeledJob> = Supervisor::new();
    sup.queue.push(LabeledJob::new(5, 'a'));
    sup.queue.push(LabeledJob::new(5, 'b'));
    let running = vec![Some(ExclusionKey::Free), None];
    let batch = sup.steal(&running, 2);
    assert_eq!(
        batch,
        vec![LabeledJob::new(5, 'a'), LabeledJob::new(5, 'b')]
    );
}

#[test]
fn steal_respects_throttle() {
    let mut sup: Supervisor<KeyedJob> = Supervisor::with_limits(vec![(1, 1), (2, 2)]);
    sup.queue.push(KeyedJob::new(2, 7));
    sup.queue.push(KeyedJob::new(1, 8));
    let running = vec![Some(ExclusionKey::Excl(9)), None];
    // one worker busy: cap 1 blocks the priority-1 job, cap 2 admits the other
    let batch = sup.steal(&running, 2);
    assert_eq!(batch, vec![KeyedJob::new(2, 7)]);
    assert_eq!(sup.queue, vec![KeyedJob::new(1, 8)]);
}

#[test]
fn skipped_job_lets_lower_priority_run() {
    let mut sup: Supervisor<KeyedJob> = Supervisor::new();
    sup.queue.push(KeyedJob::new(9, 1));
    sup.queue.push(KeyedJob::new(3, 2));
    let running = vec![Some(ExclusionKey::Excl(1))];
    let batch = sup.steal(&running, 1);
    assert_eq!(batch, vec![KeyedJob::new(3, 2)]);
    assert_eq!(sup.queue, vec![KeyedJob::new(9, 1)]);
}

#[test]
fn steal_stops_at_limit() {
    let mut sup: Supervisor<KeyedJob> = Supervisor::new();
    sup.queue.push(KeyedJob::new(3, 1));
    sup.queue.push(KeyedJob::new(2, 2));
    sup.queue.push(KeyedJob::new(1, 3));
    let running = vec![None, None];
    let batch = sup.steal(&running, 2);
    assert_eq!(batch, vec![KeyedJob::new(3, 1), KeyedJob::new(2, 2)]);
    assert_eq!(sup.queue, vec![KeyedJob::new(1, 3)]);
}

#[test]
fn merged_queue_holds_one_entry_per_label() {
    let mut queue: Vec<LabeledJob> = Vec::new();
    let mut recurring: Vec<IntervalRecurringJob<LabeledJob>> = Vec::new();
    let (send, recv) = channel::<LabeledJob>(true);
    send.send(LabeledJob::new(1, 'a')).unwrap();
    send.send(LabeledJob::new(2, 'a')).unwrap();
    send.send(LabeledJob::new(1, 'b')).unwrap();
    send.send(LabeledJob::new(3, 'a')).unwrap();
    let _ = recv.process_queue_ready(&mut queue, &mut recurring);
    assert_eq!(
        queue,
        vec![LabeledJob::new(3, 'a'), LabeledJob::new(1, 'b')]
    );
}

#[test]
fn recurring_window_resets_on_emission() {
    let entry = IntervalRecurringJob { last_enqueue: 0, interval: 100, job: LabeledJob::new(1, 'r') };
    assert_eq!(entry.get(50), None);
    assert_eq!(entry.get(100), None);
    assert_eq!(entry.get(101), Some(LabeledJob::new(1, 'r')));
    let mut entry = entry;
    let emitted = LabeledJob::new(1, 'r');
    entry.job_enqueued(&emitted, 101);
    assert_eq!(entry.get(201), None);
    assert_eq!(entry.get(202), Some(LabeledJob::new(1, 'r')));
}

#[test]
fn unmatched_job_keeps_window() {
    let mut entry =
        IntervalRecurringJob { last_enqueue: 0, interval: 100, job: LabeledJob::new(1, 'r') };
    entry.job_enqueued(&LabeledJob::new(2, 's'), 90);
    assert_eq!(entry.get(101), Some(LabeledJob::new(1, 'r')));
    assert_eq!(entry.max_sleep(), 100);
}

#[test]
fn sort_is_stable_on_ties() {
    let mut queue = vec![
        LabeledJob::new(1, 'a'),
        LabeledJob::new(2, 'b'),
        LabeledJob::new(1, 'c'),
        LabeledJob::new(2, 'd'),
    ];
    sort_priority(&mut queue);
    assert_eq!(
        queue,
        vec![
            LabeledJob::new(2, 'b'),
            LabeledJob::new(2, 'd'),
            LabeledJob::new(1, 'a'),
            LabeledJob::new(1, 'c')
        ]
    );
}

#[test]
fn disconnected_channel_idles_for_timeout() {
    let (send, recv) = channel::<LabeledJob>(false);
    drop(send);
    let mut queue: Vec<LabeledJob> = Vec::new();
    let mut recurring: Vec<IntervalRecurringJob<LabeledJob>> = Vec::new();
    let before = Instant::now();
    recv.process_queue_timeout(&mut queue, &mut recurring, 5_000, false);
    assert!(queue.is_empty());
    assert!(Instant::now().duration_since(before) >= Duration::from_millis(5));
}
