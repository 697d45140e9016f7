//! Recurring entries driven through whole loader passes.

use std::time::{Duration, Instant};

use gaffer::job::{ExclusionKey, LabeledJob};
use gaffer::runner::Supervisor;
use gaffer::source::{IntervalRecurringJob, SourceManager};

fn free_slots() -> Vec<Option<ExclusionKey>> {
    vec![None, None, None]
}

fn new_manager() -> (
    crossbeam_channel::Sender<LabeledJob>,
    SourceManager<LabeledJob, IntervalRecurringJob<LabeledJob>>,
) {
    SourceManager::new(Vec::new(), false)
}

#[test]
fn recurring_ready() {
    let mut sup: Supervisor<LabeledJob> = Supervisor::new();
    let (_send, mut manager) = new_manager();
    let one_min_ago: i64 = -60_000_000;
    manager.set_recurring(1_000_000, one_min_ago, LabeledJob::new(1, '1'));
    manager.set_recurring(1_000_000, one_min_ago, LabeledJob::new(2, '2'));
    manager.set_recurring(1_000_000, one_min_ago, LabeledJob::new(3, '3'));
    let before = Instant::now();
    manager.load(false, &mut sup);
    assert_eq!(
        sup.steal(&free_slots(), 3),
        vec![
            LabeledJob::new(3, '3'),
            LabeledJob::new(2, '2'),
            LabeledJob::new(1, '1')
        ]
    );
    assert!(Instant::now().duration_since(before) < Duration::from_millis(1));
}

#[test]
fn recurring_interval() {
    let mut sup: Supervisor<LabeledJob> = Supervisor::new();
    let (_send, mut manager) = new_manager();
    let one_min_ago: i64 = -60_000_000;
    manager.set_recurring(1_000, one_min_ago, LabeledJob::new(1, '1'));
    manager.set_recurring(1_000, one_min_ago, LabeledJob::new(2, '2'));
    manager.set_recurring(1_000, one_min_ago, LabeledJob::new(3, '3'));
    manager.load(false, &mut sup);
    assert_eq!(
        sup.steal(&free_slots(), 3),
        vec![
            LabeledJob::new(3, '3'),
            LabeledJob::new(2, '2'),
            LabeledJob::new(1, '1')
        ]
    );
    let before = Instant::now();
    manager.load(false, &mut sup);
    assert_eq!(
        sup.steal(&free_slots(), 3),
        vec![
            LabeledJob::new(3, '3'),
            LabeledJob::new(2, '2'),
            LabeledJob::new(1, '1')
        ]
    );
    assert!(
        Instant::now().duration_since(before) > Duration::from_millis(1),
        "duration only : {:?}",
        Instant::now().duration_since(before)
    );
}

#[test]
fn recurring_not_duplicated() {
    let mut sup: Supervisor<LabeledJob> = Supervisor::new();
    let (_send, mut manager) = new_manager();
    let one_min_ago: i64 = -60_000_000;
    manager.set_recurring(1_000, one_min_ago, LabeledJob::new(1, '1'));
    manager.set_recurring(1_000, one_min_ago, LabeledJob::new(2, '2'));
    manager.set_recurring(1_000, one_min_ago, LabeledJob::new(3, '3'));
    manager.load(false, &mut sup);
    assert_eq!(sup.steal(&free_slots(), 1), vec![LabeledJob::new(3, '3')]);
    manager.load(false, &mut sup);
    assert_eq!(
        sup.steal(&free_slots(), 3),
        vec![LabeledJob::new(2, '2'), LabeledJob::new(1, '1')]
    );
}

#[test]
fn queued_resets_recurring() {
    let mut sup: Supervisor<LabeledJob> = Supervisor::new();
    let (send, mut manager) = new_manager();
    let start = Instant::now();
    let half_interval_ago: i64 = -10_000;
    manager.set_recurring(20_000, half_interval_ago, LabeledJob::new(1, '1'));
    manager.set_recurring(20_000, half_interval_ago, LabeledJob::new(2, '2'));
    manager.set_recurring(20_000, half_interval_ago, LabeledJob::new(3, '3'));
    send.send(LabeledJob::new(2, '2')).unwrap();
    manager.load(false, &mut sup);
    assert_eq!(
        sup.steal(&free_slots(), 3),
        vec![LabeledJob::new(2, '2')],
        "Wrong result after {:?}",
        Instant::now().duration_since(start)
    );
    let restart = Instant::now();
    manager.load(false, &mut sup);
    assert_eq!(
        sup.steal(&free_slots(), 3),
        vec![LabeledJob::new(3, '3'), LabeledJob::new(1, '1')],
        "Wrong result after {:?}",
        Instant::now().duration_since(restart)
    );
    let restart = Instant::now();
    manager.load(false, &mut sup);
    assert_eq!(
        sup.steal(&free_slots(), 3),
        vec![LabeledJob::new(2, '2')],
        "Wrong result after {:?}",
        Instant::now().duration_since(restart)
    );
}

#[test]
fn queue_received_during_poll_wait() {
    let mut sup: Supervisor<LabeledJob> = Supervisor::new();
    let (send, mut manager) = new_manager();
    let now = Instant::now();
    manager.set_recurring(1_000, 0, LabeledJob::new(1, '1'));
    manager.set_recurring(1_000, 0, LabeledJob::new(3, '3'));
    send.send(LabeledJob::new(2, '2')).unwrap();
    manager.load(false, &mut sup);
    assert_eq!(
        sup.steal(&free_slots(), 3),
        vec![LabeledJob::new(2, '2')],
        "Wrong result after {:?}",
        Instant::now().duration_since(now)
    );
}

#[test]
fn priority_order_queue_and_recurring() {
    let mut sup: Supervisor<LabeledJob> = Supervisor::new();
    let (send, mut manager) = new_manager();
    let one_min_ago: i64 = -60_000_000;
    manager.set_recurring(1_000, one_min_ago, LabeledJob::new(1, '1'));
    manager.set_recurring(1_000, one_min_ago, LabeledJob::new(3, '3'));
    send.send(LabeledJob::new(2, '2')).unwrap();
    manager.load(false, &mut sup);
    assert_eq!(
        sup.steal(&free_slots(), 3),
        vec![
            LabeledJob::new(3, '3'),
            LabeledJob::new(2, '2'),
            LabeledJob::new(1, '1')
        ]
    );
}
