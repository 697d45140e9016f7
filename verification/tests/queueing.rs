//! Channel intake, merging and priority ordering of the pending queue.

use std::time::{Duration, Instant};

use gaffer::job::LabeledJob;
use gaffer::queue::sort_priority;
use gaffer::source::{channel, IntervalRecurringJob};

fn no_recurring() -> Vec<IntervalRecurringJob<LabeledJob>> {
    Vec::new()
}

#[test]
fn priority_queue() {
    let mut queue: Vec<LabeledJob> = Vec::new();
    let mut recurring = no_recurring();
    let (send, recv) = channel::<LabeledJob>(false);
    send.send(LabeledJob::new(2, '2')).unwrap();
    send.send(LabeledJob::new(3, '3')).unwrap();
    send.send(LabeledJob::new(1, '1')).unwrap();
    let _ = recv.process_queue_ready(&mut queue, &mut recurring);
    sort_priority(&mut queue);
    assert_eq!(
        queue,
        vec![
            LabeledJob::new(3, '3'),
            LabeledJob::new(2, '2'),
            LabeledJob::new(1, '1')
        ]
    );
}

#[test]
fn merge_prioritised() {
    let mut queue: Vec<LabeledJob> = Vec::new();
    let mut recurring = no_recurring();
    let (send, recv) = channel::<LabeledJob>(true);
    send.send(LabeledJob::new(2, '2')).unwrap();
    send.send(LabeledJob::new(3, '3')).unwrap();
    send.send(LabeledJob::new(1, '1')).unwrap();
    send.send(LabeledJob::new(2, '2')).unwrap();
    send.send(LabeledJob::new(1, '1')).unwrap();
    let _ = recv.process_queue_ready(&mut queue, &mut recurring);
    sort_priority(&mut queue);
    assert_eq!(
        queue,
        vec![
            LabeledJob::new(3, '3'),
            LabeledJob::new(2, '2'),
            LabeledJob::new(1, '1')
        ]
    );
}

#[test]
fn priority_queue_elements_are_merged() {
    let mut queue: Vec<LabeledJob> = Vec::new();
    let mut recurring = no_recurring();
    let (send, recv) = channel::<LabeledJob>(true);
    send.send(LabeledJob::new(2, 'a')).unwrap();
    send.send(LabeledJob::new(1, 'a')).unwrap();
    send.send(LabeledJob::new(1, 'b')).unwrap();
    send.send(LabeledJob::new(2, 'b')).unwrap();
    send.send(LabeledJob::new(1, 'e')).unwrap();
    send.send(LabeledJob::new(1, 'f')).unwrap();
    send.send(LabeledJob::new(1, 'c')).unwrap();
    send.send(LabeledJob::new(2, 'd')).unwrap();
    send.send(LabeledJob::new(2, 'c')).unwrap();
    let _ = recv.process_queue_ready(&mut queue, &mut recurring);
    sort_priority(&mut queue);
    let vals: String = queue.into_iter().map(|j| j.tag).collect();
    assert_eq!(vals, "abcdef");
}

#[test]
fn merge_change_priority() {
    let mut queue: Vec<LabeledJob> = Vec::new();
    let mut recurring = no_recurring();
    let (send, recv) = channel::<LabeledJob>(true);
    send.send(LabeledJob::new(1, 'c')).unwrap(); // c: low priority comes out last
    send.send(LabeledJob::new(1, 'b')).unwrap(); // b: low priority
    send.send(LabeledJob::new(2, 'a')).unwrap(); // a: high priority comes out first
    let _ = recv.process_queue_ready(&mut queue, &mut recurring);
    sort_priority(&mut queue);
    send.send(LabeledJob::new(1, 'a')).unwrap(); // a: low priority merged in, has no effect
    send.send(LabeledJob::new(2, 'b')).unwrap(); // b: high priority merged in, now comes out after 'a'
    let _ = recv.process_queue_ready(&mut queue, &mut recurring);
    sort_priority(&mut queue);
    assert_eq!(
        queue,
        vec![
            LabeledJob::new(2, 'a'),
            LabeledJob::new(2, 'b'),
            LabeledJob::new(1, 'c')
        ]
    );
}

#[test]
fn timeout_expires() {
    let (_send, recv) = channel::<LabeledJob>(false);
    let mut queue: Vec<LabeledJob> = Vec::new();
    let mut recurring = no_recurring();
    recv.process_queue_timeout(&mut queue, &mut recurring, 1, false);
    assert_eq!(queue.iter().count(), 0);
}

#[test]
fn returns_immediately() {
    let (send, recv) = channel::<LabeledJob>(false);
    send.send(LabeledJob::new(0, '0')).unwrap();
    let instant = Instant::now();
    let mut queue: Vec<LabeledJob> = Vec::new();
    let mut recurring = no_recurring();
    recv.process_queue_timeout(&mut queue, &mut recurring, 1_000, false);
    assert_eq!(
        std::mem::take(&mut queue).into_iter().next().unwrap(),
        LabeledJob::new(0, '0')
    );
    assert!(Instant::now().duration_since(instant) < Duration::from_millis(1));
}

#[test]
fn bunch_of_items_are_prioritised() {
    let (send, recv) = channel::<LabeledJob>(false);
    send.send(LabeledJob::new(2, '2')).unwrap();
    send.send(LabeledJob::new(3, '3')).unwrap();
    send.send(LabeledJob::new(1, '1')).unwrap();
    let mut queue: Vec<LabeledJob> = Vec::new();
    let mut recurring = no_recurring();
    recv.process_queue_timeout(&mut queue, &mut recurring, 1_000, false);
    sort_priority(&mut queue);
    let items: Vec<LabeledJob> = queue.drain(..).collect();
    assert_eq!(
        items,
        vec![
            LabeledJob::new(3, '3'),
            LabeledJob::new(2, '2'),
            LabeledJob::new(1, '1')
        ]
    );
}
