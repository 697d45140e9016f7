//! The producer channel, taken on trust.
//!
//! Producers hand jobs to the scheduler over an unbounded channel of the
//! `crossbeam_channel` crate. What arrives, and when, depends on the other
//! threads, so the wrappers state nothing of the received values: the
//! verified callers hold for every job the channel could deliver.

use vstd::prelude::*;

verus! {

#[verifier::external_type_specification]
#[verifier::external_body]
#[verifier::reject_recursive_types(T)]
pub struct ExSender<T>(crossbeam_channel::Sender<T>);

#[verifier::external_type_specification]
#[verifier::external_body]
#[verifier::reject_recursive_types(T)]
pub struct ExReceiver<T>(crossbeam_channel::Receiver<T>);

/// What a bounded wait on the channel produced.
pub enum RecvOutcome<T> {
    /// A job arrived within the timeout.
    Received(T),
    /// The timeout elapsed with nothing to receive.
    TimedOut,
    /// Every sender is gone: the channel can never deliver again.
    Disconnected,
}

/// Relies on `crossbeam_channel::unbounded`: a channel with no capacity
/// bound, so producers never block on send.
#[verifier::external_body]
pub(crate) fn channel_unbounded<T>() -> (crossbeam_channel::Sender<T>, crossbeam_channel::Receiver<
    T,
>) {
    crossbeam_channel::unbounded()
}

/// Relies on `crossbeam_channel::Receiver::len`: how many messages sit in
/// the channel at this instant. Producers may send concurrently, so the
/// count is only a snapshot and nothing is stated of it.
#[verifier::external_body]
pub(crate) fn channel_len<T>(recv: &crossbeam_channel::Receiver<T>) -> usize {
    recv.len()
}

/// Relies on `crossbeam_channel::Receiver::try_recv`: a message when one is
/// immediately available, `None` on an empty or disconnected channel.
#[verifier::external_body]
pub(crate) fn try_recv<T>(recv: &crossbeam_channel::Receiver<T>) -> Option<T> {
    recv.try_recv().ok()
}

/// Relies on `crossbeam_channel::Receiver::recv_timeout`: block for at most
/// `timeout_us` microseconds for one message, telling a timeout apart from a
/// channel whose senders are all gone.
#[verifier::external_body]
pub(crate) fn recv_timeout_us<T>(recv: &crossbeam_channel::Receiver<T>, timeout_us: u64) -> (r:
    RecvOutcome<T>) {
    match recv.recv_timeout(core::time::Duration::from_micros(timeout_us)) {
        Ok(item) => RecvOutcome::Received(item),
        Err(crossbeam_channel::RecvTimeoutError::Timeout) => RecvOutcome::TimedOut,
        Err(crossbeam_channel::RecvTimeoutError::Disconnected) => RecvOutcome::Disconnected,
    }
}

/// Relies on `crossbeam_channel::never` with `Receiver::recv_timeout`: a
/// channel that never delivers, so the call waits out the whole timeout.
/// This is the degenerate idle sleep taken once every producer is gone.
#[verifier::external_body]
pub(crate) fn idle_wait_us(timeout_us: u64) {
    let idle = crossbeam_channel::never::<()>();
    let _ = idle.recv_timeout(core::time::Duration::from_micros(timeout_us));
}

} // verus!
