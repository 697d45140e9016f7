//! A prioritized, exclusion-aware job scheduler core.
//!
//! Producers submit jobs over a channel; the source manager drains the
//! channel, merges coalescable submissions, services recurring entries and
//! keeps the pending queue sorted by priority; the supervisor picks the next
//! batch of runnable jobs under exclusion keys and a priority-dependent
//! concurrency cap.

pub mod chan;
pub mod clock;
pub mod job;
pub mod queue;
pub mod runner;
pub mod source;
