//! The job contract that producers implement, and a ready-made job type.

use vstd::prelude::*;

verus! {

/// Exclusion key of a job. Two jobs whose keys are equal `Excl` values must
/// never run concurrently; a `Free` key never conflicts with anything, not
/// even with another `Free` key.
#[derive(Clone, Copy, Debug, PartialEq, Eq, Structural)]
pub enum ExclusionKey {
    /// Never excludes: conflicts with no key, itself included.
    Free,
    /// Jobs sharing this value are serialized.
    Excl(u64),
}

/// Whether two exclusion keys forbid concurrent execution.
pub open spec fn spec_excludes(a: ExclusionKey, b: ExclusionKey) -> bool {
    a is Excl && a == b
}

/// Exclusion check: equal `Excl` values conflict, `Free` conflicts with nothing.
pub fn excludes(a: ExclusionKey, b: ExclusionKey) -> (r: bool)
    ensures
        r == spec_excludes(a, b),
{
    match (a, b) {
        (ExclusionKey::Excl(x), ExclusionKey::Excl(y)) => x == y,
        _ => false,
    }
}

/// Outcome of offering an incoming job to a queued one.
pub enum MergeResult<J> {
    /// The incoming job was absorbed; the value is the queued job, possibly
    /// updated by the merge.
    Merged(J),
    /// The incoming job was not absorbed: first the incoming job handed back,
    /// then the queued job put back in place.
    NotMerged(J, J),
}

/// The contract a job value offers the scheduler: a totally ordered priority
/// (higher runs sooner), an exclusion key, a merge rule for coalescing a new
/// submission into a queued one, and the work itself.
pub trait Job: Sized {
    /// The priority this job's `priority` method reports.
    spec fn spec_priority(&self) -> u8;

    /// Priority tag; higher values dispatch sooner.
    fn priority(&self) -> (p: u8)
        ensures
            p == self.spec_priority(),
    ;

    /// The exclusion key this job's `exclusion` method reports.
    spec fn spec_exclusion(&self) -> ExclusionKey;

    /// Exclusion key; jobs with conflicting keys never run concurrently.
    fn exclusion(&self) -> (k: ExclusionKey)
        ensures
            k == self.spec_exclusion(),
    ;

    /// The outcome `merge_into` produces for the given pair.
    spec fn spec_merge(self, existing: Self) -> MergeResult<Self>;

    /// Offer `self` (the incoming job) to `existing` (a queued job): either
    /// absorb it, or hand both back so the walk can continue.
    fn merge_into(self, existing: Self) -> (r: MergeResult<Self>)
        ensures
            r == self.spec_merge(existing),
    ;

    /// Run the job, consuming it.
    fn execute(self);
}

/// A job which can be rescheduled through duplication: a recurring entry's
/// interval restarts whenever a matching job is enqueued.
pub trait RecurrableJob: Sized {
    /// The predicate this job's `matches` method decides.
    spec fn spec_matches(&self, other: &Self) -> bool;

    /// Whether `other` counts as an occurrence of `self` for the purpose of
    /// resetting a recurrence interval.
    fn matches(&self, other: &Self) -> (r: bool)
        ensures
            r == self.spec_matches(other),
    ;

    /// An identical copy of the job, used to re-emit a recurring template.
    fn duplicate(&self) -> (c: Self)
        ensures
            c == *self,
    ;
}

/// A small concrete job: a priority plus a label. Submissions sharing a label
/// coalesce, keeping the higher priority; the label also serves as the
/// identity for recurrence matching. It never takes an exclusion key.
#[derive(Clone, Copy, Debug, PartialEq, Eq, Structural)]
pub struct LabeledJob {
    /// Higher runs sooner.
    pub priority: u8,
    /// Merge identity: two submissions with one label collapse into one.
    pub tag: char,
}

impl LabeledJob {
    /// Build a job from its priority and label.
    pub fn new(priority: u8, tag: char) -> (j: LabeledJob)
        ensures
            j.priority == priority,
            j.tag == tag,
    {
        LabeledJob { priority, tag }
    }
}

impl Job for LabeledJob {
    open spec fn spec_priority(&self) -> u8 {
        self.priority
    }

    fn priority(&self) -> (p: u8) {
        self.priority
    }

    open spec fn spec_exclusion(&self) -> ExclusionKey {
        ExclusionKey::Free
    }

    fn exclusion(&self) -> (k: ExclusionKey) {
        ExclusionKey::Free
    }

    open spec fn spec_merge(self, existing: Self) -> MergeResult<Self> {
        if self.tag == existing.tag {
            MergeResult::Merged(
                LabeledJob {
                    priority: if self.priority > existing.priority {
                        self.priority
                    } else {
                        existing.priority
                    },
                    tag: existing.tag,
                },
            )
        } else {
            MergeResult::NotMerged(self, existing)
        }
    }

    fn merge_into(self, existing: Self) -> (r: MergeResult<Self>) {
        if self.tag == existing.tag {
            let priority = if self.priority > existing.priority {
                self.priority
            } else {
                existing.priority
            };
            MergeResult::Merged(LabeledJob { priority, tag: existing.tag })
        } else {
            MergeResult::NotMerged(self, existing)
        }
    }

    fn execute(self) {
    }
}

/// A small concrete job with a real exclusion key: two of them sharing a
/// key never run concurrently. Submissions never coalesce.
#[derive(Clone, Copy, Debug, PartialEq, Eq, Structural)]
pub struct KeyedJob {
    /// Higher runs sooner.
    pub priority: u8,
    /// Exclusion identity: equal keys serialize.
    pub key: u64,
}

impl KeyedJob {
    /// Build a job from its priority and exclusion key.
    pub fn new(priority: u8, key: u64) -> (j: KeyedJob)
        ensures
            j.priority == priority,
            j.key == key,
    {
        KeyedJob { priority, key }
    }
}

impl Job for KeyedJob {
    open spec fn spec_priority(&self) -> u8 {
        self.priority
    }

    fn priority(&self) -> (p: u8) {
        self.priority
    }

    open spec fn spec_exclusion(&self) -> ExclusionKey {
        ExclusionKey::Excl(self.key)
    }

    fn exclusion(&self) -> (k: ExclusionKey) {
        ExclusionKey::Excl(self.key)
    }

    open spec fn spec_merge(self, existing: Self) -> MergeResult<Self> {
        MergeResult::NotMerged(self, existing)
    }

    fn merge_into(self, existing: Self) -> (r: MergeResult<Self>) {
        MergeResult::NotMerged(self, existing)
    }

    fn execute(self) {
    }
}

impl RecurrableJob for KeyedJob {
    open spec fn spec_matches(&self, other: &Self) -> bool {
        *self == *other
    }

    fn matches(&self, other: &Self) -> (r: bool) {
        self.priority == other.priority && self.key == other.key
    }

    fn duplicate(&self) -> (c: Self) {
        KeyedJob { priority: self.priority, key: self.key }
    }
}

impl RecurrableJob for LabeledJob {
    open spec fn spec_matches(&self, other: &Self) -> bool {
        *self == *other
    }

    fn matches(&self, other: &Self) -> (r: bool) {
        self.priority == other.priority && self.tag == other.tag
    }

    fn duplicate(&self) -> (c: Self) {
        LabeledJob { priority: self.priority, tag: self.tag }
    }
}

} // verus!
