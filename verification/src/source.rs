//! Job sources: the merging channel intake, recurring entries, and the
//! loader pass that fills the supervisor's queue and keeps it sorted.

use std::time::Instant;
use vstd::prelude::*;

use crate::chan::{channel_len, channel_unbounded, idle_wait_us, recv_timeout_us, try_recv,
    RecvOutcome};
use crate::clock::{instant_now, micros_since};
use crate::job::{Job, RecurrableJob};
use crate::queue::{enqueue, sort_priority, spec_enqueue, spec_sort};
use crate::runner::Supervisor;

verus! {

/// How long the loader sleeps when it has no recurring entry to wake for:
/// an arbitrary finite cap so shutdown is still detected.
pub const IDLE_CAP_US: u64 = 5_000_000;

/// Defines how a job recurs. Instants are microseconds on the owning
/// manager's monotonic clock.
pub trait RecurringJob: Sized {
    /// The job type this entry emits.
    type Job;

    /// What `get` yields at instant `now`.
    spec fn spec_due(self, now: i64) -> Option<Self::Job>;

    /// The entry after its enqueue hook has seen `job` at instant `now`.
    spec fn spec_after_enqueued(self, job: Self::Job, now: i64) -> Self;

    /// The instant `max_sleep` reports.
    spec fn spec_max_sleep(self) -> i64;

    /// The job, if it is ready to recur at instant `now`.
    fn get(&self, now: i64) -> (r: Option<Self::Job>)
        ensures
            r == self.spec_due(now),
    ;

    /// Tell the entry that `job` was enqueued at instant `now`, so that a
    /// matching job pushes back the next occurrence.
    fn job_enqueued(&mut self, job: &Self::Job, now: i64)
        ensures
            *final(self) == old(self).spec_after_enqueued(*job, now),
    ;

    /// The latest instant the caller could sleep until before it should call
    /// `get` again.
    fn max_sleep(&self) -> (t: i64)
        ensures
            t == self.spec_max_sleep(),
    ;
}

/// Recurring entry that re-emits a clone of its template whenever `interval`
/// has passed since the last enqueue of a matching job.
pub struct IntervalRecurringJob<J: RecurrableJob> {
    /// When a matching job was last enqueued, in clock microseconds; may lie
    /// before the clock's origin.
    pub last_enqueue: i64,
    /// The recurrence interval in microseconds.
    pub interval: u64,
    /// The template; due emissions are copies of it.
    pub job: J,
}

impl<J: Job + RecurrableJob> RecurringJob for IntervalRecurringJob<J> {
    type Job = J;

    open spec fn spec_due(self, now: i64) -> Option<J> {
        if now > self.last_enqueue as int + self.interval as int {
            Some(self.job)
        } else {
            None
        }
    }

    open spec fn spec_after_enqueued(self, job: J, now: i64) -> Self {
        if self.job.spec_matches(&job) {
            IntervalRecurringJob { last_enqueue: now, interval: self.interval, job: self.job }
        } else {
            self
        }
    }

    open spec fn spec_max_sleep(self) -> i64 {
        if self.last_enqueue as int + self.interval as int > i64::MAX {
            i64::MAX
        } else {
            (self.last_enqueue as int + self.interval as int) as i64
        }
    }

    fn get(&self, now: i64) -> (r: Option<J>) {
        let threshold: i128 = self.last_enqueue as i128 + self.interval as i128;
        if now as i128 > threshold {
            Some(self.job.duplicate())
        } else {
            None
        }
    }

    fn job_enqueued(&mut self, job: &J, now: i64) {
        if self.job.matches(job) {
            self.last_enqueue = now;
        }
    }

    fn max_sleep(&self) -> (t: i64) {
        let s: i128 = self.last_enqueue as i128 + self.interval as i128;
        if s > i64::MAX as i128 {
            i64::MAX
        } else {
            s as i64
        }
    }
}

/// A recurring entry emits at most one clone per interval window: as soon as
/// its hook sees a matching enqueue at instant `t` — the entry's own emission
/// included, since the clone matches the template — it yields nothing again
/// until a full interval after `t` has passed. Any matching producer-sent
/// job resets the window the same way.
pub proof fn lemma_recurring_window<J: Job + RecurrableJob>(
    e: IntervalRecurringJob<J>,
    j: J,
    t: i64,
    t2: i64,
)
    requires
        e.job.spec_matches(&j),
        t2 <= t + e.interval,
    ensures
        e.spec_after_enqueued(j, t).spec_due(t2) is None,
{
}

/// All entries after their enqueue hooks have seen `j` at instant `t`.
pub open spec fn spec_notify_all<R: RecurringJob>(rs: Seq<R>, j: R::Job, t: i64) -> Seq<R> {
    Seq::new(rs.len(), |i: int| rs[i].spec_after_enqueued(j, t))
}

/// Run every entry's enqueue hook on `job`, in registration order.
#[verifier::loop_isolation(false)]
fn notify_all<J: Job, R: RecurringJob<Job = J>>(recurring: &mut Vec<R>, job: &J, now: i64)
    ensures
        final(recurring)@ == spec_notify_all(old(recurring)@, *job, now),
{
    let mut i: usize = 0;
    while i < recurring.len()
        invariant
            i <= recurring@.len(),
            recurring@.len() == old(recurring)@.len(),
            forall|w: int|
                0 <= w < i ==> recurring@[w] == old(recurring)@[w].spec_after_enqueued(
                    *job,
                    now,
                ),
            forall|w: int| i <= w < recurring@.len() ==> recurring@[w] == old(recurring)@[w],
        decreases recurring@.len() - i,
    {
        let mut e = recurring.remove(i);
        e.job_enqueued(job, now);
        recurring.insert(i, e);
        proof {
            assert forall|w: int| 0 <= w < i + 1 implies recurring@[w] == old(
                recurring,
            )@[w].spec_after_enqueued(*job, now) by {
                if w < i {
                    assert(recurring@[w] == old(recurring)@[w].spec_after_enqueued(*job, now));
                }
            }
        }
        i = i + 1;
    }
    proof {
        assert(recurring@ =~= spec_notify_all(old(recurring)@, *job, now));
    }
}

/// The state of recurring entries and queue after a run of arrivals: for
/// each arrived job, in order, every entry's hook sees it and then the
/// enqueue procedure places it.
pub open spec fn spec_intake<J: Job, R: RecurringJob<Job = J>>(
    rs: Seq<R>,
    q: Seq<J>,
    js: Seq<J>,
    ts: Seq<i64>,
    merge: bool,
) -> (Seq<R>, Seq<J>)
    decreases js.len(),
{
    if js.len() == 0 {
        (rs, q)
    } else {
        spec_intake(
            spec_notify_all(rs, js[0], ts[0]),
            spec_enqueue(q, js[0], merge),
            js.drop_first(),
            ts.drop_first(),
            merge,
        )
    }
}

/// The intake run `js` at instants `ts` takes the source state from
/// `(rs0, q0)` to `(rs1, q1)`.
pub open spec fn intake_ok<J: Job, R: RecurringJob<Job = J>>(
    rs0: Seq<R>,
    q0: Seq<J>,
    rs1: Seq<R>,
    q1: Seq<J>,
    js: Seq<J>,
    ts: Seq<i64>,
    merge: bool,
) -> bool {
    js.len() == ts.len() && (rs1, q1) == spec_intake(rs0, q0, js, ts, merge)
}

proof fn lemma_intake_snoc<J: Job, R: RecurringJob<Job = J>>(
    rs: Seq<R>,
    q: Seq<J>,
    js: Seq<J>,
    ts: Seq<i64>,
    j: J,
    t: i64,
    merge: bool,
)
    requires
        js.len() == ts.len(),
    ensures
        spec_intake(rs, q, js.push(j), ts.push(t), merge) == ({
            let (rs1, q1) = spec_intake(rs, q, js, ts, merge);
            (spec_notify_all(rs1, j, t), spec_enqueue(q1, j, merge))
        }),
    decreases js.len(),
{
    let rs1 = spec_intake(rs, q, js, ts, merge).0;
    let q1 = spec_intake(rs, q, js, ts, merge).1;
    if js.len() == 0 {
        assert(js.push(j)[0] == j && ts.push(t)[0] == t);
        assert(js.push(j).drop_first() =~= js);
        assert(ts.push(t).drop_first() =~= ts);
        assert(rs1 == rs && q1 == q);
        assert(spec_intake(rs, q, js.push(j), ts.push(t), merge) == spec_intake(
            spec_notify_all(rs, j, t),
            spec_enqueue(q, j, merge),
            js,
            ts,
            merge,
        ));
        assert(spec_intake(
            spec_notify_all(rs, j, t),
            spec_enqueue(q, j, merge),
            js,
            ts,
            merge,
        ) == (spec_notify_all(rs, j, t), spec_enqueue(q, j, merge)));
    } else {
        assert(js.push(j)[0] == js[0] && ts.push(t)[0] == ts[0]);
        assert(js.push(j).drop_first() =~= js.drop_first().push(j));
        assert(ts.push(t).drop_first() =~= ts.drop_first().push(t));
        let rsh = spec_notify_all(rs, js[0], ts[0]);
        let qh = spec_enqueue(q, js[0], merge);
        lemma_intake_snoc(rsh, qh, js.drop_first(), ts.drop_first(), j, t, merge);
        assert(spec_intake(rs, q, js.push(j), ts.push(t), merge) == spec_intake(
            rsh,
            qh,
            js.drop_first().push(j),
            ts.drop_first().push(t),
            merge,
        ));
        assert(spec_intake(rs, q, js, ts, merge) == spec_intake(
            rsh,
            qh,
            js.drop_first(),
            ts.drop_first(),
            merge,
        ));
    }
}

/// What a bounded wait appended after the drain: at most one job, notified
/// to every entry and then appended to the queue tail.
pub open spec fn spec_await_extra<J: Job, R: RecurringJob<Job = J>>(
    rs: Seq<R>,
    q: Seq<J>,
    extra: Option<(J, i64)>,
) -> (Seq<R>, Seq<J>) {
    match extra {
        Some(p) => (spec_notify_all(rs, p.0, p.1), q.push(p.0)),
        None => (rs, q),
    }
}

/// A drain of `js` followed by at most one blocking receipt `extra` takes
/// the source state from `(rs0, q0)` to `(rs2, q2)`; the wait happens only
/// when the drain got nothing and either `wait_for_new` was set or the queue
/// stood empty after the drain.
pub open spec fn await_ok<J: Job, R: RecurringJob<Job = J>>(
    rs0: Seq<R>,
    q0: Seq<J>,
    rs2: Seq<R>,
    q2: Seq<J>,
    js: Seq<J>,
    ts: Seq<i64>,
    extra: Option<(J, i64)>,
    merge: bool,
    wait_for_new: bool,
) -> bool {
    let (rs1, q1) = spec_intake(rs0, q0, js, ts, merge);
    &&& js.len() == ts.len()
    &&& (rs2, q2) == spec_await_extra(rs1, q1, extra)
    &&& (extra is Some ==> js.len() == 0 && (wait_for_new || q1.len() == 0))
}

/// The scheduler's end of the producer channel, with the merge switch fixed
/// at creation.
#[verifier::reject_recursive_types(T)]
pub struct Inbox<T: Job> {
    recv: crossbeam_channel::Receiver<T>,
    origin: Instant,
    merge_enabled: bool,
}

impl<T: Job> Inbox<T> {
    /// Whether the enqueue procedure walks the queue offering each incoming
    /// job for merging before appending it; fixed at channel creation.
    pub closed spec fn merges(&self) -> bool {
        self.merge_enabled
    }

    /// Drain every job now sitting in the channel, without blocking: each
    /// one is shown to every recurring entry and then enqueued. Reports
    /// whether anything arrived.
    #[verifier::loop_isolation(false)]
    pub fn process_queue_ready<R: RecurringJob<Job = T>>(
        &self,
        queue: &mut Vec<T>,
        recurring: &mut Vec<R>,
    ) -> (has_new: bool)
        ensures
            exists|js: Seq<T>, ts: Seq<i64>|
                #[trigger] intake_ok(
                    old(recurring)@,
                    old(queue)@,
                    final(recurring)@,
                    final(queue)@,
                    js,
                    ts,
                    self.merges(),
                ) && (has_new <==> js.len() > 0),
    {
        let ghost rs0 = recurring@;
        let ghost q0 = queue@;
        let ghost mut js: Seq<T> = Seq::empty();
        let ghost mut ts: Seq<i64> = Seq::empty();
        let mut has_new = false;
        let mut drained = false;
        let pending = channel_len(&self.recv);
        let mut i: usize = 0;
        while i < pending && !drained
            invariant
                js.len() == ts.len(),
                (recurring@, queue@) == spec_intake(rs0, q0, js, ts, self.merges()),
                has_new <==> js.len() > 0,
            decreases pending - i,
        {
            match try_recv(&self.recv) {
                Some(job) => {
                    let ghost j0 = job;
                    let stamp = instant_now();
                    let t = micros_since(&self.origin, &stamp);
                    notify_all(recurring, &job, t);
                    enqueue(queue, job, self.merge_enabled);
                    proof {
                        lemma_intake_snoc(rs0, q0, js, ts, j0, t, self.merges());
                        js = js.push(j0);
                        ts = ts.push(t);
                    }
                    has_new = true;
                },
                None => {
                    drained = true;
                },
            }
            i = i + 1;
        }
        proof {
            assert(intake_ok(rs0, q0, recurring@, queue@, js, ts, self.merges()) && (has_new
                <==> js.len() > 0));
        }
        has_new
    }

    /// Drain whatever is ready; if nothing arrived and either `wait_for_new`
    /// is set or the queue stands empty, block up to `timeout_us`
    /// microseconds for a single job, which is appended without the merge
    /// walk. A channel whose producers are all gone degenerates to an idle
    /// sleep of the same length.
    pub fn process_queue_timeout<R: RecurringJob<Job = T>>(
        &self,
        queue: &mut Vec<T>,
        recurring: &mut Vec<R>,
        timeout_us: u64,
        wait_for_new: bool,
    )
        ensures
            exists|js: Seq<T>, ts: Seq<i64>, extra: Option<(T, i64)>|
                #[trigger] await_ok(
                    old(recurring)@,
                    old(queue)@,
                    final(recurring)@,
                    final(queue)@,
                    js,
                    ts,
                    extra,
                    self.merges(),
                    wait_for_new,
                ),
    {
        let ghost rs0 = recurring@;
        let ghost q0 = queue@;
        let has_new = self.process_queue_ready(queue, recurring);
        let ghost rs1 = recurring@;
        let ghost q1 = queue@;
        let ghost (jsg, tsg): (Seq<T>, Seq<i64>) = choose|js: Seq<T>, ts: Seq<i64>|
            #[trigger] intake_ok(rs0, q0, rs1, q1, js, ts, self.merges()) && (has_new <==> js.len()
                > 0);
        if !has_new && (wait_for_new || queue.len() == 0) {
            match recv_timeout_us(&self.recv, timeout_us) {
                RecvOutcome::Received(job) => {
                    let ghost j0 = job;
                    let stamp = instant_now();
                    let t = micros_since(&self.origin, &stamp);
                    notify_all(recurring, &job, t);
                    queue.push(job);
                    proof {
                        assert(await_ok(
                            rs0,
                            q0,
                            recurring@,
                            queue@,
                            jsg,
                            tsg,
                            Some((j0, t)),
                            self.merges(),
                            wait_for_new,
                        ));
                    }
                    return ;
                },
                RecvOutcome::TimedOut => {},
                RecvOutcome::Disconnected => {
                    idle_wait_us(timeout_us);
                },
            }
        }
        proof {
            assert(await_ok(
                rs0,
                q0,
                recurring@,
                queue@,
                jsg,
                tsg,
                None,
                self.merges(),
                wait_for_new,
            ));
        }
    }
}

/// A producer handle and a scheduler-side receiver for a fresh unbounded
/// channel; `merge` fixes whether incoming jobs are offered for coalescing.
pub fn channel<T: Job>(merge: bool) -> (r: (crossbeam_channel::Sender<T>, Inbox<T>))
    ensures
        r.1.merges() == merge,
{
    let (send, recv) = channel_unbounded();
    let origin = instant_now();
    (send, Inbox { recv, origin, merge_enabled: merge })
}

/// The earliest instant at which some recurring entry would need to emit;
/// `None` when there are no entries.
pub open spec fn spec_soonest<R: RecurringJob>(rs: Seq<R>) -> Option<i64>
    decreases rs.len(),
{
    if rs.len() == 0 {
        None
    } else {
        let h = rs[0].spec_max_sleep();
        match spec_soonest(rs.drop_first()) {
            None => Some(h),
            Some(m) => Some(
                if h <= m {
                    h
                } else {
                    m
                },
            ),
        }
    }
}

/// The wait the loader allows the channel: until the soonest recurring entry
/// is due, zero if one is overdue, or the idle cap when nothing recurs.
pub open spec fn spec_queue_timeout<R: RecurringJob>(rs: Seq<R>, now: i64) -> u64 {
    match spec_soonest(rs) {
        Some(s) => if s as int - now as int > 0 {
            (s as int - now as int) as u64
        } else {
            0
        },
        None => IDLE_CAP_US,
    }
}

/// The clones of every entry due at instant `t`, in registration order.
pub open spec fn spec_collect_due<J: Job, R: RecurringJob<Job = J>>(rs: Seq<R>, t: i64) -> Seq<J>
    decreases rs.len(),
{
    if rs.len() == 0 {
        Seq::empty()
    } else {
        match rs[0].spec_due(t) {
            Some(j) => seq![j] + spec_collect_due(rs.drop_first(), t),
            None => spec_collect_due(rs.drop_first(), t),
        }
    }
}

/// Appending the due batch: each due clone is shown to every entry's hook —
/// so clones matching several entries reset them all — and then appended to
/// the queue tail.
pub open spec fn spec_append_due<J: Job, R: RecurringJob<Job = J>>(
    rs: Seq<R>,
    q: Seq<J>,
    due: Seq<J>,
    t: i64,
) -> (Seq<R>, Seq<J>)
    decreases due.len(),
{
    if due.len() == 0 {
        (rs, q)
    } else {
        spec_append_due(spec_notify_all(rs, due[0], t), q.push(due[0]), due.drop_first(), t)
    }
}

/// One loader pass took the sources from `(rs0, q0)` to `(rs3, q3)`: some
/// drain `js` (with at most one blocking receipt `extra`), then the batch
/// due at `due_now` collected, notified and appended, then the queue sorted
/// by priority, stable on ties.
pub open spec fn load_ok<J: Job, R: RecurringJob<Job = J>>(
    rs0: Seq<R>,
    q0: Seq<J>,
    rs3: Seq<R>,
    q3: Seq<J>,
    js: Seq<J>,
    ts: Seq<i64>,
    extra: Option<(J, i64)>,
    due_now: i64,
    merge: bool,
    wait_for_new: bool,
) -> bool {
    let (rs1, q1) = spec_intake(rs0, q0, js, ts, merge);
    let (rs1b, q1b) = spec_await_extra(rs1, q1, extra);
    let due = spec_collect_due(rs1b, due_now);
    let (rs2, q2) = spec_append_due(rs1b, q1b, due, due_now);
    &&& js.len() == ts.len()
    &&& (extra is Some ==> js.len() == 0 && (wait_for_new || q1.len() == 0))
    &&& rs3 == rs2
    &&& q3 == spec_sort(q2)
}

/// The clones of every entry due at instant `now`, in registration order.
pub fn collect_due<J: Job, R: RecurringJob<Job = J>>(recurring: &Vec<R>, now: i64) -> (due: Vec<J>)
    ensures
        due@ == spec_collect_due(recurring@, now),
{
    let mut due: Vec<J> = Vec::new();
    let mut idx: usize = recurring.len();
    proof {
        assert(recurring@.subrange(recurring@.len() as int, recurring@.len() as int)
            =~= Seq::<R>::empty());
    }
    while idx > 0
        invariant
            idx <= recurring@.len(),
            due@ == spec_collect_due(recurring@.subrange(idx as int, recurring@.len() as int), now),
        decreases idx,
    {
        idx = idx - 1;
        let ghost pre = recurring@.subrange(idx as int, recurring@.len() as int);
        proof {
            assert(pre[0] == recurring@[idx as int]);
            assert(pre.drop_first() =~= recurring@.subrange(idx + 1, recurring@.len() as int));
        }
        let e = &recurring[idx];
        match e.get(now) {
            Some(j) => {
                due.insert(0, j);
                proof {
                    assert(due@ =~= seq![j] + spec_collect_due(pre.drop_first(), now));
                }
            },
            None => {},
        }
    }
    proof {
        assert(recurring@.subrange(0, recurring@.len() as int) =~= recurring@);
    }
    due
}

/// Manages the sources of jobs for a pool: drains the producer channel,
/// schedules recurring entries, merges into and sorts the shared queue.
#[verifier::reject_recursive_types(J)]
pub struct SourceManager<J: Job, R: RecurringJob<Job = J>> {
    /// The recurring entries, in registration order.
    pub recurring: Vec<R>,
    /// The scheduler's end of the producer channel.
    pub receiver: Inbox<J>,
}

impl<J: Job + RecurrableJob> SourceManager<J, IntervalRecurringJob<J>> {
    /// Register `job` as recurring: a copy is enqueued whenever `interval`
    /// microseconds pass since the last enqueue of a matching job.
    pub fn set_recurring(&mut self, interval: u64, last_enqueue: i64, job: J)
        ensures
            final(self).recurring@ == old(self).recurring@.push(
                (IntervalRecurringJob { last_enqueue, interval, job }),
            ),
            final(self).receiver == old(self).receiver,
    {
        self.recurring.push(IntervalRecurringJob { last_enqueue, interval, job });
    }
}

impl<J: Job, R: RecurringJob<Job = J>> SourceManager<J, R> {
    /// A new `(sender, manager)` pair over a fresh channel, with the given
    /// recurring entries; `merge` fixes whether submissions coalesce.
    pub fn new(recurring: Vec<R>, merge: bool) -> (r: (crossbeam_channel::Sender<J>, Self))
        ensures
            r.1.recurring == recurring,
            r.1.receiver.merges() == merge,
    {
        let (send, receiver) = channel::<J>(merge);
        (send, SourceManager { recurring, receiver })
    }

    /// This manager's clock, in microseconds since its channel was created.
    pub fn now_us(&self) -> (t: i64)
        ensures
            0 <= t,
    {
        let stamp = instant_now();
        micros_since(&self.receiver.origin, &stamp)
    }

    /// The earliest instant when a recurring entry would need to emit.
    pub fn soonest_recurring(&self) -> (r: Option<i64>)
        ensures
            r == spec_soonest(self.recurring@),
    {
        let mut acc: Option<i64> = None;
        let mut idx: usize = self.recurring.len();
        proof {
            assert(self.recurring@.subrange(
                self.recurring@.len() as int,
                self.recurring@.len() as int,
            ) =~= Seq::<R>::empty());
        }
        while idx > 0
            invariant
                idx <= self.recurring@.len(),
                acc == spec_soonest(
                    self.recurring@.subrange(idx as int, self.recurring@.len() as int),
                ),
            decreases idx,
        {
            idx = idx - 1;
            let ghost pre = self.recurring@.subrange(idx as int, self.recurring@.len() as int);
            proof {
                assert(pre[0] == self.recurring@[idx as int]);
                assert(pre.drop_first() =~= self.recurring@.subrange(
                    idx + 1,
                    self.recurring@.len() as int,
                ));
            }
            let e = &self.recurring[idx];
            let h = e.max_sleep();
            acc = match acc {
                None => Some(h),
                Some(m) => Some(
                    if h <= m {
                        h
                    } else {
                        m
                    },
                ),
            };
        }
        proof {
            assert(self.recurring@.subrange(0, self.recurring@.len() as int) =~= self.recurring@);
        }
        acc
    }

    /// The timeout to allow the channel, from the state of the recurring
    /// entries at instant `now`.
    pub fn queue_timeout(&self, now: i64) -> (t: u64)
        ensures
            t == spec_queue_timeout(self.recurring@, now),
    {
        match self.soonest_recurring() {
            Some(s) => {
                let diff: i128 = s as i128 - now as i128;
                if diff > 0 {
                    proof {
                        assert(diff <= u64::MAX as i128);
                    }
                    diff as u64
                } else {
                    0
                }
            },
            None => IDLE_CAP_US,
        }
    }

    /// One loader pass. Drain the channel — blocking up to the soonest
    /// recurring due instant (or the idle cap) when nothing is ready and
    /// `wait_for_new` asks for it or the queue stands empty — then collect
    /// the recurring clones now due, show each to every entry's hook, append
    /// them, and sort the queue by priority, stable on ties.
    #[verifier::loop_isolation(false)]
    pub fn load(&mut self, wait_for_new: bool, sup: &mut Supervisor<J>)
        ensures
            final(sup).caps == old(sup).caps,
            final(self).receiver == old(self).receiver,
            exists|js: Seq<J>, ts: Seq<i64>, extra: Option<(J, i64)>, due_now: i64|
                #[trigger] load_ok(
                    old(self).recurring@,
                    old(sup).queue@,
                    final(self).recurring@,
                    final(sup).queue@,
                    js,
                    ts,
                    extra,
                    due_now,
                    old(self).receiver.merges(),
                    wait_for_new,
                ) && 0 <= due_now,
    {
        let ghost rs0 = self.recurring@;
        let ghost q0 = sup.queue@;
        let ghost merge = self.receiver.merges();
        let now = self.now_us();
        let timeout = self.queue_timeout(now);
        let ghost mut jsg: Seq<J> = Seq::empty();
        let ghost mut tsg: Seq<i64> = Seq::empty();
        let ghost mut extrag: Option<(J, i64)> = None;
        if timeout == 0 {
            let has_new = self.receiver.process_queue_ready(&mut sup.queue, &mut self.recurring);
            proof {
                let (js, ts): (Seq<J>, Seq<i64>) = choose|js: Seq<J>, ts: Seq<i64>|
                    #[trigger] intake_ok(rs0, q0, self.recurring@, sup.queue@, js, ts, merge) && (
                    has_new <==> js.len() > 0);
                jsg = js;
                tsg = ts;
                extrag = None;
            }
        } else {
            self.receiver.process_queue_timeout(
                &mut sup.queue,
                &mut self.recurring,
                timeout,
                wait_for_new,
            );
            proof {
                let (js, ts, extra): (Seq<J>, Seq<i64>, Option<(J, i64)>) = choose|
                    js: Seq<J>,
                    ts: Seq<i64>,
                    extra: Option<(J, i64)>,
                |
                    #[trigger] await_ok(
                        rs0,
                        q0,
                        self.recurring@,
                        sup.queue@,
                        js,
                        ts,
                        extra,
                        merge,
                        wait_for_new,
                    );
                jsg = js;
                tsg = ts;
                extrag = extra;
            }
        }
        let ghost rs1b = self.recurring@;
        let ghost q1b = sup.queue@;
        let now2 = self.now_us();
        let mut due = collect_due(&self.recurring, now2);
        let ghost due0 = due@;
        while due.len() > 0
            invariant
                sup.caps == old(sup).caps,
                self.receiver == old(self).receiver,
                spec_append_due(rs1b, q1b, due0, now2) == spec_append_due(
                    self.recurring@,
                    sup.queue@,
                    due@,
                    now2,
                ),
            decreases due@.len(),
        {
            let ghost due_pre = due@;
            let j = due.remove(0);
            proof {
                assert(due@ =~= due_pre.drop_first());
            }
            notify_all(&mut self.recurring, &j, now2);
            sup.queue.push(j);
        }
        sort_priority(&mut sup.queue);
        proof {
            assert(load_ok(
                rs0,
                q0,
                self.recurring@,
                sup.queue@,
                jsg,
                tsg,
                extrag,
                now2,
                merge,
                wait_for_new,
            ) && 0 <= now2);
        }
    }
}

} // verus!
