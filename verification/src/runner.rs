//! The supervisor: owns the pending queue and picks the next batch of
//! runnable jobs under the exclusion keys and the concurrency cap.

use vstd::prelude::*;

use crate::job::{excludes, spec_excludes, ExclusionKey, Job};
use crate::queue::sorted_desc;

verus! {

/// Whether two worker slots hold conflicting exclusion keys.
pub open spec fn slots_exclude(a: Option<ExclusionKey>, b: Option<ExclusionKey>) -> bool {
    match (a, b) {
        (Some(x), Some(y)) => spec_excludes(x, y),
        _ => false,
    }
}

/// Whether an occupied slot conflicts with key `k`.
pub open spec fn slot_conflicts(slot: Option<ExclusionKey>, k: ExclusionKey) -> bool {
    match slot {
        Some(e) => spec_excludes(e, k),
        None => false,
    }
}

/// A job with key `k` may not start while any running slot conflicts with it.
pub open spec fn spec_conflicts(running: Seq<Option<ExclusionKey>>, k: ExclusionKey) -> bool {
    exists|i: int| 0 <= i < running.len() && slot_conflicts(#[trigger] running[i], k)
}

/// The number of occupied worker slots.
pub open spec fn spec_busy(running: Seq<Option<ExclusionKey>>) -> nat
    decreases running.len(),
{
    if running.len() == 0 {
        0
    } else {
        spec_busy(running.drop_last()) + if running.last() is Some {
            1nat
        } else {
            0nat
        }
    }
}

/// No two occupied slots hold conflicting keys: the running set never has a
/// duplicated exclusion key.
pub open spec fn exclusion_distinct(running: Seq<Option<ExclusionKey>>) -> bool {
    forall|i: int, k: int|
        0 <= i < running.len() && 0 <= k < running.len() && i != k ==> !slots_exclude(
            #[trigger] running[i],
            #[trigger] running[k],
        )
}

/// The cap that the concurrency-limit table assigns to priority `p`:
/// the first matching entry, or `None` for unlimited.
pub open spec fn spec_cap(caps: Seq<(u8, u8)>, p: u8) -> Option<u8>
    decreases caps.len(),
{
    if caps.len() == 0 {
        None
    } else if caps[0].0 == p {
        Some(caps[0].1)
    } else {
        spec_cap(caps.drop_first(), p)
    }
}

/// The throttle admits a job of priority `p` when no cap is set for `p`, or
/// fewer than the cap's worth of workers are busy.
pub open spec fn throttle_ok(caps: Seq<(u8, u8)>, p: u8, busy: nat) -> bool {
    match spec_cap(caps, p) {
        Some(c) => busy < c,
        None => true,
    }
}

/// A queued job may start right now: the throttle admits its priority and no
/// running slot conflicts with its exclusion key.
pub open spec fn spec_runnable<J: Job>(
    j: J,
    running: Seq<Option<ExclusionKey>>,
    caps: Seq<(u8, u8)>,
) -> bool {
    throttle_ok(caps, j.spec_priority(), spec_busy(running)) && !spec_conflicts(
        running,
        j.spec_exclusion(),
    )
}

/// What one `steal` pass returns and what it leaves queued: walk the queue
/// from the front, take every runnable job until `limit` are taken, and skip
/// over the rest without reordering them. The busy count is a snapshot: it is
/// not updated as jobs are selected within the pass.
pub open spec fn spec_steal<J: Job>(
    q: Seq<J>,
    running: Seq<Option<ExclusionKey>>,
    caps: Seq<(u8, u8)>,
    limit: nat,
) -> (Seq<J>, Seq<J>)
    decreases q.len(),
{
    if q.len() == 0 {
        (Seq::empty(), Seq::empty())
    } else if limit == 0 {
        (Seq::empty(), q)
    } else if spec_runnable(q[0], running, caps) {
        let (b, r) = spec_steal(q.drop_first(), running, caps, (limit - 1) as nat);
        (seq![q[0]] + b, r)
    } else {
        let (b, r) = spec_steal(q.drop_first(), running, caps, limit);
        (b, seq![q[0]] + r)
    }
}

fn busy_slots(running: &Vec<Option<ExclusionKey>>) -> (busy: usize)
    ensures
        busy == spec_busy(running@),
{
    let mut busy: usize = 0;
    let mut i: usize = 0;
    while i < running.len()
        invariant
            i <= running.len(),
            busy == spec_busy(running@.subrange(0, i as int)),
            busy <= i,
        decreases running.len() - i,
    {
        if running[i].is_some() {
            busy = busy + 1;
        }
        proof {
            assert(running@.subrange(0, i + 1).drop_last() =~= running@.subrange(0, i as int));
            assert(running@.subrange(0, i + 1).last() == running@[i as int]);
        }
        i = i + 1;
    }
    proof {
        assert(running@.subrange(0, running@.len() as int) =~= running@);
    }
    busy
}

fn conflicts_with_running(running: &Vec<Option<ExclusionKey>>, k: ExclusionKey) -> (r: bool)
    ensures
        r == spec_conflicts(running@, k),
{
    let mut i: usize = 0;
    while i < running.len()
        invariant
            i <= running.len(),
            forall|w: int| 0 <= w < i ==> !slot_conflicts(#[trigger] running@[w], k),
        decreases running.len() - i,
    {
        match running[i] {
            Some(e) => {
                if excludes(e, k) {
                    return true;
                }
            },
            None => {},
        }
        i = i + 1;
    }
    false
}

fn lookup_cap(caps: &Vec<(u8, u8)>, p: u8) -> (r: Option<u8>)
    ensures
        r == spec_cap(caps@, p),
{
    let mut i: usize = 0;
    proof {
        assert(caps@.subrange(0, caps@.len() as int) =~= caps@);
    }
    while i < caps.len()
        invariant
            i <= caps.len(),
            spec_cap(caps@, p) == spec_cap(caps@.subrange(i as int, caps@.len() as int), p),
        decreases caps.len() - i,
    {
        proof {
            assert(caps@.subrange(i as int, caps@.len() as int).drop_first() =~= caps@.subrange(
                i + 1,
                caps@.len() as int,
            ));
            assert(caps@.subrange(i as int, caps@.len() as int)[0] == caps@[i as int]);
        }
        if caps[i].0 == p {
            return Some(caps[i].1);
        }
        i = i + 1;
    }
    proof {
        assert(caps@.subrange(caps@.len() as int, caps@.len() as int) =~= Seq::<(u8, u8)>::empty());
    }
    None
}

/// Owns the pending queue, sorted by priority, and the concurrency-limit
/// table mapping a priority to the most workers that may be busy at the
/// instant a job of that priority is dispatched.
pub struct Supervisor<J: Job> {
    /// The pending jobs, front of the `Vec` dispatched first.
    pub queue: Vec<J>,
    /// Priority/cap pairs; a priority without an entry is uncapped.
    pub caps: Vec<(u8, u8)>,
}

impl<J: Job> Supervisor<J> {
    /// An empty supervisor with no concurrency limit.
    pub fn new() -> (s: Self)
        ensures
            s.queue@ == Seq::<J>::empty(),
            s.caps@ == Seq::<(u8, u8)>::empty(),
    {
        Supervisor { queue: Vec::new(), caps: Vec::new() }
    }

    /// An empty supervisor whose concurrency limit maps each listed priority
    /// to its cap.
    pub fn with_limits(caps: Vec<(u8, u8)>) -> (s: Self)
        ensures
            s.queue@ == Seq::<J>::empty(),
            s.caps == caps,
    {
        Supervisor { queue: Vec::new(), caps }
    }

    /// Select up to `limit` dispatchable jobs: walk the queue from the front;
    /// take each job that the throttle admits and whose exclusion key
    /// conflicts with no running slot; skip the others, leaving them queued in
    /// order. The busy count is the snapshot taken on entry.
    #[verifier::loop_isolation(false)]
    pub fn steal(&mut self, running: &Vec<Option<ExclusionKey>>, limit: usize) -> (batch: Vec<J>)
        ensures
            ({
                let (b, rest) = spec_steal(
                    old(self).queue@,
                    running@,
                    old(self).caps@,
                    limit as nat,
                );
                batch@ == b && final(self).queue@ == rest
            }),
            final(self).caps == old(self).caps,
    {
        let busy = busy_slots(running);
        let ghost q0 = self.queue@;
        let mut batch: Vec<J> = Vec::new();
        let mut skip: usize = 0;
        proof {
            assert(self.queue@.subrange(0, self.queue@.len() as int) =~= q0);
            assert(self.queue@.subrange(0, 0) =~= Seq::<J>::empty());
            assert(Seq::<J>::empty() + spec_steal(q0, running@, self.caps@, limit as nat).0
                =~= spec_steal(q0, running@, self.caps@, limit as nat).0);
            assert(Seq::<J>::empty() + spec_steal(q0, running@, self.caps@, limit as nat).1
                =~= spec_steal(q0, running@, self.caps@, limit as nat).1);
        }
        while batch.len() < limit && skip < self.queue.len()
            invariant
                skip <= self.queue.len(),
                batch@.len() <= limit,
                self.caps == old(self).caps,
                spec_steal(q0, running@, self.caps@, limit as nat) == (
                    batch@ + spec_steal(
                        self.queue@.subrange(skip as int, self.queue@.len() as int),
                        running@,
                        self.caps@,
                        (limit - batch@.len()) as nat,
                    ).0,
                    self.queue@.subrange(0, skip as int) + spec_steal(
                        self.queue@.subrange(skip as int, self.queue@.len() as int),
                        running@,
                        self.caps@,
                        (limit - batch@.len()) as nat,
                    ).1,
                ),
            decreases self.queue@.len() - skip,
        {
            let ghost q_pre = self.queue@;
            let ghost suffix = q_pre.subrange(skip as int, q_pre.len() as int);
            let ghost lim: nat = (limit - batch@.len()) as nat;
            proof {
                assert(suffix[0] == q_pre[skip as int]);
                assert(suffix.drop_first() =~= q_pre.subrange(skip + 1, q_pre.len() as int));
            }
            let p = {
                let e = &self.queue[skip];
                e.priority()
            };
            let blocked = match lookup_cap(&self.caps, p) {
                Some(c) => busy >= c as usize,
                None => false,
            };
            let conflicted = if blocked {
                false
            } else {
                let k = {
                    let e = &self.queue[skip];
                    e.exclusion()
                };
                conflicts_with_running(running, k)
            };
            if blocked || conflicted {
                proof {
                    assert(!spec_runnable(suffix[0], running@, self.caps@));
                    let t = spec_steal(suffix.drop_first(), running@, self.caps@, lim);
                    assert(spec_steal(suffix, running@, self.caps@, lim) == (
                        t.0,
                        seq![suffix[0]] + t.1,
                    ));
                    assert(q_pre.subrange(0, skip + 1) =~= q_pre.subrange(0, skip as int) + seq![
                        suffix[0],
                    ]);
                    assert(q_pre.subrange(0, skip as int) + (seq![suffix[0]] + t.1) =~= q_pre
                        .subrange(0, skip + 1) + t.1);
                }
                skip = skip + 1;
            } else {
                proof {
                    assert(spec_runnable(suffix[0], running@, self.caps@));
                    let t = spec_steal(suffix.drop_first(), running@, self.caps@, (lim - 1) as nat);
                    assert(spec_steal(suffix, running@, self.caps@, lim) == (
                        seq![suffix[0]] + t.0,
                        t.1,
                    ));
                }
                let j = self.queue.remove(skip);
                batch.push(j);
                proof {
                    assert(self.queue@.subrange(0, skip as int) =~= q_pre.subrange(0, skip as int));
                    assert(self.queue@.subrange(skip as int, self.queue@.len() as int)
                        =~= suffix.drop_first());
                    assert(batch@ + spec_steal(
                        suffix.drop_first(),
                        running@,
                        self.caps@,
                        (lim - 1) as nat,
                    ).0 =~= (batch@.drop_last() + (seq![suffix[0]] + spec_steal(
                        suffix.drop_first(),
                        running@,
                        self.caps@,
                        (lim - 1) as nat,
                    ).0)));
                }
            }
        }
        proof {
            let suffix = self.queue@.subrange(skip as int, self.queue@.len() as int);
            let lim: nat = (limit - batch@.len()) as nat;
            let t = spec_steal(suffix, running@, self.caps@, lim);
            if skip == self.queue@.len() {
                assert(suffix =~= Seq::<J>::empty());
                assert(batch@ + t.0 =~= batch@);
                assert(self.queue@.subrange(0, skip as int) + t.1 =~= self.queue@);
            } else {
                assert(lim == 0);
                assert(t == (Seq::<J>::empty(), suffix));
                assert(batch@ + t.0 =~= batch@);
                assert(self.queue@.subrange(0, skip as int) + suffix =~= self.queue@);
            }
        }
        batch
    }
}

/// Every job a steal pass selects was runnable under the pre-batch snapshot:
/// the throttle admitted its priority against the busy count taken on entry,
/// and no slot running at that instant conflicted with its key.
pub proof fn lemma_steal_runnable<J: Job>(
    q: Seq<J>,
    running: Seq<Option<ExclusionKey>>,
    caps: Seq<(u8, u8)>,
    limit: nat,
)
    ensures
        forall|i: int|
            0 <= i < spec_steal(q, running, caps, limit).0.len() ==> spec_runnable(
                #[trigger] spec_steal(q, running, caps, limit).0[i],
                running,
                caps,
            ),
    decreases q.len(),
{
    if q.len() == 0 || limit == 0 {
    } else if spec_runnable(q[0], running, caps) {
        lemma_steal_runnable(q.drop_first(), running, caps, (limit - 1) as nat);
        let (b, r) = spec_steal(q.drop_first(), running, caps, (limit - 1) as nat);
        assert forall|i: int|
            0 <= i < spec_steal(q, running, caps, limit).0.len() implies spec_runnable(
            #[trigger] spec_steal(q, running, caps, limit).0[i],
            running,
            caps,
        ) by {
            if i == 0 {
                assert(spec_steal(q, running, caps, limit).0[0] == q[0]);
            } else {
                assert(spec_steal(q, running, caps, limit).0[i] == b[i - 1]);
            }
        }
    } else {
        lemma_steal_runnable(q.drop_first(), running, caps, limit);
        let (b, r) = spec_steal(q.drop_first(), running, caps, limit);
        assert forall|i: int|
            0 <= i < spec_steal(q, running, caps, limit).0.len() implies spec_runnable(
            #[trigger] spec_steal(q, running, caps, limit).0[i],
            running,
            caps,
        ) by {
            assert(spec_steal(q, running, caps, limit).0[i] == b[i]);
        }
    }
}

/// Both halves of a steal pass hold only jobs that were already queued.
proof fn lemma_steal_contains<J: Job>(
    q: Seq<J>,
    running: Seq<Option<ExclusionKey>>,
    caps: Seq<(u8, u8)>,
    limit: nat,
)
    ensures
        forall|i: int|
            0 <= i < spec_steal(q, running, caps, limit).0.len() ==> q.contains(
                #[trigger] spec_steal(q, running, caps, limit).0[i],
            ),
        forall|i: int|
            0 <= i < spec_steal(q, running, caps, limit).1.len() ==> q.contains(
                #[trigger] spec_steal(q, running, caps, limit).1[i],
            ),
    decreases q.len(),
{
    if q.len() == 0 || limit == 0 {
        if q.len() > 0 {
            assert(forall|i: int| 0 <= i < q.len() ==> q.contains(#[trigger] q[i]));
        }
    } else {
        let tail = q.drop_first();
        assert(forall|w: int| 0 <= w < tail.len() ==> tail[w] == q[w + 1]);
        if spec_runnable(q[0], running, caps) {
            lemma_steal_contains(tail, running, caps, (limit - 1) as nat);
            let (b, r) = spec_steal(tail, running, caps, (limit - 1) as nat);
            assert forall|i: int|
                0 <= i < spec_steal(q, running, caps, limit).0.len() implies q.contains(
                #[trigger] spec_steal(q, running, caps, limit).0[i],
            ) by {
                if i == 0 {
                    assert(q[0] == spec_steal(q, running, caps, limit).0[0]);
                } else {
                    assert(spec_steal(q, running, caps, limit).0[i] == b[i - 1]);
                    let w = choose|w: int| 0 <= w < tail.len() && tail[w] == b[i - 1];
                    assert(q[w + 1] == b[i - 1]);
                }
            }
            assert forall|i: int|
                0 <= i < spec_steal(q, running, caps, limit).1.len() implies q.contains(
                #[trigger] spec_steal(q, running, caps, limit).1[i],
            ) by {
                assert(spec_steal(q, running, caps, limit).1[i] == r[i]);
                let w = choose|w: int| 0 <= w < tail.len() && tail[w] == r[i];
                assert(q[w + 1] == r[i]);
            }
        } else {
            lemma_steal_contains(tail, running, caps, limit);
            let (b, r) = spec_steal(tail, running, caps, limit);
            assert forall|i: int|
                0 <= i < spec_steal(q, running, caps, limit).0.len() implies q.contains(
                #[trigger] spec_steal(q, running, caps, limit).0[i],
            ) by {
                assert(spec_steal(q, running, caps, limit).0[i] == b[i]);
                let w = choose|w: int| 0 <= w < tail.len() && tail[w] == b[i];
                assert(q[w + 1] == b[i]);
            }
            assert forall|i: int|
                0 <= i < spec_steal(q, running, caps, limit).1.len() implies q.contains(
                #[trigger] spec_steal(q, running, caps, limit).1[i],
            ) by {
                if i == 0 {
                    assert(q[0] == spec_steal(q, running, caps, limit).1[0]);
                } else {
                    assert(spec_steal(q, running, caps, limit).1[i] == r[i - 1]);
                    let w = choose|w: int| 0 <= w < tail.len() && tail[w] == r[i - 1];
                    assert(q[w + 1] == r[i - 1]);
                }
            }
        }
    }
}

/// Priority within the runnable set: no job a steal pass leaves queued both
/// was runnable under the pre-batch snapshot and has a strictly higher
/// priority than any job the pass selected.
pub proof fn lemma_steal_priority<J: Job>(
    q: Seq<J>,
    running: Seq<Option<ExclusionKey>>,
    caps: Seq<(u8, u8)>,
    limit: nat,
)
    requires
        sorted_desc(q),
    ensures
        forall|i: int, w: int|
            0 <= i < spec_steal(q, running, caps, limit).1.len() && spec_runnable(
                #[trigger] spec_steal(q, running, caps, limit).1[i],
                running,
                caps,
            ) && 0 <= w < spec_steal(q, running, caps, limit).0.len() ==> spec_steal(
                q,
                running,
                caps,
                limit,
            ).1[i].spec_priority() <= (#[trigger] spec_steal(
                q,
                running,
                caps,
                limit,
            ).0[w]).spec_priority(),
    decreases q.len(),
{
    if q.len() == 0 || limit == 0 {
    } else {
        let tail = q.drop_first();
        assert(forall|w: int| 0 <= w < tail.len() ==> tail[w] == q[w + 1]);
        assert(sorted_desc(tail));
        if spec_runnable(q[0], running, caps) {
            lemma_steal_priority(tail, running, caps, (limit - 1) as nat);
            lemma_steal_contains(tail, running, caps, (limit - 1) as nat);
            let (b, r) = spec_steal(tail, running, caps, (limit - 1) as nat);
            assert forall|i: int, w: int|
                0 <= i < spec_steal(q, running, caps, limit).1.len() && spec_runnable(
                    #[trigger] spec_steal(q, running, caps, limit).1[i],
                    running,
                    caps,
                ) && 0 <= w < spec_steal(q, running, caps, limit).0.len() implies spec_steal(
                q,
                running,
                caps,
                limit,
            ).1[i].spec_priority() <= (#[trigger] spec_steal(
                q,
                running,
                caps,
                limit,
            ).0[w]).spec_priority() by {
                assert(spec_steal(q, running, caps, limit).1[i] == r[i]);
                if w == 0 {
                    assert(tail.contains(r[i]));
                    let u = choose|u: int| 0 <= u < tail.len() && tail[u] == r[i];
                    assert(q[u + 1] == r[i]);
                    assert(q[u + 1].spec_priority() <= q[0].spec_priority());
                } else {
                    assert(spec_steal(q, running, caps, limit).0[w] == b[w - 1]);
                }
            }
        } else {
            lemma_steal_priority(tail, running, caps, limit);
            let (b, r) = spec_steal(tail, running, caps, limit);
            assert forall|i: int, w: int|
                0 <= i < spec_steal(q, running, caps, limit).1.len() && spec_runnable(
                    #[trigger] spec_steal(q, running, caps, limit).1[i],
                    running,
                    caps,
                ) && 0 <= w < spec_steal(q, running, caps, limit).0.len() implies spec_steal(
                q,
                running,
                caps,
                limit,
            ).1[i].spec_priority() <= (#[trigger] spec_steal(
                q,
                running,
                caps,
                limit,
            ).0[w]).spec_priority() by {
                if i == 0 {
                    assert(spec_steal(q, running, caps, limit).1[0] == q[0]);
                    assert(!spec_runnable(q[0], running, caps));
                } else {
                    assert(spec_steal(q, running, caps, limit).1[i] == r[i - 1]);
                    assert(spec_steal(q, running, caps, limit).0[w] == b[w]);
                }
            }
        }
    }
}

proof fn lemma_busy_update(running: Seq<Option<ExclusionKey>>, slot: int, k: ExclusionKey)
    requires
        0 <= slot < running.len(),
        running[slot] is None,
    ensures
        spec_busy(running.update(slot, Some(k))) == spec_busy(running) + 1,
    decreases running.len(),
{
    let updated = running.update(slot, Some(k));
    if slot == running.len() - 1 {
        assert(updated.drop_last() =~= running.drop_last());
    } else {
        lemma_busy_update(running.drop_last(), slot, k);
        assert(updated.drop_last() =~= running.drop_last().update(slot, Some(k)));
        assert(updated.last() == running.last());
    }
}

/// Exclusion is preserved across a dispatch: starting a job whose key
/// conflicts with no running slot, in an empty slot, leaves the running set
/// free of duplicated exclusion keys.
pub proof fn lemma_dispatch_exclusion(
    running: Seq<Option<ExclusionKey>>,
    slot: int,
    k: ExclusionKey,
)
    requires
        exclusion_distinct(running),
        !spec_conflicts(running, k),
        0 <= slot < running.len(),
        running[slot] is None,
    ensures
        exclusion_distinct(running.update(slot, Some(k))),
{
    let updated = running.update(slot, Some(k));
    assert forall|i: int, w: int|
        0 <= i < updated.len() && 0 <= w < updated.len() && i != w implies !slots_exclude(
        #[trigger] updated[i],
        #[trigger] updated[w],
    ) by {
        if i == slot || w == slot {
            let other = if i == slot {
                w
            } else {
                i
            };
            assert(updated[other] == running[other]);
            assert(!slot_conflicts(running[other], k));
        } else {
            assert(updated[i] == running[i] && updated[w] == running[w]);
        }
    }
}

/// The throttle is honored at dispatch: when the cap for the job's priority
/// admitted it against the pre-dispatch busy count, the busy count right
/// after it starts stays within that cap.
pub proof fn lemma_dispatch_throttle(
    running: Seq<Option<ExclusionKey>>,
    slot: int,
    k: ExclusionKey,
    caps: Seq<(u8, u8)>,
    p: u8,
    c: u8,
)
    requires
        spec_cap(caps, p) == Some(c),
        throttle_ok(caps, p, spec_busy(running)),
        0 <= slot < running.len(),
        running[slot] is None,
    ensures
        spec_busy(running.update(slot, Some(k))) <= c,
{
    lemma_busy_update(running, slot, k);
}

} // verus!
