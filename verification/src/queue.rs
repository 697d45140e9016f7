//! The pending queue: merging a new submission in, and the stable priority
//! sort that keeps the queue in dispatch order.

use vstd::prelude::*;

use crate::job::{Job, MergeResult};

verus! {

/// The queue that results from offering `j` to each queued entry in turn:
/// the first entry that absorbs it ends the walk; otherwise the (possibly
/// rewritten) incoming job is appended at the tail.
pub open spec fn spec_merge_walk<J: Job>(q: Seq<J>, j: J) -> Seq<J>
    decreases q.len(),
{
    if q.len() == 0 {
        seq![j]
    } else {
        match j.spec_merge(q[0]) {
            MergeResult::Merged(e) => seq![e] + q.drop_first(),
            MergeResult::NotMerged(j2, e) => seq![e] + spec_merge_walk(q.drop_first(), j2),
        }
    }
}

/// The queue after enqueueing `j`: a plain append when no merge function is
/// configured, the merge walk otherwise.
pub open spec fn spec_enqueue<J: Job>(q: Seq<J>, j: J, merge: bool) -> Seq<J> {
    if merge {
        spec_merge_walk(q, j)
    } else {
        q.push(j)
    }
}

/// Enqueue one job: append to the tail, or, when `merge` is set, walk the
/// queue in insertion order offering the incoming job to each entry until
/// one absorbs it.
#[verifier::loop_isolation(false)]
pub fn enqueue<J: Job>(queue: &mut Vec<J>, job: J, merge: bool)
    ensures
        final(queue)@ == spec_enqueue(old(queue)@, job, merge),
{
    if !merge {
        queue.push(job);
        return;
    }
    let ghost q0 = queue@;
    let mut cur = job;
    let mut i: usize = 0;
    proof {
        assert(queue@.subrange(0, 0) =~= Seq::<J>::empty());
        assert(queue@.subrange(0, queue@.len() as int) =~= q0);
        assert(Seq::<J>::empty() + spec_merge_walk(q0, job) =~= spec_merge_walk(q0, job));
    }
    while i < queue.len()
        invariant
            i <= queue.len(),
            queue@.len() == q0.len(),
            spec_merge_walk(q0, job) == queue@.subrange(0, i as int) + spec_merge_walk(
                queue@.subrange(i as int, queue@.len() as int),
                cur,
            ),
        decreases queue@.len() - i,
    {
        let ghost q_pre = queue@;
        let ghost suffix = q_pre.subrange(i as int, q_pre.len() as int);
        let ghost cur0 = cur;
        let existing = queue.remove(i);
        assert(existing == suffix[0]);
        match cur.merge_into(existing) {
            MergeResult::Merged(e) => {
                queue.insert(i, e);
                proof {
                    assert(suffix.len() > 0);
                    assert(cur0.spec_merge(suffix[0]) == MergeResult::Merged(e));
                    assert(spec_merge_walk(suffix, cur0) == seq![e] + suffix.drop_first());
                    assert(suffix.drop_first() =~= q_pre.subrange(i + 1, q_pre.len() as int));
                    assert(queue@ =~= q_pre.subrange(0, i as int) + (seq![e]
                        + suffix.drop_first()));
                }
                assert(queue@ == spec_merge_walk(q0, job));
                return;
            },
            MergeResult::NotMerged(j2, e) => {
                queue.insert(i, e);
                proof {
                    assert(suffix.drop_first() =~= q_pre.subrange(i + 1, q_pre.len() as int));
                    assert(queue@.subrange(0, i + 1) =~= q_pre.subrange(0, i as int) + seq![e]);
                    assert(queue@.subrange(i + 1, queue@.len() as int) =~= suffix.drop_first());
                }
                cur = j2;
                i = i + 1;
            },
        }
    }
    proof {
        assert(queue@.subrange(i as int, queue@.len() as int) =~= Seq::<J>::empty());
        assert(queue@.subrange(0, i as int) =~= queue@);
        assert(spec_merge_walk(q0, job) =~= queue@ + seq![cur]);
    }
    queue.push(cur);
}

/// Where `j` lands when inserted into a descending run `s`: after every
/// element whose priority is at least `j`'s, so that ties keep arrival order.
pub open spec fn spec_insert_sorted<J: Job>(s: Seq<J>, j: J) -> Seq<J>
    decreases s.len(),
{
    if s.len() == 0 {
        seq![j]
    } else if s.last().spec_priority() >= j.spec_priority() {
        s.push(j)
    } else {
        spec_insert_sorted(s.drop_last(), j).push(s.last())
    }
}

/// The stable sort of `s` by priority, highest first: insert each element in
/// arrival order into the run built from the ones before it.
pub open spec fn spec_sort<J: Job>(s: Seq<J>) -> Seq<J>
    decreases s.len(),
{
    if s.len() == 0 {
        Seq::empty()
    } else {
        spec_insert_sorted(spec_sort(s.drop_last()), s.last())
    }
}

/// Sorted by priority, highest first.
pub open spec fn sorted_desc<J: Job>(s: Seq<J>) -> bool {
    forall|i: int, k: int|
        0 <= i <= k < s.len() ==> s[i].spec_priority() >= s[k].spec_priority()
}

proof fn lemma_insert_at_pos<J: Job>(s: Seq<J>, j: J, pos: int)
    requires
        0 <= pos <= s.len(),
        forall|k: int| pos <= k < s.len() ==> s[k].spec_priority() < j.spec_priority(),
        pos > 0 ==> s[pos - 1].spec_priority() >= j.spec_priority(),
    ensures
        spec_insert_sorted(s, j) == s.subrange(0, pos) + seq![j] + s.subrange(
            pos,
            s.len() as int,
        ),
    decreases s.len(),
{
    if pos == s.len() {
        if s.len() == 0 {
            assert(spec_insert_sorted(s, j) =~= s.subrange(0, pos) + seq![j] + s.subrange(
                pos,
                s.len() as int,
            ));
        } else {
            assert(s.last().spec_priority() >= j.spec_priority());
            assert(s.push(j) =~= s.subrange(0, pos) + seq![j] + s.subrange(pos, s.len() as int));
        }
    } else {
        assert(s.last().spec_priority() < j.spec_priority());
        lemma_insert_at_pos(s.drop_last(), j, pos);
        assert(s.drop_last().subrange(0, pos) =~= s.subrange(0, pos));
        assert(s.drop_last().subrange(pos, s.len() - 1) =~= s.subrange(pos, s.len() - 1));
        assert((s.subrange(0, pos) + seq![j] + s.subrange(pos, s.len() - 1)).push(s.last())
            =~= s.subrange(0, pos) + seq![j] + s.subrange(pos, s.len() as int));
    }
}

fn find_insert_pos<J: Job>(sorted: &Vec<J>, jp: u8) -> (pos: usize)
    ensures
        pos <= sorted.len(),
        forall|k: int| pos <= k < sorted@.len() ==> sorted@[k].spec_priority() < jp,
        pos > 0 ==> sorted@[pos - 1].spec_priority() >= jp,
{
    let mut pos: usize = sorted.len();
    loop
        invariant
            pos <= sorted.len(),
            forall|k: int| pos <= k < sorted@.len() ==> sorted@[k].spec_priority() < jp,
        ensures
            pos <= sorted.len(),
            forall|k: int| pos <= k < sorted@.len() ==> sorted@[k].spec_priority() < jp,
            pos > 0 ==> sorted@[pos - 1].spec_priority() >= jp,
        decreases pos,
    {
        if pos == 0 {
            break;
        }
        let e = &sorted[pos - 1];
        if e.priority() >= jp {
            break;
        }
        pos = pos - 1;
    }
    pos
}

fn insert_sorted<J: Job>(sorted: &mut Vec<J>, j: J)
    ensures
        final(sorted)@ == spec_insert_sorted(old(sorted)@, j),
{
    let jp = j.priority();
    let pos = find_insert_pos(sorted, jp);
    proof {
        lemma_insert_at_pos(sorted@, j, pos as int);
    }
    sorted.insert(pos, j);
    proof {
        assert(sorted@ =~= old(sorted)@.subrange(0, pos as int) + seq![j] + old(
            sorted,
        )@.subrange(pos as int, old(sorted)@.len() as int));
    }
}

/// Sort the pending queue by priority, highest first; entries of equal
/// priority keep their insertion order.
pub fn sort_priority<J: Job>(queue: &mut Vec<J>)
    ensures
        final(queue)@ == spec_sort(old(queue)@),
{
    let ghost q0 = queue@;
    let mut sorted: Vec<J> = Vec::new();
    let ghost mut k: int = 0;
    proof {
        assert(queue@ =~= q0.subrange(0, q0.len() as int));
        assert(q0.subrange(0, 0) =~= Seq::<J>::empty());
    }
    while queue.len() > 0
        invariant
            0 <= k <= q0.len(),
            queue@ == q0.subrange(k, q0.len() as int),
            sorted@ == spec_sort(q0.subrange(0, k)),
        decreases queue@.len(),
    {
        let x = queue.remove(0);
        proof {
            assert(queue@ =~= q0.subrange(k + 1, q0.len() as int));
        }
        insert_sorted(&mut sorted, x);
        proof {
            assert(q0.subrange(0, k + 1).drop_last() =~= q0.subrange(0, k));
            assert(q0.subrange(0, k + 1).last() == x);
            k = k + 1;
        }
    }
    proof {
        assert(k == q0.len());
        assert(q0.subrange(0, q0.len() as int) =~= q0);
    }
    queue.append(&mut sorted);
}

/// After a stable sort the queue runs from the highest priority down.
pub proof fn lemma_insert_sorted_desc<J: Job>(s: Seq<J>, j: J)
    requires
        sorted_desc(s),
    ensures
        sorted_desc(spec_insert_sorted(s, j)),
    decreases s.len(),
{
    if s.len() == 0 {
    } else if s.last().spec_priority() >= j.spec_priority() {
    } else {
        lemma_insert_sorted_desc(s.drop_last(), j);
        let r = spec_insert_sorted(s.drop_last(), j);
        assert forall|i: int, k: int|
            0 <= i <= k < r.push(s.last()).len() implies r.push(s.last())[i].spec_priority()
            >= r.push(s.last())[k].spec_priority() by {
            lemma_insert_sorted_bound(s.drop_last(), j);
        }
    }
}

/// Every element of the run `spec_insert_sorted(s, j)` had a priority bound:
/// it is `j` or an element of `s`.
proof fn lemma_insert_sorted_bound<J: Job>(s: Seq<J>, j: J)
    ensures
        forall|i: int|
            0 <= i < spec_insert_sorted(s, j).len() ==> spec_insert_sorted(s, j)[i] == j
                || s.contains(spec_insert_sorted(s, j)[i]),
    decreases s.len(),
{
    if s.len() == 0 {
    } else if s.last().spec_priority() >= j.spec_priority() {
        assert forall|i: int| 0 <= i < s.push(j).len() implies s.push(j)[i] == j || s.contains(
            s.push(j)[i],
        ) by {
            if i < s.len() {
                assert(s[i] == s.push(j)[i]);
            }
        }
    } else {
        lemma_insert_sorted_bound(s.drop_last(), j);
        let r = spec_insert_sorted(s.drop_last(), j);
        assert forall|i: int| 0 <= i < r.push(s.last()).len() implies r.push(s.last())[i] == j
            || s.contains(r.push(s.last())[i]) by {
            if i < r.len() {
                if r[i] != j {
                    assert(s.drop_last().contains(r[i]));
                    let w = choose|w: int| 0 <= w < s.drop_last().len() && s.drop_last()[w] == r[i];
                    assert(s[w] == r[i]);
                }
            } else {
                assert(s[s.len() - 1] == s.last());
            }
        }
    }
}

/// The sorted queue runs from the highest priority down (dispatch order).
pub proof fn lemma_sort_sorted<J: Job>(s: Seq<J>)
    ensures
        sorted_desc(spec_sort(s)),
    decreases s.len(),
{
    if s.len() > 0 {
        lemma_sort_sorted(s.drop_last());
        lemma_insert_sorted_desc(spec_sort(s.drop_last()), s.last());
    }
}

/// The jobs of one priority class, in order.
pub open spec fn at_priority<J: Job>(p: u8) -> spec_fn(J) -> bool {
    |x: J| x.spec_priority() == p
}

proof fn lemma_insert_sorted_filter<J: Job>(s: Seq<J>, j: J, p: u8)
    ensures
        spec_insert_sorted(s, j).filter(at_priority(p)) == if j.spec_priority() == p {
            s.filter(at_priority(p)).push(j)
        } else {
            s.filter(at_priority(p))
        },
    decreases s.len(),
{
    reveal(Seq::filter);
    if s.len() == 0 {
        assert(seq![j].drop_last() =~= Seq::<J>::empty());
        assert(seq![j].last() == j);
        assert(Seq::<J>::empty().filter(at_priority(p)) == Seq::<J>::empty());
    } else if s.last().spec_priority() >= j.spec_priority() {
        assert(s.push(j).drop_last() =~= s);
        assert(s.push(j).last() == j);
    } else {
        lemma_insert_sorted_filter(s.drop_last(), j, p);
        let r = spec_insert_sorted(s.drop_last(), j);
        assert(r.push(s.last()).drop_last() =~= r);
        assert(r.push(s.last()).last() == s.last());
        assert(s.last().spec_priority() < j.spec_priority());
        if j.spec_priority() == p {
            assert(!at_priority::<J>(p)(s.last()));
            assert(s.filter(at_priority(p)) == s.drop_last().filter(at_priority(p)));
        }
    }
}

/// The sort keeps ties in arrival order: for every priority, the
/// subsequence of jobs at that priority is the same before and after.
pub proof fn lemma_sort_stable<J: Job>(s: Seq<J>, p: u8)
    ensures
        spec_sort(s).filter(at_priority(p)) == s.filter(at_priority(p)),
    decreases s.len(),
{
    reveal(Seq::filter);
    if s.len() > 0 {
        lemma_sort_stable(s.drop_last(), p);
        lemma_insert_sorted_filter(spec_sort(s.drop_last()), s.last(), p);
    }
}

/// The sort permutes the queue: no job appears or disappears.
pub proof fn lemma_sort_permutes<J: Job>(s: Seq<J>)
    ensures
        spec_sort(s).to_multiset() == s.to_multiset(),
    decreases s.len(),
{
    broadcast use vstd::seq_lib::group_to_multiset_ensures;

    if s.len() > 0 {
        lemma_sort_permutes(s.drop_last());
        lemma_insert_sorted_multiset(spec_sort(s.drop_last()), s.last());
        assert(s.drop_last().push(s.last()) =~= s);
    }
}

proof fn lemma_insert_sorted_multiset<J: Job>(s: Seq<J>, j: J)
    ensures
        spec_insert_sorted(s, j).to_multiset() == s.to_multiset().insert(j),
    decreases s.len(),
{
    broadcast use vstd::seq_lib::group_to_multiset_ensures;

    if s.len() == 0 {
        assert(seq![j] =~= Seq::<J>::empty().push(j));
    } else if s.last().spec_priority() >= j.spec_priority() {
    } else {
        broadcast use vstd::multiset::group_multiset_axioms;

        lemma_insert_sorted_multiset(s.drop_last(), j);
        assert(s.drop_last().push(s.last()) =~= s);
        assert(s.to_multiset() == s.drop_last().to_multiset().insert(s.last()));
        assert(s.drop_last().to_multiset().insert(j).insert(s.last())
            =~= s.drop_last().to_multiset().insert(s.last()).insert(j));
    }
}

/// Key-based merging: absorption happens exactly when the keys agree, and no
/// outcome of a merge changes either side's key.
pub open spec fn merge_keyed_by<J: Job>(key: spec_fn(J) -> int) -> bool {
    forall|a: J, b: J|
        {
            &&& (#[trigger] a.spec_merge(b)) is Merged <==> key(a) == key(b)
            &&& match a.spec_merge(b) {
                MergeResult::Merged(e) => key(e) == key(b),
                MergeResult::NotMerged(a2, e2) => key(a2) == key(a) && key(e2) == key(b),
            }
        }
}

/// No two queue entries share a merge key.
pub open spec fn distinct_keys<J: Job>(q: Seq<J>, key: spec_fn(J) -> int) -> bool {
    forall|i: int, k: int|
        0 <= i < q.len() && 0 <= k < q.len() && i != k ==> key(q[i]) != key(q[k])
}

/// Merging is a fixed point: when the merge rule absorbs exactly on key
/// equality, enqueueing into a queue with pairwise distinct keys leaves the
/// keys pairwise distinct, so no pair of queued entries would still merge.
pub proof fn lemma_merge_fixed_point<J: Job>(q: Seq<J>, j: J, key: spec_fn(J) -> int)
    requires
        merge_keyed_by(key),
        distinct_keys(q, key),
    ensures
        distinct_keys(spec_merge_walk(q, j), key),
        forall|i: int, k: int|
            0 <= i < spec_merge_walk(q, j).len() && 0 <= k < spec_merge_walk(q, j).len() && i != k
                ==> !((#[trigger] spec_merge_walk(q, j)[i].spec_merge(
                spec_merge_walk(q, j)[k],
            )) is Merged),
    decreases q.len(),
{
    let r = spec_merge_walk(q, j);
    if q.len() == 0 {
    } else {
        match j.spec_merge(q[0]) {
            MergeResult::Merged(e) => {
                assert(key(e) == key(q[0]));
                assert forall|i: int, k: int|
                    0 <= i < r.len() && 0 <= k < r.len() && i != k implies key(r[i]) != key(
                    r[k],
                ) by {
                    assert(forall|w: int| 0 < w < q.len() ==> r[w] == q.drop_first()[w - 1]);
                }
            },
            MergeResult::NotMerged(j2, e) => {
                assert(key(j2) == key(j) && key(e) == key(q[0]));
                assert(key(j) != key(q[0]));
                assert forall|i: int, k: int|
                    0 <= i < q.drop_first().len() && 0 <= k < q.drop_first().len() && i != k implies
                    key(q.drop_first()[i]) != key(q.drop_first()[k]) by {
                    assert(q.drop_first()[i] == q[i + 1]);
                    assert(q.drop_first()[k] == q[k + 1]);
                }
                lemma_merge_fixed_point(q.drop_first(), j2, key);
                let tail = spec_merge_walk(q.drop_first(), j2);
                lemma_merge_walk_keys(q.drop_first(), j2, key);
                assert forall|i: int, k: int|
                    0 <= i < r.len() && 0 <= k < r.len() && i != k implies key(r[i]) != key(
                    r[k],
                ) by {
                    if i > 0 && k > 0 {
                        assert(r[i] == tail[i - 1] && r[k] == tail[k - 1]);
                    } else {
                        let m = if i == 0 {
                            k
                        } else {
                            i
                        };
                        assert(r[0] == e && r[m] == tail[m - 1]);
                        if key(tail[m - 1]) == key(j2) {
                            assert(key(r[m]) != key(q[0]));
                        } else {
                            let w = choose|w: int|
                                0 <= w < q.drop_first().len() && key(q.drop_first()[w]) == key(
                                    tail[m - 1],
                                );
                            assert(q.drop_first()[w] == q[w + 1]);
                            assert(key(q[w + 1]) != key(q[0]));
                        }
                    }
                }
            },
        }
    }
}

proof fn lemma_insert_sorted_distinct<J: Job>(s: Seq<J>, j: J, key: spec_fn(J) -> int)
    requires
        distinct_keys(s, key),
        forall|i: int| 0 <= i < s.len() ==> key(#[trigger] s[i]) != key(j),
    ensures
        distinct_keys(spec_insert_sorted(s, j), key),
    decreases s.len(),
{
    if s.len() == 0 {
    } else if s.last().spec_priority() >= j.spec_priority() {
        assert forall|i: int, k: int|
            0 <= i < s.push(j).len() && 0 <= k < s.push(j).len() && i != k implies key(
            s.push(j)[i],
        ) != key(s.push(j)[k]) by {
            if i < s.len() && k < s.len() {
                assert(s.push(j)[i] == s[i] && s.push(j)[k] == s[k]);
            } else {
                let m = if i < s.len() {
                    i
                } else {
                    k
                };
                assert(s.push(j)[m] == s[m]);
            }
        }
    } else {
        assert forall|i: int| 0 <= i < s.drop_last().len() implies key(
            #[trigger] s.drop_last()[i],
        ) != key(j) by {
            assert(s.drop_last()[i] == s[i]);
        }
        assert forall|i: int, k: int|
            0 <= i < s.drop_last().len() && 0 <= k < s.drop_last().len() && i != k implies key(
            #[trigger] s.drop_last()[i],
        ) != key(#[trigger] s.drop_last()[k]) by {
            assert(s.drop_last()[i] == s[i] && s.drop_last()[k] == s[k]);
        }
        lemma_insert_sorted_distinct(s.drop_last(), j, key);
        lemma_insert_sorted_bound(s.drop_last(), j);
        let r = spec_insert_sorted(s.drop_last(), j);
        assert forall|i: int, k: int|
            0 <= i < r.push(s.last()).len() && 0 <= k < r.push(s.last()).len() && i != k implies
            key(r.push(s.last())[i]) != key(r.push(s.last())[k]) by {
            if i < r.len() && k < r.len() {
                assert(r.push(s.last())[i] == r[i] && r.push(s.last())[k] == r[k]);
            } else {
                let m = if i < r.len() {
                    i
                } else {
                    k
                };
                assert(r.push(s.last())[m] == r[m]);
                if r[m] != j {
                    assert(s.drop_last().contains(r[m]));
                    let w = choose|w: int|
                        0 <= w < s.drop_last().len() && s.drop_last()[w] == r[m];
                    assert(s[w] == r[m]);
                    assert(key(s[w]) != key(s[s.len() - 1]));
                } else {
                    assert(key(s[s.len() - 1]) != key(j));
                }
                assert(s[s.len() - 1] == s.last());
            }
        }
    }
}

/// The elements of the sorted run all come from the unsorted one.
proof fn lemma_sort_bound<J: Job>(s: Seq<J>)
    ensures
        forall|i: int|
            0 <= i < spec_sort(s).len() ==> s.contains(#[trigger] spec_sort(s)[i]),
    decreases s.len(),
{
    if s.len() > 0 {
        lemma_sort_bound(s.drop_last());
        lemma_insert_sorted_bound(spec_sort(s.drop_last()), s.last());
        let r = spec_insert_sorted(spec_sort(s.drop_last()), s.last());
        assert forall|i: int| 0 <= i < r.len() implies s.contains(#[trigger] r[i]) by {
            if r[i] == s.last() {
                assert(s[s.len() - 1] == s.last());
            } else {
                assert(spec_sort(s.drop_last()).contains(r[i]));
                let w = choose|w: int|
                    0 <= w < spec_sort(s.drop_last()).len() && spec_sort(s.drop_last())[w] == r[i];
                assert(s.drop_last().contains(r[i]));
                let u = choose|u: int| 0 <= u < s.drop_last().len() && s.drop_last()[u] == r[i];
                assert(s[u] == r[i]);
            }
        }
    }
}

/// Sorting cannot reintroduce a mergeable pair: a queue whose merge keys are
/// pairwise distinct keeps them pairwise distinct through the stable sort.
pub proof fn lemma_sort_distinct<J: Job>(s: Seq<J>, key: spec_fn(J) -> int)
    requires
        distinct_keys(s, key),
    ensures
        distinct_keys(spec_sort(s), key),
    decreases s.len(),
{
    if s.len() > 0 {
        assert forall|i: int, k: int|
            0 <= i < s.drop_last().len() && 0 <= k < s.drop_last().len() && i != k implies key(
            #[trigger] s.drop_last()[i],
        ) != key(#[trigger] s.drop_last()[k]) by {
            assert(s.drop_last()[i] == s[i] && s.drop_last()[k] == s[k]);
        }
        lemma_sort_distinct(s.drop_last(), key);
        lemma_sort_bound(s.drop_last());
        let r = spec_sort(s.drop_last());
        assert forall|i: int| 0 <= i < r.len() implies key(#[trigger] r[i]) != key(s.last()) by {
            assert(s.drop_last().contains(r[i]));
            let w = choose|w: int| 0 <= w < s.drop_last().len() && s.drop_last()[w] == r[i];
            assert(s[w] == r[i]);
            assert(key(s[w]) != key(s[s.len() - 1]));
            assert(s[s.len() - 1] == s.last());
        }
        lemma_insert_sorted_distinct(r, s.last(), key);
    }
}

/// `LabeledJob`'s merge rule is keyed by the label: enqueueing into a
/// labeled queue whose labels are pairwise distinct leaves them pairwise
/// distinct, so its merging is a fixed point.
pub proof fn lemma_labeled_merge_keyed()
    ensures
        merge_keyed_by(|x: crate::job::LabeledJob| x.tag as int),
{
}

/// Every key in the walk's result is the incoming job's key or one already
/// in the queue.
proof fn lemma_merge_walk_keys<J: Job>(q: Seq<J>, j: J, key: spec_fn(J) -> int)
    requires
        merge_keyed_by(key),
    ensures
        forall|i: int|
            0 <= i < spec_merge_walk(q, j).len() ==> key(#[trigger] spec_merge_walk(q, j)[i])
                == key(j) || exists|w: int| 0 <= w < q.len() && key(q[w]) == #[trigger] key(
                spec_merge_walk(q, j)[i],
            ),
    decreases q.len(),
{
    let r = spec_merge_walk(q, j);
    if q.len() == 0 {
    } else {
        match j.spec_merge(q[0]) {
            MergeResult::Merged(e) => {
                assert forall|i: int| 0 <= i < r.len() implies key(#[trigger] r[i]) == key(j)
                    || exists|w: int| 0 <= w < q.len() && key(q[w]) == key(r[i]) by {
                    if i == 0 {
                        assert(key(r[0]) == key(q[0]));
                    } else {
                        assert(r[i] == q.drop_first()[i - 1]);
                        assert(q.drop_first()[i - 1] == q[i]);
                        assert(key(q[i]) == key(r[i]));
                    }
                }
            },
            MergeResult::NotMerged(j2, e) => {
                lemma_merge_walk_keys(q.drop_first(), j2, key);
                let tail = spec_merge_walk(q.drop_first(), j2);
                assert forall|i: int| 0 <= i < r.len() implies key(#[trigger] r[i]) == key(j)
                    || exists|w: int| 0 <= w < q.len() && key(q[w]) == key(r[i]) by {
                    if i == 0 {
                        assert(key(r[0]) == key(q[0]));
                    } else {
                        assert(r[i] == tail[i - 1]);
                        if key(tail[i - 1]) == key(j2) {
                        } else {
                            let w = choose|w: int|
                                0 <= w < q.drop_first().len() && key(q.drop_first()[w]) == key(
                                    tail[i - 1],
                                );
                            assert(q.drop_first()[w] == q[w + 1]);
                            assert(key(q[w + 1]) == key(r[i]));
                        }
                    }
                }
            },
        }
    }
}

} // verus!
