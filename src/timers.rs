//! The timer queue: `(deadline, token)` entries kept in deadline order, so
//! that draining the expired ones only ever looks at the front.

use vstd::prelude::*;

verus! {

/// A deadline, in milliseconds since the Unix epoch, for one connection.
#[derive(Clone, Copy, Debug, PartialEq, Eq)]
pub struct TimerEntry {
    pub deadline: u128,
    pub token: usize,
}

/// Deadlines never decrease from front to back.
pub open spec fn sorted(q: Seq<TimerEntry>) -> bool {
    forall|i: int, j: int| 0 <= i < j < q.len() ==> q[i].deadline <= q[j].deadline
}

/// Number of leading entries whose deadline is strictly below `bound`.
pub open spec fn count_before(q: Seq<TimerEntry>, bound: int) -> nat
    decreases q.len(),
{
    if q.len() == 0 {
        0
    } else if q[0].deadline < bound {
        1 + count_before(q.drop_first(), bound)
    } else {
        0
    }
}

/// The queue after `e` is scheduled: it goes after every entry whose deadline
/// is at most its own, so equal deadlines keep their order of arrival.
pub open spec fn scheduled(q: Seq<TimerEntry>, e: TimerEntry) -> Seq<TimerEntry> {
    q.insert(count_before(q, e.deadline + 1) as int, e)
}

/// Number of entries at the front of the queue that have expired at `now`.
pub open spec fn expired_count(q: Seq<TimerEntry>, now: u128) -> nat {
    count_before(q, now as int)
}

/// `count_before` is the length of the longest prefix below `bound`.
pub proof fn lemma_count_before(q: Seq<TimerEntry>, bound: int)
    ensures
        count_before(q, bound) <= q.len(),
        forall|j: int| 0 <= j < count_before(q, bound) ==> q[j].deadline < bound,
        count_before(q, bound) < q.len() ==> q[count_before(q, bound) as int].deadline >= bound,
    decreases q.len(),
{
    if q.len() > 0 && q[0].deadline < bound {
        let t = q.drop_first();
        lemma_count_before(t, bound);
        assert forall|j: int| 0 <= j < count_before(q, bound) implies q[j].deadline < bound by {
            if j > 0 {
                assert(q[j] == t[j - 1]);
            }
        }
    }
}

/// In a sorted queue, the entries from `count_before` on are all at or above
/// `bound`.
pub proof fn lemma_count_before_sorted(q: Seq<TimerEntry>, bound: int)
    requires
        sorted(q),
    ensures
        count_before(q, bound) <= q.len(),
        forall|j: int| 0 <= j < count_before(q, bound) ==> q[j].deadline < bound,
        forall|j: int| count_before(q, bound) <= j < q.len() ==> q[j].deadline >= bound,
{
    lemma_count_before(q, bound);
    let c = count_before(q, bound) as int;
    assert forall|j: int| c <= j < q.len() implies q[j].deadline >= bound by {
        assert(q[c].deadline <= q[j].deadline);
    }
}

/// Scheduling keeps the queue sorted.
pub proof fn lemma_scheduled_sorted(q: Seq<TimerEntry>, e: TimerEntry)
    requires
        sorted(q),
    ensures
        sorted(scheduled(q, e)),
        scheduled(q, e).len() == q.len() + 1,
{
    lemma_count_before_sorted(q, e.deadline + 1);
    let p = count_before(q, e.deadline + 1) as int;
    let r = scheduled(q, e);
    assert forall|i: int, j: int| 0 <= i < j < r.len() implies r[i].deadline <= r[j].deadline by {
        if i < p && j < p {
        } else if i < p && j == p {
        } else if i < p {
            assert(r[j] == q[j - 1]);
        } else if i == p {
            assert(r[j] == q[j - 1]);
        } else {
            assert(r[i] == q[i - 1]);
            assert(r[j] == q[j - 1]);
        }
    }
}

/// The number of leading entries of `q` whose deadline is below `bound`.
pub fn leading_before(q: &Vec<TimerEntry>, bound: u128) -> (r: usize)
    ensures
        r == count_before(q@, bound as int),
{
    let mut i: usize = 0;
    while i < q.len() && q[i].deadline < bound
        invariant
            i <= q@.len(),
            forall|j: int| 0 <= j < i ==> q@[j].deadline < bound,
        decreases q@.len() - i,
    {
        i = i + 1;
    }
    proof {
        lemma_count_before_exact(q@, bound as int, i as int);
    }
    i
}

/// A prefix below `bound` that stops at the end or at an entry at or above
/// it has length `count_before`.
pub proof fn lemma_count_before_exact(q: Seq<TimerEntry>, bound: int, k: int)
    requires
        0 <= k <= q.len(),
        forall|j: int| 0 <= j < k ==> q[j].deadline < bound,
        k == q.len() || q[k].deadline >= bound,
    ensures
        count_before(q, bound) == k,
    decreases q.len(),
{
    if q.len() > 0 && q[0].deadline < bound {
        let t = q.drop_first();
        assert forall|j: int| 0 <= j < k - 1 implies t[j].deadline < bound by {
            assert(t[j] == q[j + 1]);
        }
        lemma_count_before_exact(t, bound, k - 1);
    }
}

/// Adds `e` to a sorted queue behind every entry due no later than it.
pub fn schedule(q: &mut Vec<TimerEntry>, e: TimerEntry)
    requires
        sorted(old(q)@),
    ensures
        final(q)@ == scheduled(old(q)@, e),
        sorted(final(q)@),
{
    proof {
        lemma_scheduled_sorted(q@, e);
        lemma_count_before(q@, e.deadline + 1);
    }
    let p: usize = if e.deadline == u128::MAX {
        q.len()
    } else {
        leading_before(q, e.deadline + 1)
    };
    proof {
        if e.deadline == u128::MAX {
            lemma_count_before_exact(q@, e.deadline + 1, q@.len() as int);
        }
    }
    q.insert(p, e);
}

/// A timer scheduled before another whose deadline is no earlier comes out of
/// the queue no later: once the second is scheduled, the first stands ahead
/// of it, and every drain that reaches the second has already reached the
/// first.
pub proof fn lemma_timer_order(q: Seq<TimerEntry>, i: int, b: TimerEntry, now: u128)
    requires
        sorted(q),
        0 <= i < q.len(),
        q[i].deadline <= b.deadline,
    ensures
        ({
            let q2 = scheduled(q, b);
            let p = count_before(q, b.deadline + 1) as int;
            &&& i < p
            &&& q2[i] == q[i]
            &&& q2[p] == b
            &&& p < expired_count(q2, now) ==> i < expired_count(q2, now)
        }),
{
    lemma_count_before_sorted(q, b.deadline + 1);
    lemma_scheduled_sorted(q, b);
    let q2 = scheduled(q, b);
    let p = count_before(q, b.deadline + 1) as int;
    if i >= p {
        assert(q[i].deadline >= b.deadline + 1);
    }
    lemma_count_before(q2, now as int);
}

/// No timer is left waiting once its deadline has passed: a drain at `now`
/// takes every entry whose deadline is strictly before `now`, and only those.
pub proof fn lemma_drain_takes_all_expired(q: Seq<TimerEntry>, now: u128)
    requires
        sorted(q),
    ensures
        forall|i: int| 0 <= i < q.len() ==> (i < expired_count(q, now) <==> #[trigger] q[i].deadline < now),
{
    lemma_count_before_sorted(q, now as int);
}

} // verus!
