//! An unordered collection of many concurrently in-flight tasks,
//! yielding results as they complete, with dynamic insertion and a
//! starvation-free reporting order.

use vstd::prelude::*;
use vstd::seq_lib::group_to_multiset_ensures;
use vstd::multiset::Multiset;
use crate::task::CancellableTask;
use crate::task::TaskPoll;

verus! {

/// What one poll of a pool reports.
#[derive(Clone, Copy, Debug, PartialEq, Eq, Structural)]
pub enum PoolPoll {
    /// Some member completed with this value; it has been removed.
    Ready(u64),
    /// Members are held, but none has finished yet.
    Pending,
    /// Zero members are currently held.
    Empty,
}

/// The members left pending after one scan that polls every current
/// member once: completed members are dropped, the rest advance, and
/// insertion order is kept.
pub open spec fn step_pending(s: Seq<CancellableTask>) -> Seq<CancellableTask>
    decreases s.len(),
{
    if s.len() == 0 {
        Seq::empty()
    } else {
        let rest = step_pending(s.drop_last());
        if s.last().ready_now() {
            rest
        } else {
            rest.push(s.last().stepped())
        }
    }
}

/// The values of the members that complete during one scan, in
/// insertion order.
pub open spec fn step_ready(s: Seq<CancellableTask>) -> Seq<u64>
    decreases s.len(),
{
    if s.len() == 0 {
        Seq::empty()
    } else {
        let rest = step_ready(s.drop_last());
        if s.last().ready_now() {
            rest.push(s.last().value)
        } else {
            rest
        }
    }
}

/// The values the members will eventually produce, in insertion order.
pub open spec fn task_values(s: Seq<CancellableTask>) -> Seq<u64>
    decreases s.len(),
{
    if s.len() == 0 {
        Seq::empty()
    } else {
        task_values(s.drop_last()).push(s.last().value)
    }
}

/// Upper bound on the polls the members still absorb.
pub open spec fn pending_fuel(s: Seq<CancellableTask>) -> nat
    decreases s.len(),
{
    if s.len() == 0 {
        0
    } else {
        pending_fuel(s.drop_last()) + s.last().fuel()
    }
}

/// The queue of values a pool hands out after one more scan: values
/// already waiting to be reported first (oldest first), then the
/// values completing in this scan, in insertion order.
pub open spec fn next_queue(pending: Seq<CancellableTask>, ready: Seq<u64>) -> Seq<u64> {
    ready + step_ready(pending)
}

/// The waiting values after one poll: the oldest queued value is
/// reported and removed; everything newly completed queues up behind.
pub open spec fn ready_after_poll(pending: Seq<CancellableTask>, ready: Seq<u64>) -> Seq<u64> {
    let q = next_queue(pending, ready);
    if q.len() > 0 {
        q.drop_first()
    } else {
        ready
    }
}

/// The value one poll reports, if any: always the oldest queued one.
pub open spec fn emitted(pending: Seq<CancellableTask>, ready: Seq<u64>) -> Option<u64> {
    let q = next_queue(pending, ready);
    if q.len() > 0 {
        Option::Some(q[0])
    } else {
        Option::None
    }
}

/// A dynamic, unordered collection of in-flight tasks. Members are
/// polled in insertion order each scan; completed members are removed
/// and their values reported exactly once, oldest completion first
/// (ties broken by insertion order). This order is deterministic, and
/// starvation-free: a completed value's report can only be delayed by
/// values that completed no later, never by newly pushed tasks.
#[derive(Clone, Debug, PartialEq, Eq)]
pub struct TaskPool {
    /// Members still in flight, in insertion order.
    pub pending: Vec<CancellableTask>,
    /// Values of completed members not yet reported, oldest first.
    pub ready: Vec<u64>,
}

impl TaskPool {
    /// Every member may still be polled.
    pub open spec fn wf(self) -> bool {
        forall|i: int| 0 <= i < self.pending@.len() ==> (#[trigger] self.pending@[i]).live()
    }

    /// Every member completes after finitely many polls.
    pub open spec fn finite(self) -> bool {
        forall|i: int| 0 <= i < self.pending@.len() ==> (#[trigger] self.pending@[i]).is_finite()
    }

    /// Nothing is held and nothing is left to report.
    pub open spec fn terminal(self) -> bool {
        self.pending@.len() == 0 && self.ready@.len() == 0
    }

    /// The very next poll will report a value.
    pub open spec fn ready_now(self) -> bool {
        next_queue(self.pending@, self.ready@).len() > 0
    }

    /// What the next poll reports.
    pub open spec fn poll_outcome(self) -> PoolPoll {
        let q = next_queue(self.pending@, self.ready@);
        if q.len() > 0 {
            PoolPoll::Ready(q[0])
        } else if self.pending@.len() > 0 {
            PoolPoll::Pending
        } else {
            PoolPoll::Empty
        }
    }

    /// Upper bound on the polls the pool still absorbs before it is
    /// terminal; drives termination of scheduler runs.
    pub open spec fn fuel(self) -> nat {
        pending_fuel(self.pending@) + self.ready@.len()
    }

    /// The multiset of values the pool still owes its caller.
    pub open spec fn contents(self) -> Multiset<u64> {
        task_values(self.pending@).to_multiset().add(self.ready@.to_multiset())
    }

    /// An empty pool.
    pub fn new() -> (p: Self)
        ensures
            p.pending@ == Seq::<CancellableTask>::empty(),
            p.ready@ == Seq::<u64>::empty(),
    {
        TaskPool { pending: Vec::new(), ready: Vec::new() }
    }

    /// Adds a member. Amortized constant time; the pool itself puts
    /// no upper bound on how many members are held.
    pub fn push(&mut self, t: CancellableTask)
        requires
            t.live(),
        ensures
            final(self).pending@ == old(self).pending@.push(t),
            final(self).ready@ == old(self).ready@,
    {
        self.pending.push(t);
    }

    /// Polls every current member once, then reports the oldest value
    /// waiting, if any. `Empty` means zero members are held, as
    /// distinct from `Pending` (members held, none finished yet). A
    /// reported value's member was removed when it completed; the
    /// remaining members keep their in-progress state.
    pub fn poll_any(&mut self) -> (r: PoolPoll)
        requires
            old(self).wf(),
        ensures
            r == old(self).poll_outcome(),
            final(self).pending@ == step_pending(old(self).pending@),
            final(self).ready@ == ready_after_poll(old(self).pending@, old(self).ready@),
            final(self).wf(),
            old(self).finite() ==> final(self).finite(),
    {
        let ghost orig = self.pending@;
        let ghost orig_ready = self.ready@;
        let n = self.pending.len();
        let mut still: Vec<CancellableTask> = Vec::new();
        let mut i: usize = 0;
        while i < n
            invariant
                i <= n,
                n == self.pending@.len(),
                self.pending@ == orig,
                forall|j: int| 0 <= j < orig.len() ==> (#[trigger] orig[j]).live(),
                still@ == step_pending(orig.take(i as int)),
                self.ready@ == orig_ready + step_ready(orig.take(i as int)),
            decreases n - i,
        {
            let mut t = self.pending[i];
            assert(orig.take(i as int + 1).drop_last() =~= orig.take(i as int));
            assert(orig.take(i as int + 1).last() == orig[i as int]);
            let p = t.poll();
            match p {
                TaskPoll::Ready(v) => {
                    self.ready.push(v);
                },
                TaskPoll::Pending => {
                    still.push(t);
                },
            }
            i = i + 1;
        }
        assert(orig.take(n as int) =~= orig);
        self.pending = still;
        proof {
            lemma_step_lengths(orig);
            lemma_step_pending_elems(orig);
        }
        if self.ready.len() > 0 {
            let v = self.ready.remove(0);
            proof {
                let q = next_queue(orig, orig_ready);
                assert(q.remove(0) =~= q.drop_first());
            }
            PoolPoll::Ready(v)
        } else if self.pending.len() > 0 {
            PoolPoll::Pending
        } else {
            PoolPoll::Empty
        }
    }

    /// Polls the pool until it is empty and collects every reported
    /// value: each value a member owed is reported exactly once —
    /// none duplicated, none dropped.
    pub fn drain(&mut self) -> (vals: Vec<u64>)
        requires
            old(self).wf(),
            old(self).finite(),
        ensures
            vals@.to_multiset() == old(self).contents(),
            final(self).terminal(),
            final(self).wf(),
    {
        let ghost all = old(self).contents();
        let mut vals: Vec<u64> = Vec::new();
        proof {
            broadcast use group_to_multiset_ensures;
            broadcast use vstd::multiset::group_multiset_axioms;

            assert(vals@.to_multiset().add(self.contents()) =~= all);
        }
        loop
            invariant
                all == old(self).contents(),
                self.wf(),
                self.finite(),
                vals@.to_multiset().add(self.contents()) == all,
            decreases self.fuel(),
        {
            let ghost pre = *self;
            let ghost pre_vals = vals@;
            let r = self.poll_any();
            proof {
                lemma_poll_spends_fuel(pre.pending@, pre.ready@);
                lemma_poll_keeps_contents(pre.pending@, pre.ready@);
                broadcast use group_to_multiset_ensures;
                broadcast use vstd::multiset::group_multiset_axioms;

            }
            match r {
                PoolPoll::Ready(v) => {
                    vals.push(v);
                    proof {
                        broadcast use group_to_multiset_ensures;
                        broadcast use vstd::multiset::group_multiset_axioms;

                        assert(vals@ == pre_vals.push(v));
                        assert(vals@.to_multiset() =~= pre_vals.to_multiset().insert(v));
                        assert(vals@.to_multiset().add(self.contents()) =~= pre_vals.to_multiset().add(
                            self.contents().insert(v),
                        ));
                        assert(vals@.to_multiset().add(self.contents()) =~= all);
                    }
                },
                PoolPoll::Pending => {
                },
                PoolPoll::Empty => {
                    proof {
                        broadcast use group_to_multiset_ensures;
                        broadcast use vstd::multiset::group_multiset_axioms;

                        assert(self.pending@.len() == 0 && self.ready@.len() == 0);
                        assert(self.contents() =~= Multiset::<u64>::empty());
                        assert(vals@.to_multiset() =~= all);
                    }
                    return vals;
                },
            }
        }
    }
}

/// A scan's survivors are still live, and still finite if every
/// member was: advancing a pending member never completes it in
/// place, and a completed member leaves the pending list at once.
pub proof fn lemma_step_pending_elems(s: Seq<CancellableTask>)
    requires
        forall|i: int| 0 <= i < s.len() ==> (#[trigger] s[i]).live(),
    ensures
        forall|i: int| 0 <= i < step_pending(s).len() ==> (#[trigger] step_pending(s)[i]).live(),
        (forall|i: int| 0 <= i < s.len() ==> (#[trigger] s[i]).is_finite()) ==> (forall|i: int|
            0 <= i < step_pending(s).len() ==> (#[trigger] step_pending(s)[i]).is_finite()),
    decreases s.len(),
{
    if s.len() > 0 {
        let u = s.drop_last();
        assert(forall|i: int| 0 <= i < u.len() ==> u[i] == s[i]);
        lemma_step_pending_elems(u);
        if !s.last().ready_now() {
            assert(step_pending(s) == step_pending(u).push(s.last().stepped()));
        }
    }
}

/// One scan conserves members: every member either stays pending or
/// reports its value, so the two sides of a scan always add back up.
pub proof fn lemma_step_lengths(s: Seq<CancellableTask>)
    ensures
        step_pending(s).len() + step_ready(s).len() == s.len(),
    decreases s.len(),
{
    if s.len() > 0 {
        lemma_step_lengths(s.drop_last());
    }
}

/// One scan conserves values: the values still owed by the advanced
/// members plus the values newly reported are exactly the values the
/// members owed before the scan — none duplicated, none dropped.
pub proof fn lemma_scan_keeps_values(s: Seq<CancellableTask>)
    ensures
        task_values(step_pending(s)).to_multiset().add(step_ready(s).to_multiset())
            == task_values(s).to_multiset(),
    decreases s.len(),
{
    broadcast use group_to_multiset_ensures;
    broadcast use vstd::multiset::group_multiset_axioms;

    if s.len() == 0 {
        assert(task_values(step_pending(s)).to_multiset().add(step_ready(s).to_multiset())
            =~= task_values(s).to_multiset());
    } else {
        let u = s.drop_last();
        let t = s.last();
        lemma_scan_keeps_values(u);
        if t.ready_now() {
            assert(task_values(step_pending(s)).to_multiset().add(step_ready(s).to_multiset())
                =~= task_values(s).to_multiset());
        } else {
            let sp = step_pending(u).push(t.stepped());
            assert(sp.drop_last() =~= step_pending(u));
            assert(sp.last() == t.stepped());
            assert(task_values(sp) == task_values(step_pending(u)).push(t.stepped().value));
            assert(t.stepped().value == t.value);
            assert(task_values(step_pending(s)).to_multiset().add(step_ready(s).to_multiset())
                =~= task_values(s).to_multiset());
        }
    }
}

/// One poll of the pool conserves the values owed: either nothing is
/// reported and nothing is owed less, or exactly the reported value
/// leaves the pool.
pub proof fn lemma_poll_keeps_contents(pending: Seq<CancellableTask>, ready: Seq<u64>)
    ensures
        ({
            let q = next_queue(pending, ready);
            let after = task_values(step_pending(pending)).to_multiset().add(
                ready_after_poll(pending, ready).to_multiset(),
            );
            let before = task_values(pending).to_multiset().add(ready.to_multiset());
            &&& q.len() > 0 ==> after.insert(q[0]) == before
            &&& q.len() == 0 ==> after == before
        }),
{
    broadcast use group_to_multiset_ensures;
    broadcast use vstd::multiset::group_multiset_axioms;

    lemma_scan_keeps_values(pending);
    let q = next_queue(pending, ready);
    if q.len() > 0 {
        assert(q.remove(0) =~= q.drop_first());
        assert(q.to_multiset() == q.drop_first().to_multiset().insert(q[0])) by {
            assert(q.remove(0).to_multiset() =~= q.to_multiset().remove(q[0]));
            assert(q.to_multiset().count(q[0]) > 0);
            assert(q.to_multiset().remove(q[0]).insert(q[0]) =~= q.to_multiset());
        }
        assert(q.to_multiset() =~= ready.to_multiset().add(step_ready(pending).to_multiset()))
            by {
            lemma_concat_multiset(ready, step_ready(pending));
        }
        assert(task_values(step_pending(pending)).to_multiset().add(
            ready_after_poll(pending, ready).to_multiset(),
        ).insert(q[0]) =~= task_values(pending).to_multiset().add(ready.to_multiset()));
    } else {
        assert(ready =~= Seq::<u64>::empty());
        assert(step_ready(pending).to_multiset() =~= Multiset::<u64>::empty());
        assert(task_values(step_pending(pending)).to_multiset().add(
            ready_after_poll(pending, ready).to_multiset(),
        ) =~= task_values(pending).to_multiset().add(ready.to_multiset()));
    }
}

/// The multiset of a concatenation is the sum of the parts.
pub proof fn lemma_concat_multiset(a: Seq<u64>, b: Seq<u64>)
    ensures
        (a + b).to_multiset() == a.to_multiset().add(b.to_multiset()),
    decreases b.len(),
{
    broadcast use group_to_multiset_ensures;
    broadcast use vstd::multiset::group_multiset_axioms;

    if b.len() == 0 {
        assert(a + b =~= a);
        assert((a + b).to_multiset() =~= a.to_multiset().add(b.to_multiset()));
    } else {
        lemma_concat_multiset(a, b.drop_last());
        assert(a + b =~= (a + b.drop_last()).push(b.last()));
        assert(b =~= b.drop_last().push(b.last()));
        assert((a + b).to_multiset() =~= a.to_multiset().add(b.to_multiset()));
    }
}

/// One poll can only spend fuel, and spends at least one unit
/// whenever the pool is not yet terminal (for live, finite members).
pub proof fn lemma_poll_spends_fuel(pending: Seq<CancellableTask>, ready: Seq<u64>)
    requires
        forall|i: int| 0 <= i < pending.len() ==> (#[trigger] pending[i]).live(),
        forall|i: int| 0 <= i < pending.len() ==> (#[trigger] pending[i]).is_finite(),
    ensures
        ({
            let after = pending_fuel(step_pending(pending)) + ready_after_poll(
                pending,
                ready,
            ).len();
            let before = pending_fuel(pending) + ready.len();
            &&& after <= before
            &&& (pending.len() > 0 || ready.len() > 0) ==> after < before
        }),
{
    lemma_scan_spends_fuel(pending);
    let q = next_queue(pending, ready);
    if q.len() > 0 {
    } else {
        if pending.len() > 0 {
            lemma_scan_strict_fuel(pending);
        }
    }
}

/// A scan never adds fuel: each member spends a poll or converts into
/// exactly one queued value.
proof fn lemma_scan_spends_fuel(s: Seq<CancellableTask>)
    ensures
        pending_fuel(step_pending(s)) + step_ready(s).len() <= pending_fuel(s),
    decreases s.len(),
{
    if s.len() > 0 {
        let u = s.drop_last();
        let t = s.last();
        lemma_scan_spends_fuel(u);
        if !t.ready_now() {
            let sp = step_pending(u).push(t.stepped());
            assert(sp.drop_last() =~= step_pending(u));
            assert(sp.last() == t.stepped());
            assert(pending_fuel(sp) == pending_fuel(step_pending(u)) + t.stepped().fuel());
        }
    }
}

/// A scan of live, finite members that completes nothing still spends
/// at least one unit of fuel per member.
proof fn lemma_scan_strict_fuel(s: Seq<CancellableTask>)
    requires
        s.len() > 0,
        forall|i: int| 0 <= i < s.len() ==> (#[trigger] s[i]).live(),
        forall|i: int| 0 <= i < s.len() ==> (#[trigger] s[i]).is_finite(),
        step_ready(s).len() == 0,
    ensures
        pending_fuel(step_pending(s)) < pending_fuel(s),
    decreases s.len(),
{
    let u = s.drop_last();
    let t = s.last();
    assert(!t.ready_now());
    assert(t.countdown > 0);
    let sp = step_pending(u).push(t.stepped());
    assert(sp.drop_last() =~= step_pending(u));
    assert(sp.last() == t.stepped());
    assert(pending_fuel(sp) == pending_fuel(step_pending(u)) + t.stepped().fuel());
    assert(t.stepped().fuel() < t.fuel());
    if u.len() > 0 {
        assert(forall|i: int| 0 <= i < u.len() ==> u[i] == s[i]);
        assert(step_ready(u).len() == 0);
        lemma_scan_strict_fuel(u);
    } else {
        assert(step_pending(u) =~= Seq::<CancellableTask>::empty());
    }
}

/// The state of the waiting-value queue after `k` polls, where
/// `pendings[j]` is whatever the pending members happen to be when the
/// `j`-th poll runs — new tasks may have been pushed freely in
/// between.
pub open spec fn ready_after_polls(
    pendings: Seq<Seq<CancellableTask>>,
    ready: Seq<u64>,
    k: int,
) -> Seq<u64>
    decreases k,
{
    if k <= 0 {
        ready
    } else {
        ready_after_poll(pendings[k - 1], ready_after_polls(pendings, ready, k - 1))
    }
}

/// After `k` polls, the waiting values that were queued behind the
/// first `k` are all still there, in order, at the front of the
/// queue — whatever tasks were pushed in between.
proof fn lemma_queue_prefix(pendings: Seq<Seq<CancellableTask>>, ready: Seq<u64>, k: int)
    requires
        0 <= k <= ready.len(),
        k <= pendings.len(),
    ensures
        ready_after_polls(pendings, ready, k).len() >= ready.len() - k,
        forall|j: int|
            k <= j < ready.len() ==> ready_after_polls(pendings, ready, k)[j - k] == ready[j],
    decreases k,
{
    if k > 0 {
        lemma_queue_prefix(pendings, ready, k - 1);
        let prev = ready_after_polls(pendings, ready, k - 1);
        let q = next_queue(pendings[k - 1], prev);
        assert(prev.len() >= ready.len() - (k - 1));
        assert(prev.len() > 0);
        assert(q.len() > 0);
        assert(ready_after_polls(pendings, ready, k) == q.drop_first());
        assert forall|j: int| k <= j < ready.len() implies ready_after_polls(pendings, ready, k)[j
            - k] == ready[j] by {
            assert(q[j - k + 1] == prev[j - k + 1]);
            assert(prev[j - (k - 1)] == ready[j]);
        }
    }
}

/// No starvation: a value waiting at position `k` of the queue is
/// reported by the `k + 1`-th poll exactly, however many new tasks
/// are pushed into the pool between polls. Reports go oldest-first,
/// so newly pushed or newly completed work can never displace a value
/// that is already waiting.
pub proof fn lemma_pool_no_starvation(
    pendings: Seq<Seq<CancellableTask>>,
    ready: Seq<u64>,
    k: int,
)
    requires
        0 <= k < ready.len(),
        k < pendings.len(),
    ensures
        emitted(pendings[k], ready_after_polls(pendings, ready, k)) == Option::Some(ready[k]),
{
    lemma_queue_prefix(pendings, ready, k);
    let rk = ready_after_polls(pendings, ready, k);
    assert(rk[0] == ready[k]);
    assert(next_queue(pendings[k], rk)[0] == rk[0]);
}

} // verus!
