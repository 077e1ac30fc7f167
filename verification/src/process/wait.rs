//! Queues of threads that wait for a key.
use crate::seqs;
use vstd::prelude::*;

verus! {

/// A waiter: the key it waits for, its thread and its flags.
pub type Waiter = (u64, u64, u32);

/// The threads that wait, first come first. The queue says which threads to wake;
/// parking and waking them is up to the caller.
pub struct WaitQueue {
    pub inner: Vec<Waiter>,
    pub wake_count: usize,
}

/// The first waiter for the key.
pub open spec fn is_first(q: Seq<Waiter>, key: u64, i: int) -> bool {
    &&& 0 <= i < q.len()
    &&& q[i].0 == key
    &&& forall|k: int| 0 <= k < i ==> (#[trigger] q[k]).0 != key
}

/// Somebody waits for the key.
pub open spec fn waits_for(q: Seq<Waiter>, key: u64) -> bool {
    exists|i: int| 0 <= i < q.len() && (#[trigger] q[i]).0 == key
}

pub open spec fn of_key(key: u64) -> spec_fn(Waiter) -> bool {
    |w: Waiter| w.0 == key
}

pub open spec fn not_of_key(key: u64) -> spec_fn(Waiter) -> bool {
    |w: Waiter| w.0 != key
}

pub open spec fn of_flags(flags: u32) -> spec_fn(Waiter) -> bool {
    |w: Waiter| w.2 == flags
}

/// The threads of waiters.
pub open spec fn threads_of(q: Seq<Waiter>) -> Seq<u64> {
    q.map_values(|w: Waiter| w.1)
}

/// The waiters whose flag in `pick` is set, in order.
pub open spec fn flagged(q: Seq<Waiter>, pick: Seq<bool>) -> Seq<Waiter>
    decreases q.len(),
{
    if q.len() == 0 {
        Seq::empty()
    } else {
        let front = flagged(q.drop_last(), pick);
        if q.len() <= pick.len() && pick[q.len() - 1] {
            front.push(q.last())
        } else {
            front
        }
    }
}

/// The waiters stand in order of their flags.
pub open spec fn by_flags(q: Seq<Waiter>) -> bool {
    forall|i: int, j: int| 0 <= i <= j < q.len() ==> (#[trigger] q[i]).2 <= (#[trigger] q[j]).2
}

/// `pick` holds what the test said of each waiter.
pub open spec fn answers<F: Fn(u64, u32) -> bool>(q: Seq<Waiter>, pred: F, pick: Seq<bool>) -> bool {
    &&& pick.len() == q.len()
    &&& forall|i: int|
        0 <= i < q.len() ==> pred.ensures((q[i].0, q[i].2), #[trigger] pick[i])
}

impl View for WaitQueue {
    type V = Seq<Waiter>;

    open spec fn view(&self) -> Seq<Waiter> {
        self.inner@
    }
}

impl WaitQueue {
    pub fn new() -> (r: Self)
        ensures
            r@ == Seq::<Waiter>::empty(),
            r.wake_count == 0,
    {
        Self { inner: Vec::new(), wake_count: 0 }
    }

    /// Enters a thread, which then parks.
    pub fn sleep(&mut self, key: u64, thread: u64, flags: u32)
        ensures
            final(self)@ == old(self)@.push((key, thread, flags)),
            final(self).wake_count == old(self).wake_count,
    {
        self.inner.push((key, thread, flags));
    }

    /// After a thread that was entered by `sleep` has parked for a limited time: all
    /// waiters for its key leave. Says whether there were any, that is, whether
    /// nobody was woken in time.
    pub fn sleep_timeout(&mut self, key: u64) -> (r: bool)
        ensures
            final(self)@ == old(self)@.filter(not_of_key(key)),
            final(self).wake_count == old(self).wake_count,
            r == waits_for(old(self)@, key),
    {
        let (gone, _threads) = self.take_key(key);
        gone > 0
    }

    /// Takes out all waiters for a key; returns how many there were, and their threads.
    fn take_key(&mut self, key: u64) -> (r: (usize, Vec<u64>))
        ensures
            final(self)@ == old(self)@.filter(not_of_key(key)),
            final(self).wake_count == old(self).wake_count,
            r.1@ == threads_of(old(self)@.filter(of_key(key))),
            r.0 == r.1@.len(),
            r.0 > 0 <==> waits_for(old(self)@, key),
    {
        let ghost all = self@;
        let mut kept: Vec<Waiter> = Vec::new();
        let mut threads: Vec<u64> = Vec::new();
        let mut i: usize = 0;
        proof {
            reveal(Seq::filter);
            assert(all.take(0) =~= Seq::<Waiter>::empty());
            assert(threads@ =~= threads_of(all.take(0).filter(of_key(key))));
        }
        while i < self.inner.len()
            invariant
                i <= self.inner@.len(),
                all == self@,
                *self == *old(self),
                kept@ == all.take(i as int).filter(not_of_key(key)),
                threads@ == threads_of(all.take(i as int).filter(of_key(key))),
                threads@.len() > 0 <==> exists|k: int| 0 <= k < i && (#[trigger] all[k]).0 == key,
            decreases self.inner@.len() - i,
        {
            let w: Waiter = self.inner[i];
            proof {
                seqs::lemma_filter_step(all, i as int, not_of_key(key));
                seqs::lemma_filter_step(all, i as int, of_key(key));
                assert(all[i as int] == w);
            }
            if w.0 == key {
                threads.push(w.1);
            } else {
                kept.push(w);
            }
            assert(threads@ =~= threads_of(all.take(i + 1).filter(of_key(key))));
            i = i + 1;
        }
        assert(all.take(i as int) =~= all);
        self.inner = kept;
        (threads.len(), threads)
    }

    /// Takes out the first waiter for a key; returns its thread, which is to be woken.
    pub fn wake_one(&mut self, key: u64) -> (r: Option<u64>)
        ensures
            match r {
                Some(thread) => {
                    &&& final(self).wake_count == old(self).wake_count.wrapping_add(1)
                    &&& exists|i: int|
                        {
                            &&& #[trigger] is_first(old(self)@, key, i)
                            &&& thread == old(self)@[i].1
                            &&& final(self)@ == old(self)@.remove(i)
                        }
                },
                None => !waits_for(old(self)@, key) && *final(self) == *old(self),
            },
    {
        let mut i: usize = 0;
        while i < self.inner.len()
            invariant
                i <= self.inner@.len(),
                *self == *old(self),
                forall|k: int| 0 <= k < i ==> (#[trigger] self@[k]).0 != key,
            decreases self.inner@.len() - i,
        {
            if self.inner[i].0 == key {
                assert(is_first(self@, key, i as int));
                let w: Waiter = self.inner.remove(i);
                self.wake_count = self.wake_count.wrapping_add(1);
                return Some(w.1);
            }
            i = i + 1;
        }
        None
    }

    /// Takes out all waiters for a key; returns their threads, which are to be woken.
    pub fn wake_all(&mut self, key: u64) -> (r: Vec<u64>)
        ensures
            r@ == threads_of(old(self)@.filter(of_key(key))),
            final(self)@ == old(self)@.filter(not_of_key(key)),
            final(self).wake_count == old(self).wake_count.wrapping_add(r@.len() as usize),
    {
        let (count, threads) = self.take_key(key);
        self.wake_count = self.wake_count.wrapping_add(count);
        threads
    }

    /// Takes out the waiters that pass a test; returns their threads, which are to be
    /// woken. Each waiter is tested once, with its key and flags.
    pub fn wake_filtered<F: Fn(u64, u32) -> bool>(&mut self, pred: F) -> (r: Vec<u64>)
        requires
            forall|k: u64, f: u32| pred.requires((k, f)),
        ensures
            final(self).wake_count == old(self).wake_count.wrapping_add(r@.len() as usize),
            exists|pick: Seq<bool>|
                {
                    &&& #[trigger] answers(old(self)@, pred, pick)
                    &&& r@ == threads_of(flagged(old(self)@, pick))
                    &&& final(self)@ == seqs::unflagged(old(self)@, pick)
                },
    {
        let ghost all = self@;
        let mut pick: Vec<bool> = Vec::new();
        let mut i: usize = 0;
        while i < self.inner.len()
            invariant
                i <= self.inner@.len(),
                all == self@,
                *self == *old(self),
                forall|k: u64, f: u32| pred.requires((k, f)),
                pick@.len() == i,
                forall|k: int| 0 <= k < i ==> pred.ensures((all[k].0, all[k].2), #[trigger] pick@[k]),
            decreases self.inner@.len() - i,
        {
            let w: Waiter = self.inner[i];
            let hit: bool = pred(w.0, w.2);
            pick.push(hit);
            i = i + 1;
        }
        let mut kept: Vec<Waiter> = Vec::new();
        let mut threads: Vec<u64> = Vec::new();
        let mut k: usize = 0;
        proof {
            assert(all.take(0) =~= Seq::<Waiter>::empty());
            assert(threads@ =~= threads_of(flagged(all.take(0), pick@)));
        }
        while k < self.inner.len()
            invariant
                k <= self.inner@.len(),
                all == self@,
                *self == *old(self),
                pick@.len() == all.len(),
                kept@ == seqs::unflagged(all.take(k as int), pick@),
                threads@ == threads_of(flagged(all.take(k as int), pick@)),
            decreases self.inner@.len() - k,
        {
            let w: Waiter = self.inner[k];
            proof {
                seqs::lemma_unflagged_step(all, pick@, k as int);
                assert(all.take(k + 1).drop_last() =~= all.take(k as int));
            }
            if pick[k] {
                threads.push(w.1);
            } else {
                kept.push(w);
            }
            assert(threads@ =~= threads_of(flagged(all.take(k + 1), pick@)));
            k = k + 1;
        }
        assert(all.take(k as int) =~= all);
        assert(answers(all, pred, pick@));
        self.inner = kept;
        self.wake_count = self.wake_count.wrapping_add(threads.len());
        threads
    }

    pub fn pending_count(&self) -> (r: usize)
        ensures
            r == self@.len(),
    {
        self.inner.len()
    }

    pub fn total_wakes(&self) -> (r: usize)
        ensures
            r == self.wake_count,
    {
        self.wake_count
    }

    pub fn has_waiters_for(&self, key: u64) -> (r: bool)
        ensures
            r == waits_for(self@, key),
    {
        let mut i: usize = 0;
        while i < self.inner.len()
            invariant
                i <= self.inner@.len(),
                forall|k: int| 0 <= k < i ==> (#[trigger] self@[k]).0 != key,
            decreases self.inner@.len() - i,
        {
            if self.inner[i].0 == key {
                assert(self@[i as int].0 == key);
                return true;
            }
            i = i + 1;
        }
        false
    }

    /// Brings the waiters in order of their flags; those with the same flags keep
    /// their order.
    pub fn reorder_by_priority(&mut self)
        ensures
            by_flags(final(self)@),
            final(self)@.len() == old(self)@.len(),
            forall|f: u32| #[trigger]
                final(self)@.filter(of_flags(f)) == old(self)@.filter(of_flags(f)),
            final(self).wake_count == old(self).wake_count,
    {
        let ghost all = self@;
        let mut out: Vec<Waiter> = Vec::new();
        let mut i: usize = 0;
        assert(all.take(0) =~= out@);
        while i < self.inner.len()
            invariant
                i <= self.inner@.len(),
                all == self@,
                *self == *old(self),
                out@.len() == i,
                by_flags(out@),
                forall|f: u32| #[trigger]
                    out@.filter(of_flags(f)) == all.take(i as int).filter(of_flags(f)),
            decreases self.inner@.len() - i,
        {
            let w: Waiter = self.inner[i];
            let mut at: usize = out.len();
            while at > 0 && out[at - 1].2 > w.2
                invariant
                    at <= out@.len(),
                    forall|k: int| at <= k < out@.len() ==> (#[trigger] out@[k]).2 > w.2,
                decreases at,
            {
                at = at - 1;
            }
            let ghost before = out@;
            out.insert(at, w);
            proof {
                lemma_inserted(before, w, at as int);
                assert forall|f: u32| #[trigger] out@.filter(of_flags(f)) == all.take(
                    i + 1,
                ).filter(of_flags(f)) by {
                    seqs::lemma_filter_step(all, i as int, of_flags(f));
                    lemma_filter_inserted(before, w, at as int, f);
                    assert(before.filter(of_flags(f)) == all.take(i as int).filter(of_flags(f)));
                }
            }
            i = i + 1;
        }
        assert(all.take(i as int) =~= all);
        self.inner = out;
    }
}

proof fn lemma_inserted(q: Seq<Waiter>, w: Waiter, at: int)
    requires
        by_flags(q),
        0 <= at <= q.len(),
        at > 0 ==> q[at - 1].2 <= w.2,
        forall|k: int| at <= k < q.len() ==> (#[trigger] q[k]).2 > w.2,
    ensures
        by_flags(q.insert(at, w)),
{
    let s = q.insert(at, w);
    assert forall|a: int, b: int| 0 <= a <= b < s.len() implies (#[trigger] s[a]).2 <= (
    #[trigger] s[b]).2 by {
        let oa = if a < at {
            a
        } else {
            a - 1
        };
        let ob = if b < at {
            b
        } else {
            b - 1
        };
        if a < at && b == at {
            assert(q[a].2 <= q[at - 1].2);
        } else if a == at && b > at {
            assert(s[b] == q[ob]);
        } else if a != at && b != at {
            assert(s[a] == q[oa] && s[b] == q[ob]);
        }
    }
}

proof fn lemma_none_pass(q: Seq<Waiter>, p: spec_fn(Waiter) -> bool)
    requires
        forall|k: int| 0 <= k < q.len() ==> !p(#[trigger] q[k]),
    ensures
        q.filter(p) == Seq::<Waiter>::empty(),
    decreases q.len(),
{
    reveal(Seq::filter);
    if q.len() > 0 {
        lemma_none_pass(q.drop_last(), p);
    }
    assert(q.filter(p) =~= Seq::<Waiter>::empty());
}

proof fn lemma_filter_inserted(q: Seq<Waiter>, w: Waiter, at: int, f: u32)
    requires
        0 <= at <= q.len(),
        forall|k: int| at <= k < q.len() ==> (#[trigger] q[k]).2 > w.2,
    ensures
        q.insert(at, w).filter(of_flags(f)) == if w.2 == f {
            q.filter(of_flags(f)).push(w)
        } else {
            q.filter(of_flags(f))
        },
{
    let p = of_flags(f);
    let a = q.take(at);
    let b = q.skip(at);
    let one = seq![w];
    assert(q =~= a + b);
    assert(q.insert(at, w) =~= a + one + b);
    Seq::filter_distributes_over_add(a, b, p);
    Seq::filter_distributes_over_add(a, one, p);
    Seq::filter_distributes_over_add(a + one, b, p);
    if w.2 == f {
        lemma_none_pass(b, p);
        assert(one.filter(p) =~= one) by {
            reveal(Seq::filter);
            assert(one.drop_last() =~= Seq::<Waiter>::empty());
        }
        assert(a.filter(p) + one + b.filter(p) =~= (a.filter(p) + b.filter(p)).push(w));
    } else {
        lemma_none_pass(one, p);
        assert(a.filter(p) + one.filter(p) + b.filter(p) =~= a.filter(p) + b.filter(p));
    }
}

/// Whoever waits for a key is woken by `wake_all`, and nobody else is: the waiters
/// that are left, and the threads that are woken, are together all there were.
pub proof fn lemma_wake_all_takes_all(q: Seq<Waiter>, key: u64)
    ensures
        !waits_for(q.filter(not_of_key(key)), key),
        q.filter(not_of_key(key)).len() + threads_of(q.filter(of_key(key))).len() == q.len(),
    decreases q.len(),
{
    broadcast use vstd::seq_lib::group_filter_ensures;

    reveal(Seq::filter);
    let left = q.filter(not_of_key(key));
    assert forall|i: int| 0 <= i < left.len() implies (#[trigger] left[i]).0 != key by {
        assert(not_of_key(key)(left[i]));
    }
    if q.len() > 0 {
        lemma_wake_all_takes_all(q.drop_last(), key);
    }
}

/// Waking a key wakes every waiter of the key, and leaves every other one waiting.
pub proof fn lemma_wake_all_by_key(q: Seq<Waiter>, key: u64, i: int)
    requires
        0 <= i < q.len(),
    ensures
        q[i].0 == key ==> threads_of(q.filter(of_key(key))).contains(q[i].1),
        q[i].0 != key ==> q.filter(not_of_key(key)).contains(q[i]),
        q[i].0 != key ==> !q.filter(of_key(key)).contains(q[i]),
    decreases q.len(),
{
    reveal(Seq::filter);
    let front = q.drop_last();
    let a = q.filter(of_key(key));
    let b = q.filter(not_of_key(key));
    let fa = front.filter(of_key(key));
    let fb = front.filter(not_of_key(key));
    if i < front.len() {
        lemma_wake_all_by_key(front, key, i);
        assert(front[i] == q[i]);
        if q[i].0 == key {
            let t = threads_of(fa);
            let k = choose|k: int| 0 <= k < t.len() && t[k] == q[i].1;
            assert(a[k] == fa[k]);
            assert(threads_of(a)[k] == q[i].1);
        } else {
            let k = choose|k: int| 0 <= k < fb.len() && fb[k] == q[i];
            assert(b[k] == q[i]);
        }
    } else {
        if q[i].0 == key {
            assert(a[fa.len() as int] == q[i]);
            assert(threads_of(a)[fa.len() as int] == q[i].1);
        } else {
            assert(b[fb.len() as int] == q[i]);
        }
    }
    if q[i].0 != key && a.contains(q[i]) {
        lemma_filter_holds(q, of_key(key), q[i]);
    }
}

proof fn lemma_filter_holds(q: Seq<Waiter>, f: spec_fn(Waiter) -> bool, w: Waiter)
    requires
        q.filter(f).contains(w),
    ensures
        f(w),
    decreases q.len(),
{
    reveal(Seq::filter);
    let r = q.filter(f);
    let k = choose|k: int| 0 <= k < r.len() && r[k] == w;
    if q.len() > 0 {
        let front = q.drop_last().filter(f);
        if k < front.len() {
            assert(front[k] == w);
            lemma_filter_holds(q.drop_last(), f, w);
        }
    }
}

/// Of the waiters exactly those are woken for whom the test said so.
pub proof fn lemma_flagged_are_picked(q: Seq<Waiter>, pick: Seq<bool>, i: int)
    requires
        pick.len() == q.len(),
        0 <= i < q.len(),
        pick[i],
    ensures
        flagged(q, pick).contains(q[i]),
{
    lemma_flagged_prefix(q, pick, i);
}

proof fn lemma_flagged_prefix(q: Seq<Waiter>, pick: Seq<bool>, i: int)
    requires
        q.len() <= pick.len(),
        0 <= i < q.len(),
        pick[i],
    ensures
        flagged(q, pick).contains(q[i]),
    decreases q.len(),
{
    let front = q.drop_last();
    let f = flagged(front, pick);
    let r = flagged(q, pick);
    if i < front.len() {
        lemma_flagged_prefix(front, pick, i);
        let k = choose|k: int| 0 <= k < f.len() && f[k] == front[i];
        assert(r[k] == q[i]);
    } else {
        assert(r[f.len() as int] == q[i]);
    }
}

/// As many are woken as were picked; one that was not picked is not woken for that.
pub proof fn lemma_flagged_count(q: Seq<Waiter>, pick: Seq<bool>, w: Waiter, yes: bool)
    requires
        pick.len() == q.len(),
    ensures
        flagged(q.push(w), pick.push(yes)) == if yes {
            flagged(q, pick).push(w)
        } else {
            flagged(q, pick)
        },
{
    assert(q.push(w).drop_last() =~= q);
    lemma_flagged_ignores(q, pick, pick.push(yes));
}

proof fn lemma_flagged_ignores(q: Seq<Waiter>, a: Seq<bool>, b: Seq<bool>)
    requires
        q.len() <= a.len(),
        q.len() <= b.len(),
        forall|i: int| 0 <= i < q.len() ==> a[i] == b[i],
    ensures
        flagged(q, a) == flagged(q, b),
    decreases q.len(),
{
    if q.len() > 0 {
        lemma_flagged_ignores(q.drop_last(), a, b);
        assert(a[q.len() - 1] == b[q.len() - 1]);
    }
}

} // verus!
