//! Scheduling policies and the run queue.
use crate::consts::{PRIO_DEFAULT, SCHED_NORMAL};
use crate::seqs;
use vstd::prelude::*;

verus! {

/// How a task is scheduled. Lower priorities and nice values go first.
#[derive(Clone, Copy, Debug, PartialEq, Eq, Structural)]
pub struct SchedulePolicy {
    pub policy: u8,
    pub prio: i32,
    pub nice: i32,
    pub time_slice: usize,
    /// The run time so far, scaled by the weight.
    pub vruntime: u64,
    /// When the run time was last brought up to date.
    pub last_tick: u64,
}

/// The share of a nice value.
pub open spec fn weight_of(nice: i32) -> u64 {
    if nice < -10 {
        88761
    } else if nice < 0 {
        29154
    } else if nice == 0 {
        1024
    } else if nice < 10 {
        335
    } else {
        110
    }
}

/// The run time in units of the weight, read as a signed number and rounded
/// towards zero.
pub open spec fn run_units(p: SchedulePolicy) -> int {
    if p.vruntime <= i64::MAX {
        p.vruntime as int / weight_of(p.nice) as int
    } else {
        -((0x1_0000_0000_0000_0000 - p.vruntime) / weight_of(p.nice) as int)
    }
}

/// What the queue is ordered by: the lowest goes first.
pub open spec fn score_of(p: SchedulePolicy) -> int {
    p.prio * 100 + p.nice * 10 + run_units(p)
}

/// The policy of a task that asks for a priority.
pub open spec fn prio_policy(prio: i32) -> SchedulePolicy {
    SchedulePolicy {
        policy: SCHED_NORMAL,
        prio,
        nice: prio,
        time_slice: (20 - prio) as usize,
        vruntime: 0,
        last_tick: 0,
    }
}

impl SchedulePolicy {
    pub fn new() -> (r: Self)
        ensures
            r == (SchedulePolicy {
                policy: SCHED_NORMAL,
                prio: PRIO_DEFAULT,
                nice: 0,
                time_slice: 10,
                vruntime: 0,
                last_tick: 0,
            }),
    {
        Self {
            policy: SCHED_NORMAL,
            prio: PRIO_DEFAULT,
            nice: 0,
            time_slice: 10,
            vruntime: 0,
            last_tick: 0,
        }
    }

    /// A policy for a priority from 0 to 20; lower ones get longer time slices.
    pub fn with_prio(prio: i32) -> (r: Self)
        requires
            0 <= prio <= 20,
        ensures
            r == prio_policy(prio),
    {
        Self {
            policy: SCHED_NORMAL,
            prio,
            nice: prio,
            time_slice: 20 - prio as usize,
            vruntime: 0,
            last_tick: 0,
        }
    }

    pub fn weight(&self) -> (r: u64)
        ensures
            r == weight_of(self.nice),
    {
        if self.nice < -10 {
            88761
        } else if self.nice < 0 {
            29154
        } else if self.nice == 0 {
            1024
        } else if self.nice < 10 {
            335
        } else {
            110
        }
    }

    fn score(&self) -> (r: i64)
        ensures
            r == score_of(*self),
    {
        let w = self.weight();
        let units: i64 = if self.vruntime <= 0x7FFF_FFFF_FFFF_FFFF {
            (self.vruntime / w) as i64
        } else {
            let below: u64 = (u64::MAX - self.vruntime) + 1;
            -((below / w) as i64)
        };
        self.prio as i64 * 100 + self.nice as i64 * 10 + units
    }
}

/// A greater nice value never gives a greater weight.
pub proof fn lemma_weight_falls_with_nice(a: i32, b: i32)
    requires
        a <= b,
    ensures
        weight_of(b) <= weight_of(a),
        weight_of(b) > 0,
{
}

/// At the same priority and run time, a task that waits with a greater nice value
/// from 0 on goes after one with a smaller.
pub proof fn lemma_nice_goes_later(a: SchedulePolicy, b: SchedulePolicy)
    requires
        a.prio == b.prio,
        a.vruntime == 0,
        b.vruntime == 0,
        a.nice < b.nice,
    ensures
        score_of(a) < score_of(b),
{
}

pub type Entry = (u64, SchedulePolicy);

/// Running for the same time does not bring a nicer task in front.
pub proof fn lemma_nice_stays_behind(a: SchedulePolicy, b: SchedulePolicy, delta: u64, now: u64)
    requires
        a.prio == b.prio,
        a.vruntime == 0,
        b.vruntime == 0,
        a.nice < b.nice,
        delta * 1024 <= i64::MAX,
    ensures
        score_of(ran(a, delta, now)) < score_of(ran(b, delta, now)),
{
    lemma_weight_falls_with_nice(a.nice, b.nice);
    let wa = weight_of(a.nice) as int;
    let wb = weight_of(b.nice) as int;
    let x = delta * 1024;
    vstd::arithmetic::div_mod::lemma_div_is_ordered_by_denominator(x, wb, wa);
    assert(0 <= x / wa <= x / wb <= x) by (nonlinear_arith)
        requires
            0 <= x,
            1 <= wb <= wa,
            x / wa <= x / wb,
    ;
    vstd::arithmetic::div_mod::lemma_div_is_ordered(x / wa, x / wb, wa);
    vstd::arithmetic::div_mod::lemma_div_is_ordered_by_denominator(x / wb, wb, wa);
    assert(ran(a, delta, now).vruntime == x / wa);
    assert(ran(b, delta, now).vruntime == x / wb);
}

/// The entries are in order of their scores.
pub open spec fn in_order(q: Seq<Entry>) -> bool {
    forall|i: int, j: int|
        0 <= i <= j < q.len() ==> score_of((#[trigger] q[i]).1) <= score_of((#[trigger] q[j]).1)
}

/// The entry at `i` is the first with the lowest score.
pub open spec fn is_best(q: Seq<Entry>, i: int) -> bool {
    &&& 0 <= i < q.len()
    &&& forall|k: int| 0 <= k < q.len() ==> score_of(q[i].1) <= score_of((#[trigger] q[k]).1)
    &&& forall|k: int| 0 <= k < i ==> score_of(q[i].1) < score_of((#[trigger] q[k]).1)
}

/// No entry that is as nice and has run as long has a lower priority number than the
/// one at `i`; none of the same priority that has not run either is less nice; and of
/// the same priority and niceness none has run a share less.
pub open spec fn goes_first(q: Seq<Entry>, i: int) -> bool {
    forall|k: int|
        0 <= k < q.len() ==> {
            let a = q[i].1;
            let b = (#[trigger] q[k]).1;
            &&& a.nice == b.nice && a.vruntime == b.vruntime ==> a.prio <= b.prio
            &&& a.prio == b.prio && a.vruntime == 0 && b.vruntime == 0 ==> a.nice <= b.nice
            &&& a.prio == b.prio && a.nice == b.nice && a.vruntime <= i64::MAX && b.vruntime
                + weight_of(b.nice) <= i64::MAX ==> a.vruntime < b.vruntime + weight_of(b.nice)
        }
}

/// The entry at `i` is the first with this id.
pub open spec fn first_of(q: Seq<Entry>, id: u64, i: int) -> bool {
    &&& 0 <= i < q.len()
    &&& q[i].0 == id
    &&& forall|k: int| 0 <= k < i ==> (#[trigger] q[k]).0 != id
}

pub open spec fn has_id(q: Seq<Entry>, id: u64) -> bool {
    exists|i: int| 0 <= i < q.len() && (#[trigger] q[i]).0 == id
}

/// No id occurs twice.
pub open spec fn ids_unique(q: Seq<Entry>) -> bool {
    forall|i: int, j: int|
        0 <= i < j < q.len() ==> (#[trigger] q[i]).0 != (#[trigger] q[j]).0
}

/// The queue with the policy of an id replaced, or added at the end.
pub open spec fn with_policy(q: Seq<Entry>, id: u64, p: SchedulePolicy) -> Seq<Entry>
    decreases q.len(),
{
    if q.len() == 0 {
        seq![(id, p)]
    } else if q[0].0 == id {
        q.update(0, (id, p))
    } else {
        seq![q[0]] + with_policy(q.skip(1), id, p)
    }
}

/// The queue with a change made to the policy of an id, if it is there.
pub open spec fn changed_at(q: Seq<Entry>, id: u64, f: spec_fn(SchedulePolicy) -> SchedulePolicy) -> Seq<
    Entry,
>
    decreases q.len(),
{
    if q.len() == 0 {
        q
    } else if q[0].0 == id {
        q.update(0, (id, f(q[0].1)))
    } else {
        seq![q[0]] + changed_at(q.skip(1), id, f)
    }
}

/// A policy after `delta` more ticks of run time.
pub open spec fn ran(p: SchedulePolicy, delta: u64, now: u64) -> SchedulePolicy {
    SchedulePolicy {
        vruntime: p.vruntime.wrapping_add(
            ((delta * 1024) / weight_of(p.nice) as int) as u64,
        ),
        last_tick: now,
        ..p
    }
}

pub open spec fn ran_fn(delta: u64, now: u64) -> spec_fn(SchedulePolicy) -> SchedulePolicy {
    |p: SchedulePolicy| ran(p, delta, now)
}

/// The ticks since a policy was brought up to date.
pub open spec fn since(p: SchedulePolicy, now: u64) -> u64 {
    if now >= p.last_tick {
        (now - p.last_tick) as u64
    } else {
        0
    }
}

/// The queue after the first `n` entries of `q0` have been brought up to date, each
/// by its id and by the ticks that it had missed.
pub open spec fn caught_up(q0: Seq<Entry>, now: u64, n: nat) -> Seq<Entry>
    decreases n,
{
    if n == 0 {
        q0
    } else {
        let e = q0[n - 1];
        changed_at(caught_up(q0, now, (n - 1) as nat), e.0, ran_fn(since(e.1, now), now))
    }
}

pub open spec fn boosted(amount: i32) -> spec_fn(SchedulePolicy) -> SchedulePolicy {
    |p: SchedulePolicy|
        SchedulePolicy {
            prio: (if p.prio - amount < -20 {
                -20
            } else {
                p.prio - amount
            }) as i32,
            ..p
        }
}

proof fn lemma_changed_at(
    q: Seq<Entry>,
    id: u64,
    f: spec_fn(SchedulePolicy) -> SchedulePolicy,
    i: int,
)
    requires
        first_of(q, id, i),
    ensures
        changed_at(q, id, f) == q.update(i, (id, f(q[i].1))),
    decreases q.len(),
{
    if i > 0 {
        let t = q.skip(1);
        assert(q[0].0 != id);
        assert forall|k: int| 0 <= k < i - 1 implies (#[trigger] t[k]).0 != id by {
            assert(t[k] == q[k + 1]);
        }
        lemma_changed_at(t, id, f, i - 1);
        assert(q.update(i, (id, f(q[i].1))) =~= seq![q[0]] + t.update(i - 1, (id, f(q[i].1))));
    }
}

proof fn lemma_not_changed(q: Seq<Entry>, id: u64, f: spec_fn(SchedulePolicy) -> SchedulePolicy)
    requires
        !has_id(q, id),
    ensures
        changed_at(q, id, f) == q,
    decreases q.len(),
{
    if q.len() > 0 {
        let t = q.skip(1);
        assert(q[0].0 != id);
        assert forall|k: int| 0 <= k < t.len() implies (#[trigger] t[k]).0 != id by {
            assert(t[k] == q[k + 1]);
        }
        lemma_not_changed(t, id, f);
        assert(q =~= seq![q[0]] + t);
    }
}

proof fn lemma_with_policy(q: Seq<Entry>, id: u64, p: SchedulePolicy, i: int)
    requires
        first_of(q, id, i),
    ensures
        with_policy(q, id, p) == q.update(i, (id, p)),
    decreases q.len(),
{
    if i > 0 {
        let t = q.skip(1);
        assert(q[0].0 != id);
        assert forall|k: int| 0 <= k < i - 1 implies (#[trigger] t[k]).0 != id by {
            assert(t[k] == q[k + 1]);
        }
        lemma_with_policy(t, id, p, i - 1);
        assert(q.update(i, (id, p)) =~= seq![q[0]] + t.update(i - 1, (id, p)));
    }
}

proof fn lemma_policy_added(q: Seq<Entry>, id: u64, p: SchedulePolicy)
    requires
        !has_id(q, id),
    ensures
        with_policy(q, id, p) == q.push((id, p)),
    decreases q.len(),
{
    if q.len() > 0 {
        let t = q.skip(1);
        assert(q[0].0 != id);
        assert forall|k: int| 0 <= k < t.len() implies (#[trigger] t[k]).0 != id by {
            assert(t[k] == q[k + 1]);
        }
        lemma_policy_added(t, id, p);
        assert(q.push((id, p)) =~= seq![q[0]] + t.push((id, p)));
    } else {
        assert(q.push((id, p)) =~= seq![(id, p)]);
    }
}

/// The tasks that wait to run, and the one that runs.
pub struct RunQueue {
    pub queue: Vec<Entry>,
    pub current: Option<Entry>,
    pub preempt_count: usize,
}

impl View for RunQueue {
    type V = Seq<Entry>;

    open spec fn view(&self) -> Seq<Entry> {
        self.queue@
    }
}

fn position_of(q: &Vec<Entry>, id: u64) -> (r: Option<usize>)
    ensures
        match r {
            Some(i) => first_of(q@, id, i as int),
            None => !has_id(q@, id),
        },
{
    let mut i: usize = 0;
    while i < q.len()
        invariant
            i <= q@.len(),
            forall|k: int| 0 <= k < i ==> (#[trigger] q@[k]).0 != id,
        decreases q@.len() - i,
    {
        if q[i].0 == id {
            return Some(i);
        }
        i = i + 1;
    }
    None
}

/// Brings the entries in order of their scores.
fn sort_entries(q: &mut Vec<Entry>)
    ensures
        in_order(final(q)@),
        final(q)@.to_multiset() == old(q)@.to_multiset(),
{
    let ghost all = q@;
    let mut out: Vec<Entry> = Vec::new();
    let mut i: usize = 0;
    assert(all.take(0) =~= out@);
    while i < q.len()
        invariant
            i <= q@.len(),
            q@ == all,
            in_order(out@),
            out@.to_multiset() == all.take(i as int).to_multiset(),
        decreases q@.len() - i,
    {
        let e: Entry = q[i];
        let s = e.1.score();
        let mut at: usize = out.len();
        while at > 0 && out[at - 1].1.score() > s
            invariant
                at <= out@.len(),
                s == score_of(e.1),
                forall|k: int| at <= k < out@.len() ==> score_of((#[trigger] out@[k]).1) > s,
            decreases at,
        {
            at = at - 1;
        }
        let ghost before = out@;
        out.insert(at, e);
        proof {
            broadcast use vstd::seq_lib::group_to_multiset_ensures;

            assert(all.take(i + 1) =~= all.take(i as int).push(e));
            assert(out@ == before.insert(at as int, e));
            assert forall|a: int, b: int| 0 <= a <= b < out@.len() implies score_of(
                (#[trigger] out@[a]).1,
            ) <= score_of((#[trigger] out@[b]).1) by {
                let oa = if a < at {
                    a
                } else {
                    a - 1
                };
                let ob = if b < at {
                    b
                } else {
                    b - 1
                };
                if a < at && b > at {
                    assert(out@[a] == before[oa] && out@[b] == before[ob]);
                } else if a < at && b == at {
                    assert(out@[a] == before[a]);
                    assert(score_of(before[a].1) <= score_of(before[at - 1].1));
                } else if a == at && b > at {
                    assert(out@[b] == before[ob]);
                } else if a != at && b != at {
                    assert(out@[a] == before[oa] && out@[b] == before[ob]);
                }
            }
        }
        i = i + 1;
    }
    assert(all.take(i as int) =~= all);
    std::mem::swap(q, &mut out);
}

fn best_of(q: &Vec<Entry>) -> (r: usize)
    requires
        q@.len() > 0,
    ensures
        is_best(q@, r as int),
{
    let mut best: usize = 0;
    let mut best_score: i64 = q[0].1.score();
    let mut i: usize = 1;
    while i < q.len()
        invariant
            1 <= i <= q@.len(),
            best < i,
            best_score == score_of(q@[best as int].1),
            forall|k: int| 0 <= k < i ==> best_score <= score_of((#[trigger] q@[k]).1),
            forall|k: int| 0 <= k < best ==> best_score < score_of((#[trigger] q@[k]).1),
        decreases q@.len() - i,
    {
        let s = q[i].1.score();
        if s < best_score {
            best = i;
            best_score = s;
        }
        i = i + 1;
    }
    best
}

fn run_for(q: &mut Vec<Entry>, task_id: u64, delta: u64, now: u64)
    requires
        has_id(old(q)@, task_id) ==> delta * 1024 <= u64::MAX,
    ensures
        final(q)@ == changed_at(old(q)@, task_id, ran_fn(delta, now)),
{
    let ghost f = ran_fn(delta, now);
    match position_of(q, task_id) {
        Some(i) => {
            proof {
                assert(q@[i as int].0 == task_id);
                lemma_changed_at(q@, task_id, f, i as int);
            }
            let mut p: SchedulePolicy = q[i].1;
            let w = p.weight();
            let scaled: u64 = (delta * 1024) / w;
            p.vruntime = p.vruntime.wrapping_add(scaled);
            p.last_tick = now;
            q.set(i, (task_id, p));
        },
        None => {
            proof {
                lemma_not_changed(q@, task_id, f);
            }
        },
    }
}

impl RunQueue {
    pub fn new() -> (r: Self)
        ensures
            r@ == Seq::<Entry>::empty(),
            r.current is None,
            r.preempt_count == 0,
    {
        Self { queue: Vec::new(), current: None, preempt_count: 0 }
    }

    /// Enters a task, or replaces its policy if it is there, and brings the queue in
    /// order. Entries with equal scores may change places.
    pub fn enqueue(&mut self, task_id: u64, policy: SchedulePolicy)
        ensures
            in_order(final(self)@),
            final(self)@.to_multiset() == with_policy(old(self)@, task_id, policy).to_multiset(),
            final(self).current == old(self).current,
            final(self).preempt_count == old(self).preempt_count,
    {
        match position_of(&self.queue, task_id) {
            Some(i) => {
                proof {
                    lemma_with_policy(self@, task_id, policy, i as int);
                }
                self.queue.set(i, (task_id, policy));
            },
            None => {
                proof {
                    lemma_policy_added(self@, task_id, policy);
                }
                self.queue.push((task_id, policy));
            },
        }
        sort_entries(&mut self.queue);
    }

    /// Takes the first entry with the lowest score.
    pub fn dequeue(&mut self) -> (r: Option<Entry>)
        ensures
            final(self).current == old(self).current,
            final(self).preempt_count == old(self).preempt_count,
            r is None <==> old(self)@.len() == 0,
            r is None ==> final(self)@ == old(self)@,
            forall|i: int| #[trigger]
                is_best(old(self)@, i) ==> r == Some(old(self)@[i]) && final(self)@ == old(self)@.remove(i),
            r is Some ==> exists|i: int| is_best(old(self)@, i),
            r matches Some(e) ==> exists|i: int|
                0 <= i < old(self)@.len() && #[trigger] old(self)@[i] == e && goes_first(
                    old(self)@,
                    i,
                ),
    {
        if self.queue.len() == 0 {
            return None;
        }
        let best_idx = best_of(&self.queue);
        proof {
            assert forall|i: int| #[trigger] is_best(self@, i) implies i == best_idx by {
                lemma_best_unique(self@, i, best_idx as int);
            }
            lemma_best_goes_first(self@, best_idx as int);
        }
        Some(self.queue.remove(best_idx))
    }

    /// The id of the first entry with the lowest score.
    pub fn pick_next(&self) -> (r: Option<u64>)
        ensures
            r is None <==> self@.len() == 0,
            forall|i: int| #[trigger] is_best(self@, i) ==> r == Some(self@[i].0),
            r is Some ==> exists|i: int| is_best(self@, i),
            r matches Some(id) ==> exists|i: int|
                0 <= i < self@.len() && (#[trigger] self@[i]).0 == id && goes_first(self@, i),
    {
        if self.queue.len() == 0 {
            return None;
        }
        let best_idx = best_of(&self.queue);
        proof {
            assert forall|i: int| #[trigger] is_best(self@, i) implies i == best_idx by {
                lemma_best_unique(self@, i, best_idx as int);
            }
            lemma_best_goes_first(self@, best_idx as int);
        }
        Some(self.queue[best_idx].0)
    }

    /// Brings the run time of every task up to date, and the queue in order.
    pub fn rebalance(&mut self, now: u64)
        requires
            forall|i: int|
                0 <= i < old(self)@.len() ==> since((#[trigger] old(self)@[i]).1, now) * 1024
                    <= u64::MAX,
        ensures
            in_order(final(self)@),
            final(self)@.to_multiset() == caught_up(
                old(self)@,
                now,
                old(self)@.len(),
            ).to_multiset(),
            final(self).current == old(self).current,
            final(self).preempt_count == old(self).preempt_count,
    {
        let ghost q0 = self@;
        let mut deltas: Vec<(u64, u64)> = Vec::new();
        let mut i: usize = 0;
        while i < self.queue.len()
            invariant
                i <= q0.len(),
                self@ == q0,
                *self == *old(self),
                deltas@.len() == i,
                forall|k: int|
                    0 <= k < i ==> #[trigger] deltas@[k] == (q0[k].0, since(q0[k].1, now)),
            decreases q0.len() - i,
        {
            let (id, p) = self.queue[i];
            deltas.push((id, now.saturating_sub(p.last_tick)));
            i = i + 1;
        }
        let mut k: usize = 0;
        while k < deltas.len()
            invariant
                k <= deltas@.len() == q0.len(),
                q0 == old(self)@,
                self.current == old(self).current,
                self.preempt_count == old(self).preempt_count,
                self@ == caught_up(q0, now, k as nat),
                forall|k: int|
                    0 <= k < q0.len() ==> #[trigger] deltas@[k] == (q0[k].0, since(q0[k].1, now)),
                forall|i: int|
                    0 <= i < q0.len() ==> since((#[trigger] q0[i]).1, now) * 1024 <= u64::MAX,
            decreases q0.len() - k,
        {
            let (id, delta) = deltas[k];
            assert(q0[k as int].0 == id);
            run_for(&mut self.queue, id, delta, now);
            k = k + 1;
        }
        sort_entries(&mut self.queue);
    }

    pub fn set_current(&mut self, id: u64, policy: SchedulePolicy)
        ensures
            *final(self) == (RunQueue { current: Some((id, policy)), ..*old(self) }),
    {
        self.current = Some((id, policy));
    }

    pub fn clear_current(&mut self)
        ensures
            *final(self) == (RunQueue { current: None, ..*old(self) }),
    {
        self.current = None;
    }

    pub fn len(&self) -> (r: usize)
        ensures
            r == self@.len(),
    {
        self.queue.len()
    }

    /// Removes every entry of a task; says whether there was one.
    pub fn remove(&mut self, task_id: u64) -> (r: bool)
        ensures
            final(self)@ == old(self)@.filter(|e: Entry| e.0 != task_id),
            r == has_id(old(self)@, task_id),
            final(self).current == old(self).current,
            final(self).preempt_count == old(self).preempt_count,
    {
        let ghost q0 = self@;
        let ghost keep = |e: Entry| e.0 != task_id;
        let mut found = false;
        let mut seen: usize = 0;
        let mut i: usize = 0;
        let total = self.queue.len();
        proof {
            reveal(Seq::filter);
            assert(q0.take(0) =~= Seq::<Entry>::empty());
            assert(self@ =~= q0.take(0).filter(keep) + q0.skip(0));
        }
        while seen < total
            invariant
                seen <= total == q0.len(),
                keep == (|e: Entry| e.0 != task_id),
                i == q0.take(seen as int).filter(keep).len(),
                self@ == q0.take(seen as int).filter(keep) + q0.skip(seen as int),
                found == exists|k: int| 0 <= k < seen && (#[trigger] q0[k]).0 == task_id,
                self.current == old(self).current,
                self.preempt_count == old(self).preempt_count,
            decreases total - seen,
        {
            proof {
                seqs::lemma_filter_step(q0, seen as int, keep);
                assert(self@[i as int] == q0[seen as int]);
            }
            let ghost kept = q0.take(seen as int).filter(keep);
            if self.queue[i].0 == task_id {
                let _gone = self.queue.remove(i);
                found = true;
                assert(self@ =~= kept + q0.skip(seen + 1));
            } else {
                i = i + 1;
                assert(self@ =~= kept.push(q0[seen as int]) + q0.skip(seen + 1));
            }
            seen = seen + 1;
        }
        assert(q0.take(seen as int) =~= q0);
        assert(self@ =~= q0.filter(keep));
        found
    }

    /// Adds run time to a task.
    pub fn update_vruntime(&mut self, task_id: u64, delta: u64, now: u64)
        requires
            has_id(old(self)@, task_id) ==> delta * 1024 <= u64::MAX,
        ensures
            final(self)@ == changed_at(old(self)@, task_id, ran_fn(delta, now)),
            final(self).current == old(self).current,
            final(self).preempt_count == old(self).preempt_count,
    {
        run_for(&mut self.queue, task_id, delta, now);
    }

    pub fn preempt_disable(&mut self)
        ensures
            *final(self) == (RunQueue {
                preempt_count: old(self).preempt_count.wrapping_add(1),
                ..*old(self)
            }),
    {
        self.preempt_count = self.preempt_count.wrapping_add(1);
    }

    /// Takes back one disabling; says whether that was the last and a task waits.
    pub fn preempt_enable(&mut self) -> (r: bool)
        ensures
            *final(self) == (RunQueue {
                preempt_count: old(self).preempt_count.wrapping_sub(1),
                ..*old(self)
            }),
            r == (old(self).preempt_count == 1 && old(self)@.len() > 0),
    {
        let prev = self.preempt_count;
        self.preempt_count = prev.wrapping_sub(1);
        if prev == 1 {
            self.queue.len() > 0
        } else {
            false
        }
    }

    pub fn preemptible(&self) -> (r: bool)
        ensures
            r == (self.preempt_count == 0),
    {
        self.preempt_count == 0
    }

    /// Lowers the priority number of a task, but not below -20. The queue is not
    /// brought in order.
    pub fn boost_priority(&mut self, task_id: u64, amount: i32)
        requires
            forall|i: int|
                0 <= i < old(self)@.len() && (#[trigger] old(self)@[i]).0 == task_id ==> i32::MIN
                    <= old(self)@[i].1.prio - amount <= i32::MAX,
        ensures
            final(self)@ == changed_at(old(self)@, task_id, boosted(amount)),
            final(self).current == old(self).current,
            final(self).preempt_count == old(self).preempt_count,
    {
        match position_of(&self.queue, task_id) {
            Some(i) => {
                proof {
                    assert(self@[i as int].0 == task_id);
                    lemma_changed_at(self@, task_id, boosted(amount), i as int);
                }
                let mut p: SchedulePolicy = self.queue[i].1;
                let raised: i32 = p.prio - amount;
                p.prio = if raised < -20 {
                    -20
                } else {
                    raised
                };
                self.queue.set(i, (task_id, p));
            },
            None => {
                proof {
                    lemma_not_changed(self@, task_id, boosted(amount));
                }
            },
        }
    }

    /// Puts the running task back in the queue, with its policy; says whether there
    /// was one.
    pub fn yield_current(&mut self) -> (r: bool)
        ensures
            final(self).current is None,
            final(self).preempt_count == old(self).preempt_count,
            r == (old(self).current is Some),
            match old(self).current {
                Some((id, policy)) => in_order(final(self)@) && final(self)@.to_multiset()
                    == with_policy(old(self)@, id, policy).to_multiset(),
                None => final(self)@ == old(self)@,
            },
    {
        match self.current.take() {
            Some((id, policy)) => {
                self.enqueue(id, policy);
                true
            },
            None => false,
        }
    }
}

proof fn lemma_best_unique(q: Seq<Entry>, i: int, j: int)
    requires
        is_best(q, i),
        is_best(q, j),
    ensures
        i == j,
{
    if i < j {
        assert(score_of(q[j].1) < score_of(q[i].1));
    } else if j < i {
        assert(score_of(q[i].1) < score_of(q[j].1));
    }
}

/// In a queue that is in order, the task that goes next is the first.
pub proof fn lemma_first_goes_next(q: Seq<Entry>)
    requires
        in_order(q),
        q.len() > 0,
    ensures
        is_best(q, 0),
{
}

/// Entering a task never makes its id occur twice.
pub proof fn lemma_enqueue_keeps_ids_unique(q: Seq<Entry>, id: u64, p: SchedulePolicy)
    requires
        ids_unique(q),
    ensures
        ids_unique(with_policy(q, id, p)),
        has_id(with_policy(q, id, p), id),
{
    if has_id(q, id) {
        let i = lemma_first_exists(q, id);
        lemma_with_policy(q, id, p, i);
        let r = q.update(i, (id, p));
        assert forall|a: int, b: int| 0 <= a < b < r.len() implies (#[trigger] r[a]).0 != (
        #[trigger] r[b]).0 by {
            assert(q[a].0 != q[b].0);
        }
        assert(r[i].0 == id);
    } else {
        lemma_policy_added(q, id, p);
        let r = q.push((id, p));
        assert forall|a: int, b: int| 0 <= a < b < r.len() implies (#[trigger] r[a]).0 != (
        #[trigger] r[b]).0 by {
            assert(q[a].0 != id);
            if b < q.len() {
                assert(q[a].0 != q[b].0);
            }
        }
        assert(r[q.len() as int].0 == id);
    }
}

proof fn lemma_first_exists(q: Seq<Entry>, id: u64) -> (i: int)
    requires
        has_id(q, id),
    ensures
        first_of(q, id, i),
    decreases q.len(),
{
    if q[0].0 == id {
        0
    } else {
        let t = q.skip(1);
        let k = choose|k: int| 0 <= k < q.len() && (#[trigger] q[k]).0 == id;
        assert(t[k - 1].0 == id);
        let j = lemma_first_exists(t, id);
        assert forall|m: int| 0 <= m < j + 1 implies (#[trigger] q[m]).0 != id by {
            if m > 0 {
                assert(t[m - 1].0 != id);
            }
        }
        j + 1
    }
}

/// If no id occurs twice, rebalancing brings each task up to date exactly once, by
/// the ticks that it had missed.
pub proof fn lemma_rebalance_updates_each_once(q0: Seq<Entry>, now: u64, n: nat)
    requires
        ids_unique(q0),
        n <= q0.len(),
    ensures
        caught_up(q0, now, n).len() == q0.len(),
        forall|i: int|
            0 <= i < q0.len() ==> #[trigger] caught_up(q0, now, n)[i] == if i < n {
                (q0[i].0, ran(q0[i].1, since(q0[i].1, now), now))
            } else {
                q0[i]
            },
    decreases n,
{
    if n > 0 {
        let m = (n - 1) as nat;
        lemma_rebalance_updates_each_once(q0, now, m);
        let q = caught_up(q0, now, m);
        let e = q0[n - 1];
        assert forall|k: int| 0 <= k < n - 1 implies (#[trigger] q[k]).0 != e.0 by {
            assert(q0[k].0 != q0[n - 1].0);
        }
        assert(q[n - 1] == e);
        lemma_changed_at(q, e.0, ran_fn(since(e.1, now), now), n - 1);
    }
}

proof fn lemma_nothing_changes(q: Seq<Entry>, id: u64, f: spec_fn(SchedulePolicy) -> SchedulePolicy)
    requires
        forall|i: int| 0 <= i < q.len() ==> f((#[trigger] q[i]).1) == q[i].1,
    ensures
        changed_at(q, id, f) == q,
    decreases q.len(),
{
    if q.len() > 0 {
        if q[0].0 != id {
            let rest = q.skip(1);
            assert forall|i: int| 0 <= i < rest.len() implies f((#[trigger] rest[i]).1) == rest[i].1 by {
                assert(rest[i] == q[i + 1]);
            }
            lemma_nothing_changes(rest, id, f);
        }
        assert(changed_at(q, id, f) =~= q);
    }
}

proof fn lemma_already_caught_up(q: Seq<Entry>, now: u64, n: nat)
    requires
        forall|i: int| 0 <= i < q.len() ==> (#[trigger] q[i]).1.last_tick == now,
        n <= q.len(),
    ensures
        caught_up(q, now, n) == q,
    decreases n,
{
    if n > 0 {
        lemma_already_caught_up(q, now, (n - 1) as nat);
        let e = q[n - 1];
        assert forall|i: int| 0 <= i < q.len() implies ran_fn(since(e.1, now), now)(
            (#[trigger] q[i]).1,
        ) == q[i].1 by {
            assert(weight_of(q[i].1.nice) > 0);
        }
        lemma_nothing_changes(q, e.0, ran_fn(since(e.1, now), now));
    }
}

/// Rebalancing a queue in which no id occurs twice leaves every entry up to date,
/// and rebalancing it again at the same tick changes no entry.
pub proof fn lemma_rebalance_is_idempotent(q0: Seq<Entry>, q1: Seq<Entry>, q2: Seq<Entry>, now: u64)
    requires
        ids_unique(q0),
        q1.to_multiset() == caught_up(q0, now, q0.len()).to_multiset(),
        q2.to_multiset() == caught_up(q1, now, q1.len()).to_multiset(),
    ensures
        forall|i: int| 0 <= i < q1.len() ==> (#[trigger] q1[i]).1.last_tick == now,
        caught_up(q1, now, q1.len()) == q1,
        q2.to_multiset() == q1.to_multiset(),
{
    broadcast use vstd::seq_lib::group_to_multiset_ensures;

    let c = caught_up(q0, now, q0.len());
    lemma_rebalance_updates_each_once(q0, now, q0.len());
    assert forall|i: int| 0 <= i < q1.len() implies (#[trigger] q1[i]).1.last_tick == now by {
        assert(q1.contains(q1[i]));
        assert(q1.to_multiset().count(q1[i]) > 0);
        assert(c.to_multiset().contains(q1[i]));
        assert(c.contains(q1[i]));
    }
    lemma_already_caught_up(q1, now, q1.len());
}

/// Of two tasks that are equally nice and have run equally long, the one with the
/// lower priority number goes first, whatever the numbers.
pub proof fn lemma_lower_priority_goes_first(a: SchedulePolicy, b: SchedulePolicy)
    requires
        a.nice == b.nice,
        a.vruntime == b.vruntime,
        a.prio < b.prio,
    ensures
        score_of(a) < score_of(b),
{
}

/// Of two new tasks the one that asked for the lower priority number goes first and
/// gets the longer time slice.
pub proof fn lemma_priority_orders_new_tasks(a: i32, b: i32)
    requires
        0 <= a < b <= 20,
    ensures
        score_of(prio_policy(a)) < score_of(prio_policy(b)),
        prio_policy(a).time_slice > prio_policy(b).time_slice,
        prio_policy(a).prio == a,
        prio_policy(a).time_slice + a == 20,
        prio_policy(a).nice == a,
        prio_policy(a).vruntime == 0 && prio_policy(a).last_tick == 0,
{
}

/// Of two tasks of the same priority and niceness, one that has run a share longer
/// goes later.
pub proof fn lemma_run_time_goes_later(a: SchedulePolicy, b: SchedulePolicy)
    requires
        a.prio == b.prio,
        a.nice == b.nice,
        a.vruntime <= b.vruntime <= i64::MAX,
    ensures
        score_of(a) <= score_of(b),
        a.vruntime + weight_of(a.nice) <= b.vruntime ==> score_of(a) < score_of(b),
{
    let w = weight_of(a.nice) as int;
    vstd::arithmetic::div_mod::lemma_div_is_ordered(a.vruntime as int, b.vruntime as int, w);
    if a.vruntime + w <= b.vruntime {
        vstd::arithmetic::div_mod::lemma_div_is_ordered(a.vruntime + w, b.vruntime as int, w);
        assert((a.vruntime + w) / w == a.vruntime as int / w + 1) by (nonlinear_arith)
            requires
                w > 0,
        ;
    }
}

proof fn lemma_best_goes_first(q: Seq<Entry>, i: int)
    requires
        is_best(q, i),
    ensures
        goes_first(q, i),
{
    assert forall|k: int| 0 <= k < q.len() implies {
        let a = q[i].1;
        let b = (#[trigger] q[k]).1;
        &&& a.nice == b.nice && a.vruntime == b.vruntime ==> a.prio <= b.prio
        &&& a.prio == b.prio && a.vruntime == 0 && b.vruntime == 0 ==> a.nice <= b.nice
        &&& a.prio == b.prio && a.nice == b.nice && a.vruntime <= i64::MAX && b.vruntime
            + weight_of(b.nice) <= i64::MAX ==> a.vruntime < b.vruntime + weight_of(b.nice)
    } by {
        let a = q[i].1;
        let b = q[k].1;
        assert(score_of(a) <= score_of(b));
        if a.nice == b.nice && a.vruntime == b.vruntime && b.prio < a.prio {
            lemma_lower_priority_goes_first(b, a);
        }
        if a.prio == b.prio && a.vruntime == 0 && b.vruntime == 0 && b.nice < a.nice {
            lemma_nice_goes_later(b, a);
        }
        if a.prio == b.prio && a.nice == b.nice && a.vruntime <= i64::MAX && b.vruntime + weight_of(
            b.nice,
        ) <= a.vruntime {
            lemma_run_time_goes_later(b, a);
        }
    }
}

/// The task that goes next has no rival of a lower priority number that is as nice
/// and has run as long.
pub proof fn lemma_next_has_lowest_priority(q: Seq<Entry>, i: int, k: int)
    requires
        is_best(q, i),
        0 <= k < q.len(),
        q[k].1.nice == q[i].1.nice,
        q[k].1.vruntime == q[i].1.vruntime,
    ensures
        q[i].1.prio <= q[k].1.prio,
{
    lemma_best_goes_first(q, i);
    assert(q[k] == q[k]);
}

/// A task of nice 0 pays for its run time tick by tick; nothing but its run time and
/// the time of the account changes.
pub proof fn lemma_running_is_paid_for(p: SchedulePolicy, delta: u64, now: u64)
    requires
        p.nice == 0,
        p.vruntime + delta <= u64::MAX,
    ensures
        ran(p, delta, now).vruntime == p.vruntime + delta,
        ran(p, delta, now).last_tick == now,
        ran(p, delta, now).prio == p.prio,
        ran(p, delta, now).nice == p.nice,
        ran(p, delta, now).policy == p.policy,
        ran(p, delta, now).time_slice == p.time_slice,
{
    assert((delta * 1024) / 1024 == delta);
}

/// The nicer of two tasks pays at least as much for the same run time.
pub proof fn lemma_nicer_task_pays_more(a: SchedulePolicy, b: SchedulePolicy, delta: u64, now: u64)
    requires
        a.nice <= b.nice,
        a.vruntime == 0,
        b.vruntime == 0,
        delta * 1024 <= u64::MAX,
    ensures
        ran(a, delta, now).vruntime <= ran(b, delta, now).vruntime,
{
    lemma_weight_falls_with_nice(a.nice, b.nice);
    let x = delta * 1024;
    let wa = weight_of(a.nice) as int;
    let wb = weight_of(b.nice) as int;
    vstd::arithmetic::div_mod::lemma_div_is_ordered_by_denominator(x, wb, wa);
    assert(0 <= x / wa <= x / wb <= x) by (nonlinear_arith)
        requires
            0 <= x,
            1 <= wb <= wa,
            x / wa <= x / wb,
    ;
}

/// A boost brings a task forward by its amount, but not beyond the highest priority,
/// and changes nothing else.
pub proof fn lemma_boost_brings_forward(p: SchedulePolicy, amount: i32)
    requires
        0 <= amount,
        i32::MIN <= p.prio - amount,
        -20 <= p.prio,
    ensures
        ({
            let q = boosted(amount)(p);
            &&& -20 <= q.prio <= p.prio
            &&& q.prio == -20 || q.prio + amount == p.prio
            &&& q.prio == -20 ==> p.prio - amount <= -20
            &&& q.nice == p.nice && q.vruntime == p.vruntime && q.last_tick == p.last_tick
            &&& q.time_slice == p.time_slice && q.policy == p.policy
            &&& score_of(q) <= score_of(p)
        }),
{
}

/// Once a task has been put into the queue it is there, with the policy it was put in
/// with; every other entry is as before.
pub proof fn lemma_enqueued_task_is_there(q: Seq<Entry>, id: u64, p: SchedulePolicy, e: Entry)
    requires
        ids_unique(q),
    ensures
        with_policy(q, id, p).contains((id, p)),
        e.0 != id ==> (with_policy(q, id, p).contains(e) <==> q.contains(e)),
        e.0 == id && with_policy(q, id, p).contains(e) ==> e.1 == p,
        with_policy(q, id, p).len() == q.len() + if has_id(q, id) {
            0nat
        } else {
            1nat
        },
    decreases q.len(),
{
    let w = with_policy(q, id, p);
    if q.len() == 0 {
        assert(w[0] == (id, p));
    } else if q[0].0 == id {
        assert(w[0] == (id, p));
        if q.contains(e) {
            let k = choose|k: int| 0 <= k < q.len() && q[k] == e;
            if k > 0 {
                assert(w[k] == e);
            }
        }
        if w.contains(e) {
            let k = choose|k: int| 0 <= k < w.len() && w[k] == e;
            if k > 0 {
                assert(q[k] == e);
                assert(q[0].0 != q[k].0);
            }
        }
    } else {
        let rest = q.skip(1);
        assert forall|i: int, j: int| 0 <= i < j < rest.len() implies (#[trigger] rest[i]).0 != (
        #[trigger] rest[j]).0 by {
            assert(q[i + 1].0 != q[j + 1].0);
        }
        lemma_enqueued_task_is_there(rest, id, p, e);
        let v = with_policy(rest, id, p);
        assert(w == seq![q[0]] + v);
        let at = choose|at: int| 0 <= at < v.len() && v[at] == (id, p);
        assert(w[at + 1] == (id, p));
        if q.contains(e) {
            let k = choose|k: int| 0 <= k < q.len() && q[k] == e;
            if k > 0 {
                assert(rest[k - 1] == e);
                if e.0 != id {
                    let n = choose|n: int| 0 <= n < v.len() && v[n] == e;
                    assert(w[n + 1] == e);
                }
            } else {
                assert(w[0] == e);
            }
        }
        if w.contains(e) {
            let k = choose|k: int| 0 <= k < w.len() && w[k] == e;
            if k > 0 {
                assert(v[k - 1] == e);
                if e.0 != id {
                    let n = choose|n: int| 0 <= n < rest.len() && rest[n] == e;
                    assert(q[n + 1] == e);
                }
            } else {
                assert(q[0] == e);
            }
        }
        if has_id(rest, id) {
            let k = choose|k: int| 0 <= k < rest.len() && (#[trigger] rest[k]).0 == id;
            assert(q[k + 1].0 == id);
        }
        if has_id(q, id) {
            let k = choose|k: int| 0 <= k < q.len() && (#[trigger] q[k]).0 == id;
            assert(rest[k - 1].0 == id);
        }
    }
}

/// A change made to the policy of one task leaves the others alone and the order of
/// the tasks as it is.
pub proof fn lemma_change_reaches_one_task(
    q: Seq<Entry>,
    id: u64,
    f: spec_fn(SchedulePolicy) -> SchedulePolicy,
    i: int,
)
    requires
        ids_unique(q),
        0 <= i < q.len(),
    ensures
        changed_at(q, id, f).len() == q.len(),
        changed_at(q, id, f)[i].0 == q[i].0,
        q[i].0 != id ==> changed_at(q, id, f)[i] == q[i],
        q[i].0 == id ==> changed_at(q, id, f)[i].1 == f(q[i].1),
    decreases q.len(),
{
    if q[0].0 != id {
        let rest = q.skip(1);
        assert forall|a: int, b: int| 0 <= a < b < rest.len() implies (#[trigger] rest[a]).0 != (
        #[trigger] rest[b]).0 by {
            assert(q[a + 1].0 != q[b + 1].0);
        }
        if i > 0 {
            lemma_change_reaches_one_task(rest, id, f, i - 1);
            assert(rest[i - 1] == q[i]);
        } else if rest.len() > 0 {
            lemma_change_reaches_one_task(rest, id, f, 0);
        } else {
            assert(changed_at(rest, id, f) == rest);
        }
    } else if i > 0 {
        assert(q[0].0 != q[i].0);
    }
}

/// Weights come in five classes, from very impatient to very nice, and each class weighs
/// less than the one before it.
pub proof fn lemma_weight_classes(a: i32, b: i32)
    ensures
        a < -10 && b < -10 ==> weight_of(a) == weight_of(b),
        -10 <= a < 0 && -10 <= b < 0 ==> weight_of(a) == weight_of(b),
        0 < a < 10 && 0 < b < 10 ==> weight_of(a) == weight_of(b),
        10 <= a && 10 <= b ==> weight_of(a) == weight_of(b),
        a < -10 && -10 <= b ==> weight_of(a) > weight_of(b),
        a < 0 && 0 <= b ==> weight_of(a) > weight_of(b),
        a <= 0 && 0 < b ==> weight_of(a) > weight_of(b),
        a < 10 && 10 <= b ==> weight_of(a) > weight_of(b),
{
}

/// A run time beyond what a signed number holds counts as below zero, and there too more
/// of it goes later.
pub proof fn lemma_run_time_wraps(a: SchedulePolicy, b: SchedulePolicy)
    requires
        a.nice == b.nice,
        i64::MAX < a.vruntime <= b.vruntime,
    ensures
        run_units(a) <= run_units(b) <= 0,
        b.vruntime == u64::MAX && weight_of(b.nice) > 1 ==> run_units(b) == 0,
{
    let w = weight_of(a.nice) as int;
    let x = 0x1_0000_0000_0000_0000 - a.vruntime;
    let y = 0x1_0000_0000_0000_0000 - b.vruntime;
    vstd::arithmetic::div_mod::lemma_div_is_ordered(y, x, w);
    assert(0 <= y / w) by (nonlinear_arith)
        requires
            0 <= y,
            0 < w,
    ;
}

/// The time since an account is the difference of the two ticks, and never below zero.
pub proof fn lemma_time_since(p: SchedulePolicy, now: u64)
    ensures
        now >= p.last_tick ==> since(p, now) + p.last_tick == now,
        now < p.last_tick ==> since(p, now) == 0,
{
}

/// A step of priority counts for ten steps of niceness, and one of these for ten units
/// of run time.
pub proof fn lemma_steps_of_the_score(p: SchedulePolicy)
    requires
        p.prio < i32::MAX,
        p.nice < i32::MAX - 10,
        p.vruntime == 0,
    ensures
        score_of(SchedulePolicy { prio: (p.prio + 1) as i32, ..p }) == score_of(
            SchedulePolicy { nice: (p.nice + 10) as i32, ..p },
        ),
        score_of(SchedulePolicy { nice: (p.nice + 1) as i32, ..p }) == score_of(SchedulePolicy { vruntime: (weight_of(p.nice) * 10) as u64, ..p }),
{
    let w = weight_of(p.nice) as int;
    assert((w * 10) / w == 10) by (nonlinear_arith)
        requires
            w > 0,
    ;
}

} // verus!
