//! The simulated clock and the timer wheel.
use crate::consts::{TIMER_WHEEL_SIZE, USEC_PER_TICK};
use crate::seqs;
use vstd::prelude::*;

verus! {

/// The tick counters: `tick` moves with processor 0, `tick_all` with every one.
#[derive(Clone, Copy, Debug, PartialEq, Eq, Structural)]
pub struct Clock {
    pub tick: u64,
    pub tick_all: u64,
}

impl Clock {
    pub fn new() -> (r: Self)
        ensures
            r == (Clock { tick: 0, tick_all: 0 }),
    {
        Self { tick: 0, tick_all: 0 }
    }
}

pub fn wall_tick(clock: &Clock) -> (r: u64)
    ensures
        r == clock.tick,
{
    clock.tick
}

pub fn cpu_tick(clock: &Clock) -> (r: u64)
    ensures
        r == clock.tick_all,
{
    clock.tick_all
}

/// The clock after a tick of one processor.
pub open spec fn ticked(clock: Clock, cpu_id: usize) -> Clock {
    Clock {
        tick: if cpu_id == 0 {
            clock.tick.wrapping_add(1)
        } else {
            clock.tick
        },
        tick_all: clock.tick_all.wrapping_add(1),
    }
}

pub fn do_tick(clock: &mut Clock, cpu_id: usize)
    ensures
        *final(clock) == ticked(*old(clock), cpu_id),
{
    if cpu_id == 0 {
        clock.tick = clock.tick.wrapping_add(1);
    }
    clock.tick_all = clock.tick_all.wrapping_add(1);
}

/// The time since the start in milliseconds.
pub fn uptime_msec(clock: &Clock) -> (r: u64)
    requires
        clock.tick * (USEC_PER_TICK as int / 1000) <= u64::MAX,
    ensures
        r == clock.tick * (USEC_PER_TICK as int / 1000),
{
    wall_tick(clock) * (USEC_PER_TICK / 1000)
}

/// The timer interrupt of a processor.
pub fn timer(clock: &mut Clock, cpu_id: usize)
    ensures
        *final(clock) == ticked(*old(clock), cpu_id),
{
    do_tick(clock, cpu_id);
}

/// A byte from the serial line: a carriage return becomes a line feed.
pub fn serial(c: u8) -> (r: u8)
    ensures
        r == if c == 13 {
            10
        } else {
            c
        },
{
    if c == 13 {
        10
    } else {
        c
    }
}

/// One timer.
#[derive(Clone, Copy, Debug, PartialEq, Eq, Structural)]
pub struct TimerEntry {
    /// The timer fires after this tick.
    pub deadline: u64,
    /// Ticks between two firings; 0 for a timer that fires once.
    pub interval: u64,
    pub callback_id: usize,
    pub active: bool,
    pub repeat: bool,
}

/// A new, active timer.
pub open spec fn armed(deadline: u64, interval: u64, callback_id: usize) -> TimerEntry {
    TimerEntry { deadline, interval, callback_id, active: true, repeat: interval > 0 }
}

/// The timer is active and its deadline has passed.
pub open spec fn due(e: TimerEntry, now: u64) -> bool {
    e.active && now > e.deadline
}

/// A timer after it fired: a repeating one is set to fire again, counted from now.
pub open spec fn rearmed(e: TimerEntry, now: u64) -> TimerEntry {
    if e.repeat {
        TimerEntry { deadline: (now + e.interval) as u64, ..e }
    } else {
        e
    }
}

impl TimerEntry {
    pub fn new(deadline: u64, interval: u64, cb_id: usize) -> (r: Self)
        ensures
            r == armed(deadline, interval, cb_id),
    {
        Self { deadline, interval, callback_id: cb_id, active: true, repeat: interval > 0 }
    }

    pub fn expired(&self, now: u64) -> (r: bool)
        ensures
            r == (now > self.deadline),
    {
        now > self.deadline
    }

    /// Sets a repeating timer to fire again, counted from now; switches any other
    /// one off.
    pub fn reset(&mut self, now: u64)
        requires
            old(self).repeat ==> now + old(self).interval <= u64::MAX,
        ensures
            *final(self) == if old(self).repeat {
                rearmed(*old(self), now)
            } else {
                TimerEntry { active: false, ..*old(self) }
            },
    {
        if self.repeat {
            self.deadline = now + self.interval;
        } else {
            self.active = false;
        }
    }

    /// The ticks up to the deadline.
    pub fn remaining(&self, now: u64) -> (r: u64)
        ensures
            r == if now >= self.deadline {
                0
            } else {
                self.deadline - now
            },
    {
        if now >= self.deadline {
            0
        } else {
            self.deadline - now
        }
    }

    pub fn cancel(&mut self)
        ensures
            *final(self) == (TimerEntry { active: false, ..*old(self) }),
    {
        self.active = false;
    }
}

/// The slot of a deadline.
pub open spec fn slot_of(deadline: u64) -> int {
    deadline as int % TIMER_WHEEL_SIZE as int
}

/// The slots after the repeating ones of the fired timers are back in the wheel.
pub open spec fn requeued(slots: Seq<Seq<TimerEntry>>, fired: Seq<TimerEntry>, now: u64) -> Seq<
    Seq<TimerEntry>,
>
    decreases fired.len(),
{
    if fired.len() == 0 {
        slots
    } else {
        let s = requeued(slots, fired.drop_last(), now);
        let e = fired.last();
        if e.repeat {
            let d = (now + e.interval) as u64;
            s.update(slot_of(d), s[slot_of(d)].push(armed(d, e.interval, e.callback_id)))
        } else {
            s
        }
    }
}

/// Every timer is in the slot of its deadline.
pub open spec fn placed(slots: Seq<Seq<TimerEntry>>) -> bool {
    forall|i: int, j: int|
        0 <= i < slots.len() && 0 <= j < slots[i].len() ==> slot_of(
            (#[trigger] slots[i][j]).deadline,
        ) == i
}

pub open spec fn is_active() -> spec_fn(TimerEntry) -> bool {
    |e: TimerEntry| e.active
}

/// How many timers are active.
pub open spec fn active_in(slots: Seq<Seq<TimerEntry>>) -> nat
    decreases slots.len(),
{
    if slots.len() == 0 {
        0
    } else {
        active_in(slots.drop_last()) + slots.last().filter(is_active()).len()
    }
}

/// The entry at slot `i`, place `j` is the first active one with this id.
pub open spec fn first_with_id(slots: Seq<Seq<TimerEntry>>, id: usize, i: int, j: int) -> bool {
    let hit = |e: TimerEntry| e.callback_id == id && e.active;
    &&& 0 <= i < slots.len()
    &&& 0 <= j < slots[i].len()
    &&& hit(slots[i][j])
    &&& forall|a: int, b: int|
        0 <= a < slots.len() && 0 <= b < slots[a].len() && (a < i || (a == i && b < j)) ==> !hit(
            #[trigger] slots[a][b],
        )
}

/// Timers in buckets by the remainder of their deadline.
pub struct TimerWheel {
    pub slots: Vec<Vec<TimerEntry>>,
    pub current_slot: usize,
}

impl View for TimerWheel {
    type V = Seq<Seq<TimerEntry>>;

    open spec fn view(&self) -> Seq<Seq<TimerEntry>> {
        self.slots@.map_values(|v: Vec<TimerEntry>| v@)
    }
}

impl TimerWheel {
    pub open spec fn wf(&self) -> bool {
        &&& self.slots@.len() == TIMER_WHEEL_SIZE
        &&& self.current_slot < TIMER_WHEEL_SIZE
    }

    /// The slot that the next step visits.
    pub open spec fn next_slot(&self) -> int {
        (self.current_slot + 1) % TIMER_WHEEL_SIZE as int
    }

    pub fn new() -> (r: Self)
        ensures
            r.wf(),
            r.current_slot == 0,
            r@ == Seq::new(TIMER_WHEEL_SIZE as nat, |i: int| Seq::<TimerEntry>::empty()),
            placed(r@),
    {
        let mut slots: Vec<Vec<TimerEntry>> = Vec::new();
        let mut i: u64 = 0;
        while i < TIMER_WHEEL_SIZE
            invariant
                i <= TIMER_WHEEL_SIZE,
                slots@.len() == i,
                forall|k: int|
                    0 <= k < i ==> (#[trigger] slots@[k])@ == Seq::<TimerEntry>::empty(),
            decreases TIMER_WHEEL_SIZE - i,
        {
            slots.push(Vec::new());
            i = i + 1;
        }
        let r = Self { slots, current_slot: 0 };
        assert(r@ =~= Seq::new(TIMER_WHEEL_SIZE as nat, |i: int| Seq::<TimerEntry>::empty()));
        r
    }

    /// Puts a timer in the slot of its deadline.
    pub fn add_timer(&mut self, entry: TimerEntry)
        requires
            old(self).wf(),
        ensures
            final(self).wf(),
            final(self).current_slot == old(self).current_slot,
            final(self)@ == old(self)@.update(
                slot_of(entry.deadline),
                old(self)@[slot_of(entry.deadline)].push(entry),
            ),
            placed(old(self)@) ==> placed(final(self)@),
    {
        let slot: usize = (entry.deadline % TIMER_WHEEL_SIZE) as usize;
        let ghost before = self@;
        let mut list: Vec<TimerEntry> = Vec::new();
        std::mem::swap(&mut list, &mut self.slots[slot]);
        list.push(entry);
        std::mem::swap(&mut list, &mut self.slots[slot]);
        assert(self@ =~= before.update(slot as int, before[slot as int].push(entry)));
    }

    /// Steps to the next slot and takes out the timers that are due there; those
    /// that repeat go back in, counted from now. Inactive timers are dropped.
    pub fn advance(&mut self, now: u64) -> (r: Vec<TimerEntry>)
        requires
            old(self).wf(),
            forall|j: int|
                0 <= j < old(self)@[old(self).next_slot()].len() ==> {
                    let e = #[trigger] old(self)@[old(self).next_slot()][j];
                    due(e, now) && e.repeat ==> now + e.interval <= u64::MAX
                },
        ensures
            final(self).wf(),
            final(self).current_slot == old(self).next_slot(),
            ({
                let at = old(self).next_slot();
                let visited = old(self)@[at];
                let fired = visited.filter(|e: TimerEntry| due(e, now));
                let kept = visited.filter(|e: TimerEntry| e.active && !due(e, now));
                &&& r@ == fired.map_values(|e: TimerEntry| rearmed(e, now))
                &&& final(self)@ == requeued(old(self)@.update(at, kept), fired, now)
            }),
            placed(old(self)@) ==> placed(final(self)@),
    {
        let ghost before = self@;
        self.current_slot = (self.current_slot + 1) % (TIMER_WHEEL_SIZE as usize);
        let at = self.current_slot;
        assert(at == old(self).next_slot());
        let ghost visited = before[at as int];
        let ghost is_due = |e: TimerEntry| due(e, now);
        let ghost stays = |e: TimerEntry| e.active && !due(e, now);
        let mut fired: Vec<TimerEntry> = Vec::new();
        let mut remaining: Vec<TimerEntry> = Vec::new();
        let mut slot: Vec<TimerEntry> = Vec::new();
        std::mem::swap(&mut slot, &mut self.slots[at]);
        assert(slot@ == visited);
        let mut i: usize = 0;
        assert(visited.take(0) =~= Seq::empty());
        proof {
            reveal(Seq::filter);
        }
        while i < slot.len()
            invariant
                i <= slot@.len(),
                slot@ == visited,
                is_due == (|e: TimerEntry| due(e, now)),
                stays == (|e: TimerEntry| e.active && !due(e, now)),
                fired@ == visited.take(i as int).filter(is_due),
                remaining@ == visited.take(i as int).filter(stays),
            decreases slot@.len() - i,
        {
            proof {
                seqs::lemma_filter_step(visited, i as int, is_due);
                seqs::lemma_filter_step(visited, i as int, stays);
            }
            let entry: TimerEntry = slot[i];
            if entry.active && entry.expired(now) {
                fired.push(entry);
            } else if entry.active {
                remaining.push(entry);
            }
            i = i + 1;
        }
        assert(visited.take(i as int) =~= visited);
        let ghost kept = remaining@;
        std::mem::swap(&mut remaining, &mut self.slots[at]);
        let ghost cleared = before.update(at as int, kept);
        assert(self@ =~= cleared);
        let ghost due_now = fired@;
        proof {
            lemma_filter_passes(visited, is_due);
            lemma_filter_passes(visited, stays);
            assert forall|j: int|
                0 <= j < due_now.len() && (#[trigger] due_now[j]).repeat implies now
                + due_now[j].interval <= u64::MAX by {
                assert(is_due(due_now[j]) && visited.contains(due_now[j]));
                let k = choose|k: int| 0 <= k < visited.len() && visited[k] == due_now[j];
                assert(old(self)@[old(self).next_slot()][k] == due_now[j]);
            }
            if placed(before) {
                assert forall|a: int, b: int|
                    0 <= a < cleared.len() && 0 <= b < cleared[a].len() implies slot_of(
                    (#[trigger] cleared[a][b]).deadline,
                ) == a by {
                    if a == at {
                        assert(visited.contains(kept[b]));
                        let k = choose|k: int| 0 <= k < visited.len() && visited[k] == kept[b];
                        assert(before[at as int][k] == kept[b]);
                    } else {
                        assert(before[a][b] == cleared[a][b]);
                    }
                }
            }
        }
        let mut k: usize = 0;
        while k < fired.len()
            invariant
                k <= fired@.len() == due_now.len(),
                self.wf(),
                self.current_slot == at,
                forall|j: int|
                    0 <= j < due_now.len() && (#[trigger] due_now[j]).repeat ==> now
                        + due_now[j].interval <= u64::MAX,
                forall|j: int| 0 <= j < k ==> #[trigger] fired@[j] == rearmed(due_now[j], now),
                forall|j: int| k <= j < due_now.len() ==> #[trigger] fired@[j] == due_now[j],
                self@ == requeued(cleared, due_now.take(k as int), now),
                self@.len() == TIMER_WHEEL_SIZE,
                placed(before) ==> placed(self@),
            decreases due_now.len() - k,
        {
            let mut t: TimerEntry = fired[k];
            let ghost was = self@;
            assert(due_now.take(k + 1).drop_last() =~= due_now.take(k as int));
            if t.repeat {
                t.reset(now);
                let new_slot: usize = (t.deadline % TIMER_WHEEL_SIZE) as usize;
                let copy = TimerEntry::new(t.deadline, t.interval, t.callback_id);
                fired.set(k, t);
                let mut list: Vec<TimerEntry> = Vec::new();
                std::mem::swap(&mut list, &mut self.slots[new_slot]);
                list.push(copy);
                std::mem::swap(&mut list, &mut self.slots[new_slot]);
                assert(self@ =~= was.update(
                    new_slot as int,
                    was[new_slot as int].push(copy),
                ));
            }
            k = k + 1;
        }
        proof {
            assert(due_now.take(k as int) =~= due_now);
            assert(fired@ =~= due_now.map_values(|e: TimerEntry| rearmed(e, now)));
        }
        fired
    }

    /// Switches off the first active timer with this id; says whether there was one.
    pub fn cancel(&mut self, cb_id: usize) -> (r: bool)
        requires
            old(self).wf(),
        ensures
            final(self).wf(),
            final(self).current_slot == old(self).current_slot,
            r == exists|i: int, j: int| first_with_id(old(self)@, cb_id, i, j),
            !r ==> final(self)@ == old(self)@ && forall|i: int, j: int|
                0 <= i < old(self)@.len() && 0 <= j < old(self)@[i].len() ==> !(
                (#[trigger] old(self)@[i][j]).callback_id == cb_id && old(self)@[i][j].active),
            forall|i: int, j: int| #[trigger]
                first_with_id(old(self)@, cb_id, i, j) ==> final(self)@ == old(self)@.update(
                    i,
                    old(self)@[i].update(
                        j,
                        TimerEntry { active: false, ..old(self)@[i][j] },
                    ),
                ),
            placed(old(self)@) ==> placed(final(self)@),
    {
        let ghost slots = self@;
        let mut i: usize = 0;
        while i < self.slots.len()
            invariant
                i <= self.slots@.len(),
                *self == *old(self),
                self.wf(),
                slots == self@,
                forall|a: int, b: int|
                    0 <= a < i && 0 <= b < slots[a].len() ==> !((
                    #[trigger] slots[a][b]).callback_id == cb_id && slots[a][b].active),
            decreases self.slots@.len() - i,
        {
            assert(slots[i as int] == self.slots@[i as int]@);
            let mut j: usize = 0;
            while j < self.slots[i].len()
                invariant
                    i < self.slots@.len(),
                    j <= slots[i as int].len(),
                    slots[i as int] == self.slots@[i as int]@,
                    *self == *old(self),
                    self.wf(),
                    slots == self@,
                    forall|a: int, b: int|
                        0 <= a < i && 0 <= b < slots[a].len() ==> !((
                        #[trigger] slots[a][b]).callback_id == cb_id && slots[a][b].active),
                    forall|b: int|
                        0 <= b < j ==> !((#[trigger] slots[i as int][b]).callback_id == cb_id
                            && slots[i as int][b].active),
                decreases slots[i as int].len() - j,
            {
                let mut entry: TimerEntry = self.slots[i][j];
                if entry.callback_id == cb_id && entry.active {
                    entry.active = false;
                    let mut list: Vec<TimerEntry> = Vec::new();
                    std::mem::swap(&mut list, &mut self.slots[i]);
                    list.set(j, entry);
                    std::mem::swap(&mut list, &mut self.slots[i]);
                    proof {
                        let now = self@;
                        assert(first_with_id(slots, cb_id, i as int, j as int));
                        assert(now =~= slots.update(
                            i as int,
                            slots[i as int].update(j as int, entry),
                        ));
                        assert forall|a: int, b: int| #[trigger]
                            first_with_id(slots, cb_id, a, b) implies a == i && b == j by {
                            assert(!(a < i || (a == i && b < j)));
                            assert(slots[i as int][j as int].callback_id == cb_id);
                        }
                        if placed(slots) {
                            assert forall|a: int, b: int|
                                0 <= a < now.len() && 0 <= b < now[a].len() implies slot_of(
                                (#[trigger] now[a][b]).deadline,
                            ) == a by {
                                assert(slots[a][b].deadline == now[a][b].deadline);
                            }
                        }
                    }
                    return true;
                }
                j = j + 1;
            }
            i = i + 1;
        }
        false
    }

    pub fn active_count(&self) -> (r: usize)
        requires
            active_in(self@) <= usize::MAX,
        ensures
            r == active_in(self@),
    {
        let ghost slots = self@;
        let mut count: usize = 0;
        let mut i: usize = 0;
        while i < self.slots.len()
            invariant
                i <= self.slots@.len(),
                slots == self@,
                active_in(slots) <= usize::MAX,
                count == active_in(slots.take(i as int)),
            decreases self.slots@.len() - i,
        {
            let ghost row = slots[i as int];
            let ghost base = count;
            proof {
                assert(row == self.slots@[i as int]@);
                assert(slots.take(i + 1).drop_last() =~= slots.take(i as int));
                lemma_active_prefix(slots, i + 1);
                reveal(Seq::filter);
                assert(row.take(0) =~= Seq::empty());
            }
            let mut j: usize = 0;
            while j < self.slots[i].len()
                invariant
                    i < self.slots@.len(),
                    row == self.slots@[i as int]@,
                    j <= row.len(),
                    count == base + row.take(j as int).filter(is_active()).len(),
                    base + row.filter(is_active()).len() <= usize::MAX,
                decreases row.len() - j,
            {
                proof {
                    seqs::lemma_filter_step(row, j as int, is_active());
                    lemma_filter_prefix(row, j + 1, is_active());
                }
                if self.slots[i][j].active {
                    count = count + 1;
                }
                j = j + 1;
            }
            assert(row.take(j as int) =~= row);
            i = i + 1;
        }
        assert(slots.take(i as int) =~= slots);
        count
    }
}

proof fn lemma_active_prefix(slots: Seq<Seq<TimerEntry>>, i: int)
    requires
        0 <= i <= slots.len(),
    ensures
        active_in(slots.take(i)) <= active_in(slots),
    decreases slots.len() - i,
{
    if i == slots.len() {
        assert(slots.take(i) =~= slots);
    } else {
        assert(slots.take(i + 1).drop_last() =~= slots.take(i));
        lemma_active_prefix(slots, i + 1);
    }
}

proof fn lemma_filter_prefix(s: Seq<TimerEntry>, i: int, p: spec_fn(TimerEntry) -> bool)
    requires
        0 <= i <= s.len(),
    ensures
        s.take(i).filter(p).len() <= s.filter(p).len(),
    decreases s.len() - i,
{
    if i == s.len() {
        assert(s.take(i) =~= s);
    } else {
        seqs::lemma_filter_step(s, i, p);
        lemma_filter_prefix(s, i + 1, p);
    }
}

/// What a filter leaves passes and was there before.
proof fn lemma_filter_passes(s: Seq<TimerEntry>, p: spec_fn(TimerEntry) -> bool)
    ensures
        forall|i: int|
            0 <= i < s.filter(p).len() ==> p(#[trigger] s.filter(p)[i]) && s.contains(
                s.filter(p)[i],
            ),
    decreases s.len(),
{
    reveal(Seq::filter);
    if s.len() > 0 {
        let t = s.drop_last();
        lemma_filter_passes(t, p);
        assert forall|i: int| 0 <= i < s.filter(p).len() implies p(#[trigger] s.filter(p)[i])
            && s.contains(s.filter(p)[i]) by {
            let f = t.filter(p);
            if i < f.len() {
                assert(s.filter(p)[i] == f[i]);
                assert(t.contains(f[i]));
                let k = choose|k: int| 0 <= k < t.len() && t[k] == f[i];
                assert(s[k] == f[i]);
            } else {
                assert(s[s.len() - 1] == s.last());
            }
        }
    }
}

/// A timer fires only if it is active and its deadline has passed; a cancelled one
/// never fires, and one that fires once is gone afterwards.
pub proof fn lemma_only_due_timers_fire(visited: Seq<TimerEntry>, now: u64, i: int)
    requires
        0 <= i < visited.filter(|e: TimerEntry| due(e, now)).len(),
    ensures
        ({
            let e = visited.filter(|e: TimerEntry| due(e, now))[i];
            &&& e.active
            &&& now > e.deadline
            &&& visited.contains(e)
            &&& !visited.filter(|x: TimerEntry| x.active && !due(x, now)).contains(e)
        }),
{
    let is_due = |e: TimerEntry| due(e, now);
    let stays = |x: TimerEntry| x.active && !due(x, now);
    lemma_filter_passes(visited, is_due);
    lemma_filter_passes(visited, stays);
    let e = visited.filter(is_due)[i];
    assert(is_due(e));
    if visited.filter(stays).contains(e) {
        let k = choose|k: int|
            0 <= k < visited.filter(stays).len() && visited.filter(stays)[k] == e;
        assert(stays(visited.filter(stays)[k]));
    }
}

/// Every tick of a processor counts; the wall clock moves with those of the first.
pub proof fn lemma_first_processor_keeps_time(clock: Clock, cpu: usize)
    requires
        clock.tick < u64::MAX,
        clock.tick_all < u64::MAX,
    ensures
        ticked(clock, cpu).tick_all == clock.tick_all + 1,
        ticked(clock, 0).tick == clock.tick + 1,
        cpu != 0 ==> ticked(clock, cpu).tick == clock.tick,
{
}

/// A timer is armed for its deadline and not due before it has passed; one that repeats
/// is set anew by its interval, and stays what it was.
pub proof fn lemma_timer_life(deadline: u64, interval: u64, id: usize, now: u64)
    requires
        now + interval <= u64::MAX,
    ensures
        ({
            let e = armed(deadline, interval, id);
            &&& now <= deadline ==> !due(e, now)
            &&& now > deadline ==> due(e, now)
            &&& e.repeat <==> interval > 0
            &&& interval > 0 ==> rearmed(e, now).deadline == now + interval
            &&& interval == 0 ==> rearmed(e, now) == e
            &&& rearmed(e, now).callback_id == id && rearmed(e, now).interval == interval
            &&& !due(rearmed(e, now), now) || interval == 0
        }),
{
}

/// Every deadline has a slot on the wheel, which comes round again after a full turn.
pub proof fn lemma_wheel_turns(deadline: u64)
    requires
        deadline + TIMER_WHEEL_SIZE <= u64::MAX,
    ensures
        0 <= slot_of(deadline) < TIMER_WHEEL_SIZE,
        slot_of((deadline + TIMER_WHEEL_SIZE) as u64) == slot_of(deadline),
        slot_of((deadline + 1) as u64) == if slot_of(deadline) + 1 == TIMER_WHEEL_SIZE {
            0
        } else {
            slot_of(deadline) + 1
        },
{
}

/// Of the timers of a slot that is visited each goes one way: it fires if it is due, it
/// stays if it is not, and it is dropped if it was cancelled.
pub proof fn lemma_visited_timer(visited: Seq<TimerEntry>, now: u64, j: int)
    requires
        0 <= j < visited.len(),
    ensures
        ({
            let e = visited[j];
            let fired = visited.filter(|e: TimerEntry| due(e, now));
            let kept = visited.filter(|e: TimerEntry| e.active && !due(e, now));
            &&& e.active && now > e.deadline ==> fired.contains(e) && !kept.contains(e)
            &&& e.active && now <= e.deadline ==> kept.contains(e) && !fired.contains(e)
            &&& !e.active ==> !kept.contains(e) && !fired.contains(e)
        }),
{
    lemma_filter_by(visited, |e: TimerEntry| due(e, now), j);
    lemma_filter_by(visited, |e: TimerEntry| e.active && !due(e, now), j);
}

proof fn lemma_filter_by(s: Seq<TimerEntry>, f: spec_fn(TimerEntry) -> bool, j: int)
    requires
        0 <= j < s.len(),
    ensures
        s.filter(f).contains(s[j]) <==> f(s[j]),
    decreases s.len(),
{
    lemma_filter_item(s, f, s[j]);
}

proof fn lemma_filter_item(s: Seq<TimerEntry>, f: spec_fn(TimerEntry) -> bool, e: TimerEntry)
    ensures
        s.filter(f).contains(e) <==> s.contains(e) && f(e),
    decreases s.len(),
{
    reveal(Seq::filter);
    if s.len() > 0 {
        let front = s.drop_last();
        let q = front.filter(f);
        let r = s.filter(f);
        lemma_filter_item(front, f, e);
        if front.contains(e) {
            let i = choose|i: int| 0 <= i < front.len() && front[i] == e;
            assert(s[i] == e);
        }
        if s.contains(e) {
            let i = choose|i: int| 0 <= i < s.len() && s[i] == e;
            if i < front.len() {
                assert(front[i] == e);
            }
        }
        assert(s[s.len() - 1] == s.last());
        if q.contains(e) {
            let i = choose|i: int| 0 <= i < q.len() && q[i] == e;
            assert(r[i] == e);
        }
        if f(s.last()) {
            assert(r == q.push(s.last()));
            assert(r[q.len() as int] == s.last());
        }
        if r.contains(e) {
            let i = choose|i: int| 0 <= i < r.len() && r[i] == e;
            if i < q.len() {
                assert(q[i] == e);
            }
        }
    }
}

/// Timers that fired and repeat are on the wheel again, in the slot of their next
/// deadline; no timer that was there goes, and those that do not repeat do not return.
pub proof fn lemma_repeating_timers_return(
    slots: Seq<Seq<TimerEntry>>,
    fired: Seq<TimerEntry>,
    now: u64,
    e: TimerEntry,
)
    requires
        slots.len() == TIMER_WHEEL_SIZE,
        now + e.interval <= u64::MAX,
    ensures
        ({
            let a = requeued(slots, fired, now);
            let b = requeued(slots, fired.push(e), now);
            let d = (now + e.interval) as u64;
            let at = d as int % TIMER_WHEEL_SIZE as int;
            &&& a.len() == slots.len()
            &&& !e.repeat ==> b == a
            &&& e.repeat ==> b[at].len() == a[at].len() + 1 && b[at].last().deadline == now
                + e.interval && b[at].last().callback_id == e.callback_id && b[at].last().active
                && b[at].last().interval == e.interval
            &&& forall|i: int| 0 <= i < slots.len() && i != at ==> #[trigger] b[i] == a[i]
            &&& e.repeat ==> b[at].drop_last() == a[at]
        }),
{
    lemma_requeued_len(slots, fired, now);
    assert(fired.push(e).drop_last() =~= fired);
    let a = requeued(slots, fired, now);
    let d = (now + e.interval) as u64;
    if e.repeat {
        assert(requeued(slots, fired.push(e), now)[slot_of(d)].drop_last() =~= a[slot_of(d)]);
    }
}

proof fn lemma_requeued_len(slots: Seq<Seq<TimerEntry>>, fired: Seq<TimerEntry>, now: u64)
    requires
        slots.len() == TIMER_WHEEL_SIZE,
    ensures
        requeued(slots, fired, now).len() == slots.len(),
    decreases fired.len(),
{
    if fired.len() > 0 {
        lemma_requeued_len(slots, fired.drop_last(), now);
    }
}

/// The timer that is cancelled has the id asked for and is active; every such timer in
/// an earlier slot, or before it in its own, would have been found first.
pub proof fn lemma_first_timer_is_cancelled(
    slots: Seq<Seq<TimerEntry>>,
    id: usize,
    i: int,
    j: int,
    a: int,
    b: int,
)
    requires
        first_with_id(slots, id, i, j),
        0 <= a < slots.len(),
        0 <= b < slots[a].len(),
        slots[a][b].callback_id == id,
        slots[a][b].active,
    ensures
        slots[i][j].callback_id == id,
        slots[i][j].active,
        i < a || i == a && j <= b,
{
}

/// The wheel goes on by one slot at a time, and from the last to the first.
pub proof fn lemma_wheel_goes_on(w: TimerWheel)
    requires
        w.wf(),
    ensures
        w.current_slot + 1 < TIMER_WHEEL_SIZE ==> w.next_slot() == w.current_slot + 1,
        w.current_slot + 1 == TIMER_WHEEL_SIZE ==> w.next_slot() == 0,
{
}

/// One timer more in the last slot that is active counts one more.
pub proof fn lemma_active_timers_count(slots: Seq<Seq<TimerEntry>>, slot: Seq<TimerEntry>, e: TimerEntry)
    ensures
        active_in(slots.push(slot.push(e))) == active_in(slots.push(slot)) + if e.active {
            1nat
        } else {
            0nat
        },
        active_in(Seq::<Seq<TimerEntry>>::empty()) == 0,
{
    reveal(Seq::filter);
    assert(slots.push(slot.push(e)).drop_last() =~= slots);
    assert(slots.push(slot).drop_last() =~= slots);
    assert(slot.push(e).drop_last() =~= slot);
}

} // verus!
