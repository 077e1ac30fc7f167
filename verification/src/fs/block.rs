//! The request queue of a block device and a disk with injected faults.
use crate::consts::IOQUEUE_DEPTH;
use std::collections::VecDeque;
use vstd::prelude::*;

verus! {

/// A request for one block.
#[derive(Clone, Copy, Debug, PartialEq, Eq, Structural)]
pub struct IoRequest {
    pub block: u64,
    pub write: bool,
    pub priority: u8,
    pub submitted_tick: u64,
}

/// How far the head has to go for a request. Requests behind it come after all
/// those before it.
pub open spec fn distance(going_up: bool, head: u64, block: u64) -> int {
    if going_up {
        if block >= head {
            block - head
        } else {
            u64::MAX as int / 2 + block
        }
    } else {
        if block <= head {
            head - block
        } else {
            u64::MAX as int / 2 + head
        }
    }
}

/// The request at `i` is the first of those with the least distance.
pub open spec fn is_nearest(s: Seq<IoRequest>, going_up: bool, head: u64, i: int) -> bool {
    &&& 0 <= i < s.len()
    &&& forall|k: int|
        0 <= k < s.len() ==> distance(going_up, head, s[i].block) <= distance(
            going_up,
            head,
            (#[trigger] s[k]).block,
        )
    &&& forall|k: int|
        0 <= k < i ==> distance(going_up, head, s[i].block) < distance(
            going_up,
            head,
            (#[trigger] s[k]).block,
        )
}

/// The direction after a request has been served: it turns round once no request
/// is left ahead.
pub open spec fn direction_after(
    rest: Seq<IoRequest>,
    going_up: bool,
    head: u64,
    block: u64,
) -> bool {
    if going_up && block >= head {
        exists|k: int| 0 <= k < rest.len() && (#[trigger] rest[k]).block >= block
    } else if !going_up && block <= head {
        forall|k: int| 0 <= k < rest.len() ==> (#[trigger] rest[k]).block > block
    } else {
        going_up
    }
}

/// `b` asks for the block behind that of `a`, in the same direction of transfer.
pub open spec fn follows(a: IoRequest, b: IoRequest) -> bool {
    a.block + 1 == b.block && a.write == b.write
}

/// The queue without the requests that follow the one kept before them.
pub open spec fn merged_queue(s: Seq<IoRequest>) -> Seq<IoRequest>
    decreases s.len(),
{
    if s.len() == 0 {
        s
    } else {
        let front = merged_queue(s.drop_last());
        if front.len() > 0 && follows(front.last(), s.last()) {
            front
        } else {
            front.push(s.last())
        }
    }
}

/// Requests that wait for a block device, served in the order of an elevator.
pub struct IoQueue {
    pub pending: VecDeque<IoRequest>,
    pub head_pos: u64,
    pub direction_up: bool,
    pub dispatched: usize,
    pub merged: usize,
}

impl View for IoQueue {
    type V = Seq<IoRequest>;

    open spec fn view(&self) -> Seq<IoRequest> {
        self.pending@
    }
}

impl IoQueue {
    pub fn new() -> (r: Self)
        ensures
            r@ == Seq::<IoRequest>::empty(),
            r.head_pos == 0,
            r.direction_up,
            r.dispatched == 0,
            r.merged == 0,
    {
        Self {
            pending: VecDeque::new(),
            head_pos: 0,
            direction_up: true,
            dispatched: 0,
            merged: 0,
        }
    }

    /// Everything but the pending requests.
    pub open spec fn same_head(&self, other: &IoQueue) -> bool {
        &&& self.head_pos == other.head_pos
        &&& self.direction_up == other.direction_up
        &&& self.dispatched == other.dispatched
        &&& self.merged == other.merged
    }

    /// Adds a request at the end of the queue.
    pub fn submit(&mut self, blk: u64, write: bool, priority: u8, now: u64)
        ensures
            final(self)@ == old(self)@.push(
                IoRequest { block: blk, write, priority, submitted_tick: now },
            ),
            final(self).same_head(old(self)),
    {
        self.pending.push_back(IoRequest { block: blk, write, priority, submitted_tick: now });
    }

    /// Adds requests at the end of the queue, which has to have room for them, and
    /// returns how many.
    pub fn submit_batch(&mut self, requests: &[(u64, bool, u8)], now: u64) -> (r: usize)
        requires
            old(self)@.len() + requests@.len() <= IOQUEUE_DEPTH,
        ensures
            final(self)@ == old(self)@ + requests@.map_values(
                |q: (u64, bool, u8)|
                    IoRequest { block: q.0, write: q.1, priority: q.2, submitted_tick: now },
            ),
            final(self).same_head(old(self)),
            r == requests@.len(),
    {
        let ghost start = self@;
        let ghost f = |q: (u64, bool, u8)|
            IoRequest { block: q.0, write: q.1, priority: q.2, submitted_tick: now };
        let mut count: usize = 0;
        assert(self@ =~= start + requests@.take(0).map_values(f));
        while count < requests.len()
            invariant
                count <= requests@.len(),
                f == (|q: (u64, bool, u8)|
                    IoRequest { block: q.0, write: q.1, priority: q.2, submitted_tick: now }),
                self@ == start + requests@.take(count as int).map_values(f),
                self.same_head(old(self)),
            decreases requests@.len() - count,
        {
            let (blk, write, priority) = requests[count];
            self.pending.push_back(IoRequest { block: blk, write, priority, submitted_tick: now });
            count = count + 1;
            assert(self@ =~= start + requests@.take(count as int).map_values(f));
        }
        assert(requests@.take(count as int) =~= requests@);
        count
    }

    /// Takes the nearest request in the direction of travel and moves the head to
    /// its block.
    pub fn dispatch(&mut self) -> (r: Option<(u64, bool)>)
        requires
            forall|k: int|
                0 <= k < old(self)@.len() ==> distance(
                    old(self).direction_up,
                    old(self).head_pos,
                    (#[trigger] old(self)@[k]).block,
                ) <= u64::MAX,
        ensures
            final(self).merged == old(self).merged,
            r is None <==> old(self)@.len() == 0,
            r is None ==> final(self)@ == old(self)@ && final(self).same_head(old(self)),
            r matches Some(served) ==> exists|i: int|
                {
                    &&& #[trigger] is_nearest(
                        old(self)@,
                        old(self).direction_up,
                        old(self).head_pos,
                        i,
                    )
                    &&& served == (old(self)@[i].block, old(self)@[i].write)
                    &&& final(self)@ == old(self)@.remove(i)
                    &&& final(self).head_pos == old(self)@[i].block
                    &&& final(self).direction_up == direction_after(
                        old(self)@.remove(i),
                        old(self).direction_up,
                        old(self).head_pos,
                        old(self)@[i].block,
                    )
                    &&& final(self).dispatched == old(self).dispatched.wrapping_add(1)
                },
    {
        if self.pending.len() == 0 {
            return None;
        }
        let ghost q = self@;
        let head = self.head_pos;
        let going_up = self.direction_up;
        let mut best_idx: usize = 0;
        let mut best_dist: u64 = u64::MAX;
        let mut i: usize = 0;
        while i < self.pending.len()
            invariant
                i <= self.pending@.len(),
                q == self@,
                *self == *old(self),
                head == self.head_pos,
                going_up == self.direction_up,
                q.len() > 0,
                forall|k: int|
                    0 <= k < q.len() ==> distance(going_up, head, (#[trigger] q[k]).block)
                        <= u64::MAX,
                best_idx < q.len(),
                best_idx == 0 || best_idx < i,
                i > 0 ==> best_dist == distance(going_up, head, q[best_idx as int].block),
                i == 0 ==> best_dist == u64::MAX && best_idx == 0,
                forall|k: int|
                    0 <= k < i ==> best_dist <= distance(going_up, head, (#[trigger] q[k]).block),
                forall|k: int|
                    0 <= k < best_idx ==> best_dist < distance(
                        going_up,
                        head,
                        (#[trigger] q[k]).block,
                    ),
            decreases self.pending@.len() - i,
        {
            let block: u64 = self.pending[i].block;
            assert(block == q[i as int].block);
            let dist: u64 = if going_up {
                if block >= head {
                    block - head
                } else {
                    u64::MAX / 2 + block
                }
            } else {
                if block <= head {
                    head - block
                } else {
                    u64::MAX / 2 + head
                }
            };
            if dist < best_dist {
                best_dist = dist;
                best_idx = i;
            }
            i = i + 1;
        }
        assert(is_nearest(q, going_up, head, best_idx as int));
        let req: IoRequest = match self.pending.remove(best_idx) {
            Some(r) => r,
            None => {
                return None;
            },
        };
        let ghost rest = self@;
        assert(rest =~= q.remove(best_idx as int));
        self.head_pos = req.block;
        let mut any_at_or_above = false;
        let mut any_at_or_below = false;
        let mut k: usize = 0;
        while k < self.pending.len()
            invariant
                k <= self.pending@.len(),
                rest == self@,
                self.head_pos == req.block,
                self.direction_up == old(self).direction_up,
                self.dispatched == old(self).dispatched,
                self.merged == old(self).merged,
                any_at_or_above == exists|j: int|
                    0 <= j < k && (#[trigger] rest[j]).block >= req.block,
                any_at_or_below == exists|j: int|
                    0 <= j < k && (#[trigger] rest[j]).block <= req.block,
            decreases self.pending@.len() - k,
        {
            let block: u64 = self.pending[k].block;
            assert(block == rest[k as int].block);
            if block >= req.block {
                any_at_or_above = true;
            }
            if block <= req.block {
                any_at_or_below = true;
            }
            k = k + 1;
        }
        if going_up && req.block >= head {
            if !any_at_or_above {
                self.direction_up = false;
            }
        } else if !going_up && req.block <= head {
            if !any_at_or_below {
                self.direction_up = true;
            }
        }
        self.dispatched = self.dispatched.wrapping_add(1);
        Some((req.block, req.write))
    }

    /// Drops requests for the block behind that of the request before them, and
    /// returns how many.
    pub fn merge_adjacent(&mut self) -> (r: usize)
        requires
            forall|k: int|
                0 <= k < old(self)@.len() - 1 ==> (#[trigger] old(self)@[k]).block < u64::MAX,
        ensures
            final(self)@ == merged_queue(old(self)@),
            final(self).head_pos == old(self).head_pos,
            final(self).direction_up == old(self).direction_up,
            final(self).dispatched == old(self).dispatched,
            r == old(self)@.len() - final(self)@.len(),
            final(self).merged == old(self).merged.wrapping_add(r),
    {
        let ghost q = self@;
        let total = self.pending.len();
        let mut merged: usize = 0;
        let mut i: usize = 0;
        proof {
            if q.len() > 0 {
                assert(q.take(1).drop_last() =~= Seq::<IoRequest>::empty());
                assert(merged_queue(Seq::<IoRequest>::empty()).len() == 0);
                assert(merged_queue(q.take(1)) =~= q.take(1));
                assert(self@ =~= merged_queue(q.take(1)) + q.skip(1));
            }
        }
        while i < self.pending.len() && self.pending.len() - i > 1
            invariant
                q == old(self)@,
                q.len() == total,
                q.len() > 0 ==> {
                    &&& i + 1 + merged <= q.len()
                    &&& merged_queue(q.take(i + 1 + merged)).len() == i + 1
                    &&& self@ == merged_queue(q.take(i + 1 + merged)) + q.skip(i + 1 + merged)
                },
                q.len() == 0 ==> self@ == q && merged == 0,
                forall|k: int| 0 <= k < self@.len() - 1 ==> (#[trigger] self@[k]).block < u64::MAX,
                self.same_head(old(self)),
            decreases self.pending@.len() - i,
        {
            let ghost seen = i + 1 + merged;
            let ghost front = merged_queue(q.take(seen));
            let ghost now = self@;
            let a: IoRequest = self.pending[i];
            let b: IoRequest = self.pending[i + 1];
            proof {
                assert(a == front.last());
                assert(b == q[seen]);
                assert(q.take(seen + 1).drop_last() =~= q.take(seen));
            }
            if a.block + 1 == b.block && a.write == b.write {
                self.pending.remove(i + 1);
                merged = merged + 1;
                proof {
                    assert(self@ =~= front + q.skip(seen + 1));
                    assert forall|k: int| 0 <= k < self@.len() - 1 implies (
                    #[trigger] self@[k]).block < u64::MAX by {
                        if k <= i {
                            assert(self@[k] == now[k]);
                        } else {
                            assert(self@[k] == now[k + 1]);
                        }
                    }
                }
            } else {
                i = i + 1;
                assert(self@ =~= front.push(b) + q.skip(seen + 1));
            }
        }
        proof {
            if q.len() > 0 {
                let seen = i + 1 + merged;
                assert(self@.len() == i + 1 + (q.len() - seen));
                assert(q.take(seen) =~= q);
                assert(self@ =~= merged_queue(q));
            } else {
                assert(self@ =~= merged_queue(q));
            }
        }
        self.merged = self.merged.wrapping_add(merged);
        merged
    }

    pub fn depth(&self) -> (r: usize)
        ensures
            r == self@.len(),
    {
        self.pending.len()
    }
}

/// Going up, the request that is served is the lowest one at or above the head, as
/// long as there is one.
pub proof fn lemma_elevator_order(s: Seq<IoRequest>, head: u64, i: int, k: int)
    requires
        is_nearest(s, true, head, i),
        0 <= k < s.len(),
        s[k].block >= head,
        s[k].block - head < u64::MAX as int / 2,
    ensures
        head <= s[i].block <= s[k].block,
{
}

/// A disk with a number of faults to come. `usize::MAX` faults never end.
pub struct Disk {
    pub errs: usize,
    pub ops: usize,
    pub label: String,
    /// The device that is read after each fault.
    pub journal: Option<Box<Disk>>,
}

/// How many journals follow one another.
pub open spec fn chain_len(d: Disk) -> nat
    decreases d,
{
    match d.journal {
        None => 0,
        Some(j) => 1 + chain_len(*j),
    }
}

/// How many attempts of a read fail: as many as there are faults, but no more than
/// the limit, if there is one.
pub open spec fn failures(errs: usize, lim: usize) -> nat {
    if lim > 0 && lim <= errs {
        lim as nat
    } else {
        errs as nat
    }
}

/// Whether a read succeeds in the end.
pub open spec fn read_succeeds(errs: usize, lim: usize) -> bool {
    lim == 0 || errs < lim
}

/// The faults that are left after `n` of them.
pub open spec fn errs_after(errs: usize, n: nat) -> usize {
    if errs == usize::MAX {
        errs
    } else {
        (errs - n) as usize
    }
}

/// `ops` after `n` more operations.
pub open spec fn ops_after(ops: usize, n: nat) -> usize
    decreases n,
{
    if n == 0 {
        ops
    } else {
        ops_after(ops, (n - 1) as nat).wrapping_add(1)
    }
}

pub open spec fn at_most_five(lim: usize) -> usize {
    if lim < 5 {
        lim
    } else {
        5
    }
}

/// The journal after a number of failed attempts, each of which reads it once.
pub open spec fn journal_after(j: Option<Box<Disk>>, n: nat, lim: usize, depth: nat) -> Option<
    Box<Disk>,
>
    decreases depth, n + 1,
{
    match j {
        None => None,
        Some(d) => if depth == 0 {
            j
        } else {
            Some(Box::new(reads(*d, n, lim, (depth - 1) as nat)))
        },
    }
}

/// A disk after `n` limited reads.
pub open spec fn reads(d: Disk, n: nat, lim: usize, depth: nat) -> Disk
    decreases depth, n + 2,
{
    if n == 0 {
        d
    } else {
        one_read(reads(d, (n - 1) as nat, lim, depth), lim, depth)
    }
}

/// A disk after one limited read.
pub open spec fn one_read(d: Disk, lim: usize, depth: nat) -> Disk
    decreases depth, 0nat,
{
    let n = failures(d.errs, lim);
    Disk {
        errs: errs_after(d.errs, n),
        ops: ops_after(
            d.ops,
            if read_succeeds(d.errs, lim) {
                n + 1
            } else {
                n
            },
        ),
        label: d.label,
        journal: if depth == 0 {
            d.journal
        } else {
            match d.journal {
                None => None,
                Some(j) => Some(
                    Box::new(reads(*j, n, at_most_five(lim), (depth - 1) as nat)),
                ),
            }
        },
    }
}

/// A limited read ends: the faults of the disk end, or there is a limit; and so for
/// the journals that it reads.
pub open spec fn read_ends(d: Disk, lim: usize) -> bool
    decreases d,
{
    &&& lim > 0 || d.errs < usize::MAX
    &&& d.errs > 0 ==> match d.journal {
        None => true,
        Some(j) => read_ends(*j, at_most_five(lim)),
    }
}

/// What a limited read leaves in the buffer at place `i`.
pub open spec fn pattern_byte(i: int) -> u8 {
    0xAAu8 ^ ((i % 256) as u8)
}

proof fn lemma_reads_depth(d: Disk, n: nat, lim: usize, depth: nat)
    requires
        chain_len(d) <= depth,
    ensures
        chain_len(reads(d, n, lim, depth)) == chain_len(d),
        reads(d, n, lim, depth).label == d.label,
        read_ends(d, lim) ==> read_ends(reads(d, n, lim, depth), lim),
    decreases depth, n + 2,
{
    if n > 0 {
        lemma_reads_depth(d, (n - 1) as nat, lim, depth);
        lemma_read_depth(reads(d, (n - 1) as nat, lim, depth), lim, depth);
    }
}

proof fn lemma_read_depth(d: Disk, lim: usize, depth: nat)
    requires
        chain_len(d) <= depth,
    ensures
        chain_len(one_read(d, lim, depth)) == chain_len(d),
        read_ends(d, lim) ==> read_ends(one_read(d, lim, depth), lim),
    decreases depth, 0nat,
{
    match d.journal {
        None => {},
        Some(j) => {
            let n = failures(d.errs, lim);
            lemma_reads_depth(*j, n, at_most_five(lim), (depth - 1) as nat);
        },
    }
}

impl Disk {
    pub fn new(s: &str) -> (r: Self)
        ensures
            r.errs == 0,
            r.ops == 0,
            r.label@ == s@,
            r.journal is None,
    {
        Self { errs: 0, ops: 0, label: s.to_owned(), journal: None }
    }

    /// A disk with `n` faults to come.
    pub fn failing(s: &str, n: usize) -> (r: Self)
        ensures
            r.errs == n,
            r.ops == 0,
            r.label@ == s@,
            r.journal is None,
    {
        Self { errs: n, ops: 0, label: s.to_owned(), journal: None }
    }

    pub fn attach_journal(&mut self, d: Disk)
        ensures
            *final(self) == (Disk { journal: Some(Box::new(d)), ..*old(self) }),
    {
        self.journal = Some(Box::new(d));
    }

    pub fn set_errs(&mut self, n: usize)
        ensures
            *final(self) == (Disk { errs: n, ..*old(self) }),
    {
        self.errs = n;
    }

    /// Reads a block, however often that fails first. Each failure reads the
    /// journal, with at most five attempts.
    pub fn read_block(&mut self, blk: u64, out: &mut [u8]) -> (r: Result<(), &'static str>)
        requires
            old(self).errs < usize::MAX,
        ensures
            r is Ok,
            final(out)@ == Seq::new(old(out)@.len(), |i: int| 0xAAu8),
            *final(self) == (Disk {
                errs: 0,
                ops: ops_after(old(self).ops, (old(self).errs + 1) as nat),
                label: old(self).label,
                journal: journal_after(
                    old(self).journal,
                    old(self).errs as nat,
                    5,
                    chain_len(*old(self)),
                ),
            }),
    {
        let ghost start = *self;
        let ghost depth = chain_len(*self);
        let ghost mut n: nat = 0;
        while self.errs > 0
            invariant
                n <= start.errs < usize::MAX,
                depth == chain_len(start),
                self.errs == start.errs - n,
                self.ops == ops_after(start.ops, n),
                self.label == start.label,
                self.journal == journal_after(start.journal, n, 5, depth),
            decreases self.errs,
        {
            self.ops = self.ops.wrapping_add(1);
            self.errs = self.errs - 1;
            match self.journal.take() {
                Some(mut jdev) => {
                    proof {
                        let j = *start.journal->Some_0;
                        lemma_reads_depth(j, n, 5, (depth - 1) as nat);
                        lemma_limited_read_ends(*jdev, 5);
                    }
                    let mut scratch: Vec<u8> = vec![0u8; 8];
                    let _jr = jdev.read_block_n(blk, scratch.as_mut_slice(), 5);
                    self.journal = Some(jdev);
                },
                None => {},
            }
            proof {
                n = n + 1;
            }
        }
        self.ops = self.ops.wrapping_add(1);
        let len = out.len();
        let mut i: usize = 0;
        while i < len
            invariant
                i <= len == out@.len(),
                out@.len() == old(out)@.len(),
                forall|k: int| 0 <= k < i ==> #[trigger] out@[k] == 0xAAu8,
            decreases len - i,
        {
            out[i] = 0xAA;
            i = i + 1;
        }
        assert(out@ =~= Seq::new(old(out)@.len(), |i: int| 0xAAu8));
        Ok(())
    }

    /// Reads a block with at most `lim` attempts, or without limit if that is 0;
    /// returns how many it took. Each failure reads the journal.
    pub fn read_block_n(&mut self, blk: u64, out: &mut [u8], lim: usize) -> (r: Result<
        usize,
        &'static str,
    >)
        requires
            read_ends(*old(self), lim),
        ensures
            *final(self) == one_read(*old(self), lim, chain_len(*old(self))),
            final(out)@.len() == old(out)@.len(),
            r == if read_succeeds(old(self).errs, lim) {
                Ok::<usize, &'static str>((failures(old(self).errs, lim) + 1) as usize)
            } else {
                Err("limit")
            },
            r is Ok ==> final(out)@ == Seq::new(old(out)@.len(), |i: int| pattern_byte(i)),
            r is Err ==> final(out)@ == old(out)@,
        decreases chain_len(*old(self)),
    {
        let ghost start = *self;
        let ghost depth = chain_len(*self);
        let jlim: usize = if lim < 5 {
            lim
        } else {
            5
        };
        let mut attempt: usize = 0;
        loop
            invariant_except_break
                lim == 0 || attempt < lim,
            invariant
                attempt <= failures(start.errs, lim),
                start.errs < usize::MAX || lim > 0,
                start == *old(self),
                depth == chain_len(start),
                read_ends(start, lim),
                jlim == at_most_five(lim),
                self.errs == errs_after(start.errs, attempt as nat),
                self.ops == ops_after(start.ops, attempt as nat),
                self.label == start.label,
                self.journal == journal_after(start.journal, attempt as nat, jlim, depth),
                out@ == old(out)@,
            ensures
                attempt == failures(start.errs, lim),
                read_succeeds(start.errs, lim),
                attempt < usize::MAX,
                self.errs == errs_after(start.errs, attempt as nat),
                self.ops == ops_after(start.ops, attempt as nat),
                self.label == start.label,
                self.journal == journal_after(start.journal, attempt as nat, jlim, depth),
                out@ == old(out)@,
            decreases failures(start.errs, lim) - attempt,
        {
            if self.errs == 0 {
                break;
            }
            self.ops = self.ops.wrapping_add(1);
            if self.errs != usize::MAX {
                self.errs = self.errs - 1;
            }
            match self.journal.take() {
                Some(mut jd) => {
                    proof {
                        let j = *start.journal->Some_0;
                        lemma_reads_depth(j, attempt as nat, jlim, (depth - 1) as nat);
                    }
                    let mut tb: Vec<u8> = vec![0u8; 8];
                    let _jr = jd.read_block_n(blk, tb.as_mut_slice(), jlim);
                    self.journal = Some(jd);
                },
                None => {},
            }
            attempt = attempt + 1;
            if lim > 0 && attempt >= lim {
                return Err("limit");
            }
        }
        self.ops = self.ops.wrapping_add(1);
        let len = out.len();
        let mut i: usize = 0;
        while i < len
            invariant
                i <= len == out@.len(),
                out@.len() == old(out)@.len(),
                forall|k: int| 0 <= k < i ==> #[trigger] out@[k] == pattern_byte(k),
            decreases len - i,
        {
            out[i] = 0xAAu8 ^ ((i % 256) as u8);
            i = i + 1;
        }
        assert(out@ =~= Seq::new(old(out)@.len(), |i: int| pattern_byte(i)));
        Ok(attempt + 1)
    }

    pub fn total_ops(&self) -> (r: usize)
        ensures
            r == self.ops,
    {
        self.ops
    }

    pub fn reset_ops(&mut self)
        ensures
            *final(self) == (Disk { ops: 0, ..*old(self) }),
    {
        self.ops = 0;
    }

    /// Writes a block with one attempt.
    pub fn write_block(&mut self, _blk: u64, _data: &[u8]) -> (r: Result<(), &'static str>)
        ensures
            *final(self) == (Disk {
                ops: old(self).ops.wrapping_add(1),
                errs: if old(self).errs == 0 {
                    0
                } else {
                    errs_after(old(self).errs, 1)
                },
                ..*old(self)
            }),
            r == if old(self).errs == 0 {
                Ok::<(), &'static str>(())
            } else {
                Err("io_error")
            },
    {
        self.ops = self.ops.wrapping_add(1);
        if self.errs != 0 {
            if self.errs != usize::MAX {
                self.errs = self.errs - 1;
            }
            return Err("io_error");
        }
        Ok(())
    }

    /// Counts as one operation, on the disk and on its journal.
    pub fn flush(&mut self) -> (r: Result<(), &'static str>)
        ensures
            r is Ok,
            *final(self) == (Disk {
                ops: old(self).ops.wrapping_add(1),
                journal: match old(self).journal {
                    None => None,
                    Some(j) => Some(Box::new(Disk { ops: j.ops.wrapping_add(1), ..*j })),
                },
                ..*old(self)
            }),
    {
        self.ops = self.ops.wrapping_add(1);
        match self.journal.take() {
            Some(mut j) => {
                j.ops = j.ops.wrapping_add(1);
                self.journal = Some(j);
            },
            None => {},
        }
        Ok(())
    }
}

/// A limited read always ends.
pub proof fn lemma_limited_read_ends(d: Disk, lim: usize)
    requires
        lim > 0,
    ensures
        read_ends(d, lim),
    decreases d,
{
    match d.journal {
        None => {},
        Some(j) => {
            lemma_limited_read_ends(*j, at_most_five(lim));
        },
    }
}

/// A disk with `n` faults answers the first `n` writes with an error and then
/// succeeds; a fault that never ends is never used up.
pub proof fn lemma_faults_run_out(errs: usize)
    ensures
        errs == usize::MAX ==> errs_after(errs, 1) == errs,
        0 < errs < usize::MAX ==> errs_after(errs, 1) == errs - 1,
        forall|lim: usize| lim > 0 ==> !#[trigger] read_succeeds(usize::MAX, lim),
{
}

/// Going down, the request that is served is the highest one at or below the head, as
/// long as there is one.
pub proof fn lemma_elevator_order_down(s: Seq<IoRequest>, head: u64, i: int, k: int)
    requires
        is_nearest(s, false, head, i),
        0 <= k < s.len(),
        s[k].block <= head,
        head - s[k].block < u64::MAX as int / 2,
    ensures
        s[k].block <= s[i].block <= head,
{
}

/// Of two requests for the same block the one that came first is served.
pub proof fn lemma_elevator_is_fair(s: Seq<IoRequest>, up: bool, head: u64, i: int, k: int)
    requires
        is_nearest(s, up, head, i),
        0 <= k < s.len(),
        s[k].block == s[i].block,
    ensures
        i <= k,
{
}

/// The head keeps its direction as long as a request lies ahead of the one just served,
/// and turns round once none does.
pub proof fn lemma_elevator_turns(rest: Seq<IoRequest>, head: u64, block: u64)
    ensures
        block >= head ==> (direction_after(rest, true, head, block) <==> exists|k: int|
            0 <= k < rest.len() && (#[trigger] rest[k]).block >= block),
        block <= head ==> (!direction_after(rest, false, head, block) <==> exists|k: int|
            0 <= k < rest.len() && (#[trigger] rest[k]).block <= block),
{
    if block <= head && !direction_after(rest, false, head, block) {
        let k = choose|k: int| 0 <= k < rest.len() && !((#[trigger] rest[k]).block > block);
        assert(rest[k].block <= block);
    }
}

/// Merging keeps the first request, invents none, and leaves no two neighbours of which
/// one asks for the block behind that of the other in the same direction of transfer.
pub proof fn lemma_merged_queue(s: Seq<IoRequest>, i: int)
    requires
        0 <= i < merged_queue(s).len(),
    ensures
        s.len() > 0,
        merged_queue(s)[0] == s[0],
        merged_queue(s).len() <= s.len(),
        s.contains(merged_queue(s)[i]),
        i + 1 < merged_queue(s).len() ==> !(merged_queue(s)[i].block + 1 == merged_queue(s)[i
            + 1].block && merged_queue(s)[i].write == merged_queue(s)[i + 1].write),
    decreases s.len(),
{
    if s.len() > 0 {
        let rest = s.drop_last();
        let front = merged_queue(rest);
        let m = merged_queue(s);
        if front.len() > 0 {
            let j = if i < front.len() {
                i
            } else {
                front.len() - 1
            };
            lemma_merged_queue(rest, j);
            lemma_merged_queue(rest, 0);
            if i < front.len() {
                let k = choose|k: int| 0 <= k < rest.len() && rest[k] == front[i];
                assert(s[k] == m[i]);
            } else {
                assert(s[s.len() - 1] == m[i]);
            }
            assert(rest[0] == s[0]);
        } else {
            lemma_merged_empty(rest);
            assert(s[0] == m[0]);
        }
    }
}

proof fn lemma_merged_empty(s: Seq<IoRequest>)
    ensures
        merged_queue(s).len() == 0 ==> s.len() == 0,
    decreases s.len(),
{
    if s.len() > 0 {
        lemma_merged_empty(s.drop_last());
    }
}

/// A request goes exactly if it asks for the block behind that of the one kept last,
/// in the same direction of transfer.
pub proof fn lemma_merge_next(s: Seq<IoRequest>, r: IoRequest)
    ensures
        ({
            let m = merged_queue(s);
            let n = merged_queue(s.push(r));
            if m.len() > 0 && m.last().block + 1 == r.block && m.last().write == r.write {
                n == m
            } else {
                n == m.push(r)
            }
        }),
{
    assert(s.push(r).drop_last() =~= s);
}

/// A read that may try `lim` times succeeds exactly if fewer faults are waiting, and
/// tries no more often than that; each fault is met once, and every try counts.
pub proof fn lemma_read_tries(errs: usize, lim: usize)
    requires
        errs < usize::MAX,
    ensures
        lim > 0 ==> (read_succeeds(errs, lim) <==> errs < lim),
        lim == 0 ==> read_succeeds(errs, lim),
        lim > 0 ==> failures(errs, lim) <= lim,
        read_succeeds(errs, lim) ==> failures(errs, lim) == errs && errs_after(
            errs,
            failures(errs, lim),
        ) == 0,
        !read_succeeds(errs, lim) ==> failures(errs, lim) == lim && errs_after(
            errs,
            failures(errs, lim),
        ) == errs - lim,
{
}

/// Every operation counts once.
pub proof fn lemma_operations_count(ops: usize, n: nat)
    requires
        ops + n <= usize::MAX,
    ensures
        ops_after(ops, n) == ops + n,
    decreases n,
{
    if n > 0 {
        lemma_operations_count(ops, (n - 1) as nat);
    }
}

/// A read does not change what the disk is, only its faults, its count and its journal;
/// the journal is read as often as the read failed.
pub proof fn lemma_read_counts(d: Disk, lim: usize, depth: nat)
    requires
        d.errs < usize::MAX,
        d.ops + d.errs + 1 <= usize::MAX,
    ensures
        one_read(d, lim, depth).label == d.label,
        one_read(d, lim, depth).errs <= d.errs,
        one_read(d, lim, depth).ops == d.ops + (d.errs - one_read(d, lim, depth).errs) + if lim == 0
            || d.errs < lim {
            1int
        } else {
            0int
        },
        d.errs == 0 && (d.journal is None || depth > 0) ==> one_read(d, lim, depth).journal
            == d.journal,
{
    lemma_operations_count(d.ops, failures(d.errs, lim));
    lemma_operations_count(d.ops, failures(d.errs, lim) + 1);
}

/// A limit is handed on to the journal up to five.
pub proof fn lemma_limit_is_handed_on(lim: usize)
    ensures
        lim <= 5 ==> at_most_five(lim) == lim,
        lim >= 5 ==> at_most_five(lim) == 5,
{
}

/// A disk without a journal has no chain, and each journal makes it longer by one.
pub proof fn lemma_journals_make_a_chain(d: Disk, j: Box<Disk>)
    ensures
        d.journal is None ==> chain_len(d) == 0,
        d.journal == Some(j) ==> chain_len(d) == chain_len(*j) + 1,
{
}

/// The pattern that a read leaves repeats after 256 bytes.
pub proof fn lemma_pattern_repeats(i: int)
    requires
        0 <= i,
    ensures
        pattern_byte(i + 256) == pattern_byte(i),
        pattern_byte(0) == 0xAA,
{
    assert(0xAAu8 ^ 0u8 == 0xAAu8) by (bit_vector);
}

/// The journal is read once for each failed attempt, and not at all by a read that does
/// not fail.
pub proof fn lemma_journal_is_read(d: Box<Disk>, n: nat, lim: usize, depth: nat)
    requires
        depth > 0,
    ensures
        journal_after(None, n, lim, depth) is None,
        journal_after(Some(d), 0, lim, depth) == Some(d),
        journal_after(Some(d), n + 1, lim, depth) matches Some(after) && *after == one_read(
            reads(*d, n, lim, (depth - 1) as nat),
            lim,
            (depth - 1) as nat,
        ),
{
    assert(*Box::new(reads(*d, 0, lim, (depth - 1) as nat)) == *d);
}

} // verus!
