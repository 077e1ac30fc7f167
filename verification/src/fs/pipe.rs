//! Pipes: byte queues with two ends.
use crate::sync::event_bus;
use crate::sync::event_bus::{EventBus, EventFlag};
use std::collections::VecDeque;
use vstd::prelude::*;

verus! {

/// Which end of a pipe a node is.
#[derive(Clone, Copy, Debug, PartialEq, Eq, Structural)]
pub enum PipeDir {
    Rd,
    Wr,
}

/// What the two ends of a pipe share.
pub struct PipeBuf {
    pub buf: VecDeque<u8>,
    pub event_bus: EventBus,
    /// How many ends are open.
    pub ends: i32,
}

/// The pipes of the system. A node names its pipe by index; pipes are never
/// removed.
pub struct PipeTable {
    pub pipes: Vec<PipeBuf>,
}

impl View for PipeTable {
    type V = Seq<PipeBuf>;

    open spec fn view(&self) -> Seq<PipeBuf> {
        self.pipes@
    }
}

/// One end of a pipe. Copies of a node do not count as ends, but each one that is
/// closed takes an end away.
#[derive(Clone, Copy, Debug, PartialEq, Eq, Structural)]
pub struct PipeNode {
    pub data: usize,
    pub dir: PipeDir,
}

/// Only the pipe at `i` may differ.
pub open spec fn others_same(before: Seq<PipeBuf>, after: Seq<PipeBuf>, i: int) -> bool {
    &&& after.len() == before.len()
    &&& forall|j: int| 0 <= j < before.len() && j != i ==> #[trigger] after[j] == before[j]
}

/// A pipe after one of its ends has been closed.
pub open spec fn end_closed(before: PipeBuf, after: PipeBuf) -> bool {
    &&& after.buf@ == before.buf@
    &&& after.ends == before.ends - 1
    &&& event_bus::bus_moved(
        before.event_bus,
        after.event_bus,
        before.event_bus.flags | EventFlag::CLOSED,
    )
}

pub open spec fn lesser(a: nat, b: nat) -> nat {
    if a <= b {
        a
    } else {
        b
    }
}

/// A pipe after `n` bytes have been read.
pub open spec fn bytes_read(before: PipeBuf, after: PipeBuf, n: nat) -> bool {
    &&& after.buf@ == before.buf@.skip(n as int)
    &&& after.ends == before.ends
    &&& if n == before.buf@.len() {
        event_bus::bus_moved(
            before.event_bus,
            after.event_bus,
            before.event_bus.flags & !EventFlag::READABLE,
        )
    } else {
        after.event_bus == before.event_bus
    }
}

/// A pipe after bytes have been written.
pub open spec fn bytes_written(before: PipeBuf, after: PipeBuf, data: Seq<u8>) -> bool {
    &&& after.buf@ == before.buf@ + data
    &&& after.ends == before.ends
    &&& event_bus::bus_moved(
        before.event_bus,
        after.event_bus,
        before.event_bus.flags | EventFlag::READABLE,
    )
}

/// A read would find bytes, or the end of the stream.
pub open spec fn readable(p: PipeBuf) -> bool {
    p.buf@.len() > 0 || p.ends < 2
}

impl PipeTable {
    pub fn new() -> (r: Self)
        ensures
            r@ == Seq::<PipeBuf>::empty(),
    {
        Self { pipes: Vec::new() }
    }
}

impl PipeNode {
    pub open spec fn wf(&self, pipes: Seq<PipeBuf>) -> bool {
        self.data < pipes.len()
    }

    /// A new pipe: its reading and its writing end.
    pub fn pair(table: &mut PipeTable) -> (r: (PipeNode, PipeNode))
        ensures
            r.0 == (PipeNode { data: old(table)@.len() as usize, dir: PipeDir::Rd }),
            r.1 == (PipeNode { data: old(table)@.len() as usize, dir: PipeDir::Wr }),
            r.0.wf(final(table)@),
            final(table)@.len() == old(table)@.len() + 1,
            forall|j: int| 0 <= j < old(table)@.len() ==> #[trigger] final(table)@[j] == old(table)@[j],
            ({
                let p = final(table)@.last();
                &&& p.buf@ == Seq::<u8>::empty()
                &&& p.ends == 2
                &&& p.event_bus.flags == 0
                &&& p.event_bus.callbacks@.len() == 0
            }),
    {
        let inner = PipeBuf { buf: VecDeque::new(), event_bus: EventBus::make(), ends: 2 };
        let data = table.pipes.len();
        table.pipes.push(inner);
        (PipeNode { data, dir: PipeDir::Rd }, PipeNode { data, dir: PipeDir::Wr })
    }

    /// Closes the node: the pipe loses an end and announces it.
    pub fn close(self, table: &mut PipeTable)
        requires
            self.wf(old(table)@),
            old(table)@[self.data as int].ends > i32::MIN,
        ensures
            others_same(old(table)@, final(table)@, self.data as int),
            end_closed(old(table)@[self.data as int], final(table)@[self.data as int]),
    {
        let i = self.data;
        table.pipes[i].ends = table.pipes[i].ends - 1;
        table.pipes[i].event_bus.set_flags(EventFlag::CLOSED);
    }

    pub fn can_read(&self, table: &PipeTable) -> (r: bool)
        requires
            self.wf(table@),
        ensures
            r == (self.dir == PipeDir::Rd && readable(table@[self.data as int])),
    {
        if self.dir != PipeDir::Rd {
            return false;
        }
        let d = &table.pipes[self.data];
        d.buf.len() > 0 || d.ends < 2
    }

    pub fn can_write(&self, table: &PipeTable) -> (r: bool)
        requires
            self.wf(table@),
        ensures
            r == (self.dir == PipeDir::Wr && table@[self.data as int].ends == 2),
    {
        if self.dir != PipeDir::Wr {
            return false;
        }
        table.pipes[self.data].ends == 2
    }

    /// Reads bytes in the order in which they were written. Reading nothing, or
    /// from the writing end, gives 0 bytes; an empty pipe with both ends open has
    /// to be tried again.
    pub fn read_at(&self, table: &mut PipeTable, buf: &mut [u8]) -> (r: Result<usize, &'static str>)
        requires
            self.wf(old(table)@),
        ensures
            final(buf)@.len() == old(buf)@.len(),
            ({
                let i = self.data as int;
                let p = old(table)@[i];
                let n = lesser(old(buf)@.len(), p.buf@.len());
                if old(buf)@.len() == 0 || self.dir != PipeDir::Rd {
                    &&& r == Ok::<usize, &'static str>(0)
                    &&& final(table)@ == old(table)@
                    &&& final(buf)@ == old(buf)@
                } else if p.buf@.len() == 0 && p.ends == 2 {
                    &&& r == Err::<usize, &'static str>("again")
                    &&& final(table)@ == old(table)@
                    &&& final(buf)@ == old(buf)@
                } else {
                    &&& r == Ok::<usize, &'static str>(n as usize)
                    &&& others_same(old(table)@, final(table)@, i)
                    &&& bytes_read(p, final(table)@[i], n)
                    &&& final(buf)@ == p.buf@.take(n as int) + old(buf)@.skip(n as int)
                }
            }),
    {
        if buf.len() == 0 {
            return Ok(0);
        }
        if self.dir != PipeDir::Rd {
            return Ok(0);
        }
        let at = self.data;
        if table.pipes[at].buf.len() == 0 && table.pipes[at].ends == 2 {
            return Err("again");
        }
        let ghost p = table@[at as int];
        let have = table.pipes[at].buf.len();
        let n: usize = if buf.len() < have {
            buf.len()
        } else {
            have
        };
        let mut i: usize = 0;
        let ghost start = buf@;
        let ghost before = table@;
        assert(buf@ =~= p.buf@.take(0) + start.skip(0));
        assert(p.buf@.skip(0) =~= p.buf@);
        while i < n
            invariant
                i <= n,
                n <= p.buf@.len(),
                n <= start.len(),
                at < before.len(),
                p == before[at as int],
                others_same(before, table@, at as int),
                table@[at as int].buf@ == p.buf@.skip(i as int),
                table@[at as int].ends == p.ends,
                table@[at as int].event_bus == p.event_bus,
                buf@.len() == start.len(),
                buf@ == p.buf@.take(i as int) + start.skip(i as int),
            decreases n - i,
        {
            match table.pipes[at].buf.pop_front() {
                Some(b) => {
                    buf[i] = b;
                },
                None => {},
            }
            i = i + 1;
            assert(table@[at as int].buf@ =~= p.buf@.skip(i as int));
            assert(buf@ =~= p.buf@.take(i as int) + start.skip(i as int));
        }
        if table.pipes[at].buf.len() == 0 {
            table.pipes[at].event_bus.clear_flags(EventFlag::READABLE);
        }
        Ok(n)
    }

    /// Appends bytes. Writing to the reading end writes nothing. A pipe takes any
    /// number of bytes, whether or not its reading end is open.
    pub fn write_at(&self, table: &mut PipeTable, buf: &[u8]) -> (r: Result<usize, &'static str>)
        requires
            self.wf(old(table)@),
        ensures
            ({
                let i = self.data as int;
                if self.dir != PipeDir::Wr {
                    r == Ok::<usize, &'static str>(0) && final(table)@ == old(table)@
                } else {
                    &&& r == Ok::<usize, &'static str>(buf@.len() as usize)
                    &&& others_same(old(table)@, final(table)@, i)
                    &&& bytes_written(old(table)@[i], final(table)@[i], buf@)
                }
            }),
    {
        if self.dir != PipeDir::Wr {
            return Ok(0);
        }
        let at = self.data;
        let ghost p = table@[at as int];
        let ghost before = table@;
        let mut i: usize = 0;
        assert(p.buf@ =~= p.buf@ + buf@.take(0));
        while i < buf.len()
            invariant
                i <= buf@.len(),
                at < before.len(),
                p == before[at as int],
                others_same(before, table@, at as int),
                table@[at as int].buf@ == p.buf@ + buf@.take(i as int),
                table@[at as int].ends == p.ends,
                table@[at as int].event_bus == p.event_bus,
            decreases buf@.len() - i,
        {
            table.pipes[at].buf.push_back(buf[i]);
            i = i + 1;
            assert(table@[at as int].buf@ =~= p.buf@ + buf@.take(i as int));
        }
        assert(buf@.take(i as int) =~= buf@);
        table.pipes[at].event_bus.set_flags(EventFlag::READABLE);
        Ok(buf.len())
    }

    /// Whether the node can be read, can be written, and is in error.
    pub fn poll(&self, table: &PipeTable) -> (r: (bool, bool, bool))
        requires
            self.wf(table@),
        ensures
            r == (
                self.dir == PipeDir::Rd && readable(table@[self.data as int]),
                self.dir == PipeDir::Wr && table@[self.data as int].ends == 2,
                false,
            ),
    {
        (self.can_read(table), self.can_write(table), false)
    }
}

/// What is written to an empty pipe is read back unchanged, up to the length of the
/// reading buffer, and the rest stays for the next read.
pub proof fn lemma_read_gives_back_write(
    empty: PipeBuf,
    full: PipeBuf,
    after: PipeBuf,
    data: Seq<u8>,
    n: nat,
)
    requires
        empty.buf@.len() == 0,
        bytes_written(empty, full, data),
        n <= data.len(),
        bytes_read(full, after, n),
    ensures
        full.buf@.take(n as int) == data.take(n as int),
        after.buf@ == data.skip(n as int),
{
    assert(full.buf@ =~= data);
}

/// Two writes are read in the order in which they were made.
pub proof fn lemma_writes_keep_order(
    a: PipeBuf,
    b: PipeBuf,
    c: PipeBuf,
    first: Seq<u8>,
    second: Seq<u8>,
)
    requires
        bytes_written(a, b, first),
        bytes_written(b, c, second),
    ensures
        c.buf@ == a.buf@ + first + second,
{
}

/// Once an end is closed, reading an empty pipe gives the end of the stream instead
/// of an error.
pub proof fn lemma_closed_pipe_is_readable(before: PipeBuf, after: PipeBuf)
    requires
        end_closed(before, after),
        before.ends <= 2,
    ensures
        readable(after),
        after.ends != 2,
{
}

/// What is read is what comes first, and the rest stays for the next read: two reads in
/// a row give what one would.
pub proof fn lemma_reads_in_steps(a: PipeBuf, b: PipeBuf, c: PipeBuf, m: nat, n: nat)
    requires
        bytes_read(a, b, m),
        bytes_read(b, c, n),
        m + n <= a.buf@.len(),
    ensures
        a.buf@.take(m as int) + b.buf@.take(n as int) == a.buf@.take((m + n) as int),
        c.buf@ == a.buf@.skip((m + n) as int),
        b.buf@.len() == a.buf@.len() - m,
        c.ends == a.ends,
{
    assert(a.buf@.take(m as int) + b.buf@.take(n as int) =~= a.buf@.take((m + n) as int));
    assert(c.buf@ =~= a.buf@.skip((m + n) as int));
}

/// A pipe can be read while it holds bytes, and, once an end is closed, also when it
/// holds none. Writing and reading open and close no end.
pub proof fn lemma_pipe_readiness(before: PipeBuf, after: PipeBuf, data: Seq<u8>)
    requires
        bytes_written(before, after, data),
        data.len() > 0,
    ensures
        readable(after),
        after.ends == before.ends,
        before.ends == 2 && before.buf@.len() == 0 ==> !readable(before),
        before.ends < 2 ==> readable(before),
{
}

/// The flags follow what a pipe does: readable once something is written, no longer so
/// once all is read, closed once an end is.
pub proof fn lemma_pipe_flags(a: PipeBuf, b: PipeBuf, data: Seq<u8>, c: PipeBuf, d: PipeBuf)
    requires
        bytes_written(a, b, data),
        bytes_read(b, c, b.buf@.len()),
        end_closed(c, d),
    ensures
        b.event_bus.flags & EventFlag::READABLE != 0,
        c.event_bus.flags & EventFlag::READABLE == 0,
        c.buf@.len() == 0,
        d.event_bus.flags & EventFlag::CLOSED != 0,
        d.ends == c.ends - 1,
        d.buf@ == c.buf@,
{
    let x = a.event_bus.flags;
    let y = c.event_bus.flags;
    assert((x | 1u32) & 1u32 != 0 && ((x | 1u32) & !1u32) & 1u32 == 0 && (y | 8u32) & 8u32 != 0)
        by (bit_vector);
}


} // verus!
