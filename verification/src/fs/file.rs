//! What a file descriptor can name.
use crate::fs::pipe::PipeNode;
use vstd::prelude::*;

verus! {

/// The mode of an open file.
#[derive(Clone, Copy, Debug, PartialEq, Eq, Structural)]
pub struct FdOpt {
    pub rd: bool,
    pub wr: bool,
    pub ap: bool,
    pub nb: bool,
}

/// An open file.
pub struct FHandle {
    pub path: String,
    pub opt: FdOpt,
    pub pipe: bool,
    /// Closed when a program is started.
    pub cloexec: bool,
}

impl FHandle {
    pub fn new(path: &str, opt: FdOpt, pipe: bool, cloexec: bool) -> (r: Self)
        ensures
            r.path@ == path@,
            r.opt == opt,
            r.pipe == pipe,
            r.cloexec == cloexec,
    {
        Self { path: path.to_owned(), opt, pipe, cloexec }
    }

    /// Another descriptor for the same file.
    pub fn dup(&self, cloexec: bool) -> (r: Self)
        ensures
            r == (FHandle { cloexec, ..*self }),
    {
        Self { path: self.path.clone(), opt: self.opt, pipe: self.pipe, cloexec }
    }
}

/// An epoll instance: the registered descriptors with their event masks, and which
/// sets of ready and newly changed descriptors it uses.
pub struct EpInst {
    pub events: Vec<(u64, u32)>,
    pub ready: usize,
    pub new_ctl: usize,
}

impl EpInst {
    /// A copy with the same registrations, on the same sets.
    pub fn copy(&self) -> (r: Self)
        ensures
            r.events@ == self.events@,
            r.ready == self.ready,
            r.new_ctl == self.new_ctl,
    {
        let mut events: Vec<(u64, u32)> = Vec::new();
        let mut i: usize = 0;
        while i < self.events.len()
            invariant
                i <= self.events@.len(),
                events@ == self.events@.take(i as int),
            decreases self.events@.len() - i,
        {
            events.push(self.events[i]);
            i = i + 1;
            assert(events@ =~= self.events@.take(i as int));
        }
        assert(self.events@.take(i as int) =~= self.events@);
        EpInst { events, ready: self.ready, new_ctl: self.new_ctl }
    }
}

/// An entry of a descriptor table.
pub enum FLike {
    File(FHandle),
    Pipe(PipeNode),
    Ep(EpInst),
}

/// `b` is the same epoll instance as `a`.
pub open spec fn same_ep(a: EpInst, b: EpInst) -> bool {
    b.events@ == a.events@ && b.ready == a.ready && b.new_ctl == a.new_ctl
}

/// `b` names what `a` names; a file has the given close-on-exec flag.
pub open spec fn dup_of(a: FLike, b: FLike, cloexec: bool) -> bool {
    match (a, b) {
        (FLike::File(f), FLike::File(g)) => g == (FHandle { cloexec, ..f }),
        (FLike::Pipe(p), FLike::Pipe(q)) => p == q,
        (FLike::Ep(e), FLike::Ep(g)) => same_ep(e, g),
        _ => false,
    }
}

/// `b` is a copy of `a`.
pub open spec fn copy_of(a: FLike, b: FLike) -> bool {
    match (a, b) {
        (FLike::File(f), FLike::File(g)) => f == g,
        (FLike::Pipe(p), FLike::Pipe(q)) => p == q,
        (FLike::Ep(e), FLike::Ep(g)) => same_ep(e, g),
        _ => false,
    }
}

/// The pipe that an entry names.
pub open spec fn pipe_of(f: FLike) -> Option<PipeNode> {
    match f {
        FLike::Pipe(p) => Some(p),
        _ => None,
    }
}

impl FLike {
    pub fn dup(&self, cloexec: bool) -> (r: FLike)
        ensures
            dup_of(*self, r, cloexec),
    {
        match self {
            FLike::File(f) => FLike::File(f.dup(cloexec)),
            FLike::Pipe(p) => FLike::Pipe(*p),
            FLike::Ep(e) => FLike::Ep(e.copy()),
        }
    }

    pub fn copy(&self) -> (r: FLike)
        ensures
            copy_of(*self, r),
    {
        match self {
            FLike::File(f) => FLike::File(f.dup(f.cloexec)),
            FLike::Pipe(p) => FLike::Pipe(*p),
            FLike::Ep(e) => FLike::Ep(e.copy()),
        }
    }
}

/// A copy of an entry is the same file with the same options, or the same end of the
/// same pipe; only whether it is closed when a program starts is its own.
pub proof fn lemma_dup_keeps_file(a: FLike, b: FLike, cloexec: bool)
    requires
        dup_of(a, b, cloexec),
    ensures
        a is File <==> b is File,
        a is Pipe <==> b is Pipe,
        a is Ep <==> b is Ep,
        a matches FLike::File(f) ==> b matches FLike::File(g) && g.path@ == f.path@ && g.opt == f.opt
            && g.pipe == f.pipe && g.cloexec == cloexec,
        a matches FLike::Pipe(p) ==> b matches FLike::Pipe(q) && q.data == p.data && q.dir == p.dir,
        pipe_of(a) == pipe_of(b),
        pipe_of(a) is Some <==> a is Pipe,
{
}

} // verus!
