//! Process groups.
use crate::bits;
use crate::bits::to_signed;
use crate::process::table;
use crate::process::table::{signal_each, TaskTable};
use crate::process::task::TaskRef;
use crate::process::thread::Pgid;
use crate::seqs;
use vstd::prelude::*;

verus! {

broadcast use vstd::std_specs::btree::group_btree_axioms;

/// A group of tasks, with the id of its leader.
pub struct ProcessGroup {
    pub pgid: Pgid,
    pub leader: u64,
    /// The ids of the members.
    pub members: Vec<u64>,
    pub session_id: u64,
    pub foreground: bool,
}

/// The members that are in the table.
pub open spec fn present(members: Seq<u64>, tasks: TaskTable) -> Seq<usize> {
    table::tasks_of(tasks.map@, members.filter(|id: u64| tasks.map@.contains_key(id)))
}

impl ProcessGroup {
    pub fn new(pgid: Pgid, leader: u64, session: u64) -> (r: Self)
        ensures
            r.pgid == pgid,
            r.leader == leader,
            r.members@ == seq![leader],
            r.session_id == session,
            !r.foreground,
    {
        let mut members: Vec<u64> = Vec::new();
        members.push(leader);
        assert(members@ =~= seq![leader]);
        Self { pgid, leader, members, session_id: session, foreground: false }
    }

    fn has(&self, pid: u64) -> (r: bool)
        ensures
            r == self.members@.contains(pid),
    {
        let mut i: usize = 0;
        while i < self.members.len()
            invariant
                i <= self.members@.len(),
                forall|k: int| 0 <= k < i ==> self.members@[k] != pid,
            decreases self.members@.len() - i,
        {
            if self.members[i] == pid {
                return true;
            }
            i = i + 1;
        }
        false
    }

    /// Adds a member, unless it is one.
    pub fn add_member(&mut self, pid: u64)
        ensures
            *final(self) == (ProcessGroup { members: final(self).members, ..*old(self) }),
            final(self).members@ == if old(self).members@.contains(pid) {
                old(self).members@
            } else {
                old(self).members@.push(pid)
            },
    {
        if !self.has(pid) {
            self.members.push(pid);
        }
    }

    /// Removes a member; says whether it was one.
    pub fn remove_member(&mut self, pid: u64) -> (r: bool)
        ensures
            *final(self) == (ProcessGroup { members: final(self).members, ..*old(self) }),
            final(self).members@ == old(self).members@.filter(|m: u64| m != pid),
            r == old(self).members@.contains(pid),
    {
        let found = self.has(pid);
        let ghost all = self.members@;
        let ghost p = |m: u64| m != pid;
        let mut kept: Vec<u64> = Vec::new();
        let mut i: usize = 0;
        proof {
            reveal(Seq::filter);
            assert(all.take(0) =~= Seq::<u64>::empty());
        }
        while i < self.members.len()
            invariant
                i <= self.members@.len(),
                *self == *old(self),
                all == self.members@,
                p == (|m: u64| m != pid),
                kept@ == all.take(i as int).filter(p),
            decreases self.members@.len() - i,
        {
            let m: u64 = self.members[i];
            proof {
                seqs::lemma_filter_step(all, i as int, p);
            }
            if m != pid {
                kept.push(m);
            }
            i = i + 1;
        }
        assert(all.take(i as int) =~= all);
        self.members = kept;
        found
    }

    pub fn is_empty(&self) -> (r: bool)
        ensures
            r == (self.members@.len() == 0),
    {
        self.members.len() == 0
    }

    pub fn member_count(&self) -> (r: usize)
        ensures
            r == self.members@.len(),
    {
        self.members.len()
    }

    pub fn is_leader(&self, pid: u64) -> (r: bool)
        ensures
            r == (self.leader == pid),
    {
        self.leader == pid
    }

    pub fn set_foreground(&mut self, fg: bool)
        ensures
            *final(self) == (ProcessGroup { foreground: fg, ..*old(self) }),
    {
        self.foreground = fg;
    }

    pub fn is_foreground(&self) -> (r: bool)
        ensures
            r == self.foreground,
    {
        self.foreground
    }

    /// Sends a signal from the leader to every member that is in the table.
    pub fn broadcast_signal(&self, signo: i32, tasks: &mut TaskTable)
        requires
            old(tasks).wf(),
        ensures
            final(tasks).wf(),
            *final(tasks) == (TaskTable { store: final(tasks).store, ..*old(tasks) }),
            table::all_signalled(
                old(tasks).store@,
                final(tasks).store@,
                present(self.members@, *old(tasks)),
                signo,
                bits::signed_word(self.leader) as i64,
            ),
    {
        let ghost all = self.members@;
        let ghost map = tasks.map@;
        let ghost q = |id: u64| old(tasks).map@.contains_key(id);
        let mut list: Vec<TaskRef> = Vec::new();
        let mut i: usize = 0;
        proof {
            reveal(Seq::filter);
            assert(all.take(0) =~= Seq::<u64>::empty());
            assert(list@ =~= table::tasks_of(map, all.take(0).filter(q)));
        }
        while i < self.members.len()
            invariant
                i <= self.members@.len(),
                all == self.members@,
                *tasks == *old(tasks),
                tasks.wf(),
                map == tasks.map@,
                q == (|id: u64| old(tasks).map@.contains_key(id)),
                list@ == table::tasks_of(map, all.take(i as int).filter(q)),
                forall|k: int| 0 <= k < list@.len() ==> #[trigger] list@[k] < tasks.store@.len(),
            decreases self.members@.len() - i,
        {
            let pid: u64 = self.members[i];
            proof {
                seqs::lemma_filter_step(all, i as int, q);
            }
            if let Some(t) = tasks.find(pid) {
                assert(map.contains_key(pid));
                list.push(t);
            }
            assert(list@ =~= table::tasks_of(map, all.take(i + 1).filter(q)));
            i = i + 1;
        }
        assert(all.take(i as int) =~= all);
        let leader: i64 = to_signed(self.leader);
        signal_each(&mut tasks.store, &list, signo, leader);
        proof {
            table::lemma_signalled_links(
                old(tasks).store@,
                tasks.store@,
                list@,
                signo,
                leader,
            );
        }
    }
}

/// Adding keeps the members apart, and a member that was added is one.
pub proof fn lemma_members_stay_unique(before: Seq<u64>, after: Seq<u64>, pid: u64)
    requires
        before.no_duplicates(),
        after == if before.contains(pid) {
            before
        } else {
            before.push(pid)
        },
    ensures
        after.no_duplicates(),
        after.contains(pid),
{
    if !before.contains(pid) {
        assert(after[before.len() as int] == pid);
    }
}

/// A member that was removed is none.
pub proof fn lemma_removed_is_gone(before: Seq<u64>, pid: u64)
    ensures
        !before.filter(|m: u64| m != pid).contains(pid),
{
    broadcast use vstd::seq_lib::group_filter_ensures;

    let p = |m: u64| m != pid;
    let after = before.filter(p);
    if after.contains(pid) {
        let k = choose|k: int| 0 <= k < after.len() && after[k] == pid;
        assert(p(after[k]));
    }
}

/// A signal to a group reaches exactly the members that are still in the table.
pub proof fn lemma_broadcast_reaches_members(members: Seq<u64>, tasks: TaskTable, j: int)
    ensures
        table::has_index(present(members, tasks), j) <==> exists|id: u64|
            members.contains(id) && #[trigger] tasks.map@.contains_key(id) && tasks.map@[id] == j,
{
    let f = |id: u64| tasks.map@.contains_key(id);
    let ids = members.filter(f);
    table::lemma_tasks_of_ids(tasks.map@, ids, j);
    if table::has_index(present(members, tasks), j) {
        let id = choose|id: u64| #[trigger] ids.contains(id) && tasks.map@[id] == j;
        table::lemma_filter_member(members, f, id);
        assert(tasks.map@.contains_key(id));
    }
    if exists|id: u64|
        members.contains(id) && #[trigger] tasks.map@.contains_key(id) && tasks.map@[id] == j {
        let id = choose|id: u64|
            members.contains(id) && #[trigger] tasks.map@.contains_key(id) && tasks.map@[id] == j;
        table::lemma_filter_member(members, f, id);
        assert(ids.contains(id));
    }
}

} // verus!
