//! The block cache.
use crate::seqs;
use crate::sync::mutex::SpinLock;
use vstd::prelude::*;

verus! {

/// A cached block.
#[derive(Clone, Copy, Debug, PartialEq, Eq, Structural)]
pub struct CacheSlot {
    pub id: u64,
    pub modified: bool,
}

/// One chain of cached blocks with its lock.
pub struct CacheChain {
    pub lk: SpinLock,
    pub items: Vec<CacheSlot>,
}

/// Cached blocks, spread over chains by their id.
pub struct BlockCache {
    pub chains: Vec<CacheChain>,
    pub width: usize,
}

pub open spec fn is_modified() -> spec_fn(CacheSlot) -> bool {
    |s: CacheSlot| s.modified
}

/// Some block of the chain has this id.
pub open spec fn holds_id(items: Seq<CacheSlot>, id: u64) -> bool {
    exists|i: int| 0 <= i < items.len() && (#[trigger] items[i]).id == id
}

/// The chain with the first block of this id marked as modified.
pub open spec fn marked(items: Seq<CacheSlot>, id: u64) -> Seq<CacheSlot>
    decreases items.len(),
{
    if items.len() == 0 {
        items
    } else if items[0].id == id {
        items.update(0, CacheSlot { id, modified: true })
    } else {
        seq![items[0]] + marked(items.skip(1), id)
    }
}

/// The chain with no block marked as modified.
pub open spec fn all_clean(items: Seq<CacheSlot>) -> Seq<CacheSlot> {
    items.map_values(|s: CacheSlot| CacheSlot { modified: false, ..s })
}

pub open spec fn entries_in(s: Seq<Seq<CacheSlot>>) -> nat
    decreases s.len(),
{
    if s.len() == 0 {
        0
    } else {
        entries_in(s.drop_last()) + s.last().len()
    }
}

pub open spec fn dirty_in(s: Seq<Seq<CacheSlot>>) -> nat
    decreases s.len(),
{
    if s.len() == 0 {
        0
    } else {
        dirty_in(s.drop_last()) + s.last().filter(is_modified()).len()
    }
}

impl View for BlockCache {
    type V = Seq<Seq<CacheSlot>>;

    open spec fn view(&self) -> Seq<Seq<CacheSlot>> {
        self.chains@.map_values(|c: CacheChain| c.items@)
    }
}

proof fn lemma_marked(items: Seq<CacheSlot>, id: u64, at: int)
    requires
        0 <= at < items.len(),
        items[at].id == id,
        forall|k: int| 0 <= k < at ==> (#[trigger] items[k]).id != id,
    ensures
        marked(items, id) == items.update(at, CacheSlot { id, modified: true }),
    decreases items.len(),
{
    if at > 0 {
        assert(items[0].id != id);
        let t = items.skip(1);
        assert forall|k: int| 0 <= k < at - 1 implies (#[trigger] t[k]).id != id by {
            assert(t[k] == items[k + 1]);
        }
        lemma_marked(t, id, at - 1);
        let x = CacheSlot { id, modified: true };
        assert(items.update(at, x) =~= seq![items[0]] + t.update(at - 1, x));
    }
}

proof fn lemma_nothing_marked(items: Seq<CacheSlot>, id: u64)
    requires
        !holds_id(items, id),
    ensures
        marked(items, id) == items,
    decreases items.len(),
{
    if items.len() > 0 {
        assert(items[0].id != id);
        let t = items.skip(1);
        assert forall|k: int| 0 <= k < t.len() implies (#[trigger] t[k]).id != id by {
            assert(t[k] == items[k + 1]);
        }
        lemma_nothing_marked(t, id);
        assert(items =~= seq![items[0]] + t);
    }
}

impl CacheChain {
    fn position(&self, id: u64) -> (r: Option<usize>)
        ensures
            match r {
                Some(at) => {
                    &&& at < self.items@.len()
                    &&& self.items@[at as int].id == id
                    &&& forall|k: int| 0 <= k < at ==> (#[trigger] self.items@[k]).id != id
                },
                None => !holds_id(self.items@, id),
            },
    {
        let mut i: usize = 0;
        while i < self.items.len()
            invariant
                i <= self.items@.len(),
                forall|k: int| 0 <= k < i ==> (#[trigger] self.items@[k]).id != id,
            decreases self.items@.len() - i,
        {
            if self.items[i].id == id {
                return Some(i);
            }
            i = i + 1;
        }
        None
    }
}

impl BlockCache {
    /// There are chains, as many as the width says, and no chain is locked.
    pub open spec fn wf(&self) -> bool {
        &&& self.width == self.chains@.len()
        &&& self.width > 0
        &&& forall|i: int| 0 <= i < self.chains@.len() ==> !(#[trigger] self.chains@[i]).lk.locked
    }

    /// The chain of an id.
    pub open spec fn chain_of(&self, id: u64) -> int {
        id as int % self.width as int
    }

    /// A cache of empty chains.
    pub fn new(width: usize) -> (r: Self)
        requires
            width > 0,
        ensures
            r.wf(),
            r.width == width,
            r@ == Seq::new(width as nat, |i: int| Seq::<CacheSlot>::empty()),
    {
        let mut chains: Vec<CacheChain> = Vec::new();
        let mut i: usize = 0;
        while i < width
            invariant
                i <= width,
                chains@.len() == i,
                forall|k: int|
                    0 <= k < i ==> !(#[trigger] chains@[k]).lk.locked && chains@[k].items@
                        == Seq::<CacheSlot>::empty(),
            decreases width - i,
        {
            chains.push(CacheChain { lk: SpinLock::new(), items: Vec::new() });
            i = i + 1;
        }
        let r = Self { chains, width };
        assert(r@ =~= Seq::new(width as nat, |i: int| Seq::<CacheSlot>::empty()));
        r
    }

    fn chain_index(&self, id: u64) -> (r: usize)
        requires
            self.wf(),
        ensures
            r == self.chain_of(id),
            r < self.chains@.len(),
    {
        (id % (self.width as u64)) as usize
    }

    /// Whether a block is in its chain.
    pub fn contains(&self, id: u64) -> (r: bool)
        requires
            self.wf(),
        ensures
            r == holds_id(self@[self.chain_of(id)], id),
    {
        let ci = self.chain_index(id);
        assert(self@[ci as int] == self.chains@[ci as int].items@);
        match self.chains[ci].position(id) {
            Some(at) => {
                assert(self.chains@[ci as int].items@[at as int].id == id);
                true
            },
            None => false,
        }
    }

    /// Whether a block with this id in its chain is marked as modified.
    pub fn contains_modified(&self, id: u64) -> (r: bool)
        requires
            self.wf(),
        ensures
            r == exists|i: int|
                0 <= i < self@[self.chain_of(id)].len() && (
                #[trigger] self@[self.chain_of(id)][i]).id == id && self@[self.chain_of(
                    id,
                )][i].modified,
    {
        let ci = self.chain_index(id);
        let ghost items = self.chains@[ci as int].items@;
        assert(self@[self.chain_of(id)] == items);
        let mut i: usize = 0;
        while i < self.chains[ci].items.len()
            invariant
                i <= items.len(),
                ci < self.chains@.len(),
                items == self.chains@[ci as int].items@,
                self@[self.chain_of(id)] == items,
                forall|k: int|
                    0 <= k < i ==> !((#[trigger] items[k]).id == id && items[k].modified),
            decreases items.len() - i,
        {
            let slot: CacheSlot = self.chains[ci].items[i];
            if slot.id == id && slot.modified {
                assert(self@[self.chain_of(id)][i as int].id == id);
                return true;
            }
            i = i + 1;
        }
        false
    }

    /// Marks the first block with this id in its chain as modified.
    pub fn mark_modified(&mut self, id: u64)
        requires
            old(self).wf(),
        ensures
            final(self).wf(),
            final(self).width == old(self).width,
            final(self)@ == old(self)@.update(
                old(self).chain_of(id),
                marked(old(self)@[old(self).chain_of(id)], id),
            ),
    {
        let ci = self.chain_index(id);
        let ghost before = self@;
        let ghost items = self.chains@[ci as int].items@;
        assert(before[ci as int] == items);
        match self.chains[ci].position(id) {
            Some(at) => {
                proof {
                    lemma_marked(items, id, at as int);
                }
                self.chains[ci].items[at].modified = true;
                assert(self.chains@[ci as int].items@ =~= marked(items, id));
            },
            None => {
                proof {
                    lemma_nothing_marked(items, id);
                }
            },
        }
        assert(self@ =~= before.update(ci as int, marked(items, id)));
    }

    /// Drops the blocks with this id from its chain; says whether there was one.
    pub fn drop_id(&mut self, id: u64) -> (r: bool)
        requires
            old(self).wf(),
        ensures
            final(self).wf(),
            final(self).width == old(self).width,
            r == holds_id(old(self)@[old(self).chain_of(id)], id),
            final(self)@ == old(self)@.update(
                old(self).chain_of(id),
                old(self)@[old(self).chain_of(id)].filter(|s: CacheSlot| s.id != id),
            ),
    {
        let ci = self.chain_index(id);
        let ghost before = self@;
        let ghost items = self.chains@[ci as int].items@;
        let ghost keep = |s: CacheSlot| s.id != id;
        let ghost others = self.chains@;
        assert(before[ci as int] == items);
        let mut kept: Vec<CacheSlot> = Vec::new();
        let mut found = false;
        let mut i: usize = 0;
        proof {
            reveal(Seq::filter);
            assert(items.take(0) =~= Seq::<CacheSlot>::empty());
        }
        while i < self.chains[ci].items.len()
            invariant
                i <= items.len(),
                ci < self.chains@.len(),
                self.chains@ == others,
                *self == *old(self),
                items == self.chains@[ci as int].items@,
                keep == (|s: CacheSlot| s.id != id),
                kept@ == items.take(i as int).filter(keep),
                found == exists|k: int| 0 <= k < i && (#[trigger] items[k]).id == id,
            decreases items.len() - i,
        {
            proof {
                seqs::lemma_filter_step(items, i as int, keep);
            }
            let slot: CacheSlot = self.chains[ci].items[i];
            if slot.id != id {
                kept.push(slot);
            } else {
                found = true;
            }
            i = i + 1;
        }
        assert(items.take(i as int) =~= items);
        self.chains[ci].items = kept;
        assert(self@ =~= before.update(ci as int, items.filter(keep)));
        found
    }

    /// Clears every mark, chain by chain.
    pub fn clean_all(&mut self)
        requires
            old(self).wf(),
        ensures
            final(self).wf(),
            final(self).width == old(self).width,
            final(self)@ == old(self)@.map_values(|c: Seq<CacheSlot>| all_clean(c)),
    {
        let ghost before = self@;
        let mut ci: usize = 0;
        while ci < self.chains.len()
            invariant
                ci <= self.chains@.len() == before.len(),
                self.wf(),
                self.width == old(self).width,
                before == old(self)@,
                forall|k: int| 0 <= k < ci ==> #[trigger] self@[k] == all_clean(before[k]),
                forall|k: int| ci <= k < before.len() ==> #[trigger] self@[k] == before[k],
            decreases self.chains@.len() - ci,
        {
            let ghost all = self.chains@;
            let ghost was = self@;
            let ghost items = self.chains@[ci as int].items@;
            assert(self@[ci as int] == items);
            self.chains[ci].lk.acquire();
            let mut i: usize = 0;
            while i < self.chains[ci].items.len()
                invariant
                    ci < self.chains@.len() == all.len(),
                    i <= items.len(),
                    self.width == old(self).width,
                    self.chains@[ci as int].items@.len() == items.len(),
                    self.chains@[ci as int].lk.locked,
                    forall|k: int|
                        0 <= k < all.len() && k != ci ==> #[trigger] self.chains@[k] == all[k],
                    forall|k: int|
                        0 <= k < i ==> #[trigger] self.chains@[ci as int].items@[k] == (CacheSlot {
                            modified: false,
                            ..items[k]
                        }),
                    forall|k: int|
                        i <= k < items.len() ==> #[trigger] self.chains@[ci as int].items@[k]
                            == items[k],
                decreases items.len() - i,
            {
                self.chains[ci].items[i].modified = false;
                i = i + 1;
            }
            self.chains[ci].lk.release();
            proof {
                assert(self.chains@[ci as int].items@ =~= all_clean(items));
                assert forall|k: int| 0 <= k < before.len() && k != ci implies #[trigger] self@[k]
                    == was[k] by {
                    assert(self.chains@[k] == all[k]);
                }
                assert(self@[ci as int] == all_clean(before[ci as int]));
            }
            ci = ci + 1;
        }
        assert(self@ =~= before.map_values(|c: Seq<CacheSlot>| all_clean(c)));
    }

    /// How many blocks are cached.
    pub fn total_entries(&self) -> (r: usize)
        requires
            entries_in(self@) <= usize::MAX,
        ensures
            r == entries_in(self@),
    {
        let ghost s = self@;
        let mut total: usize = 0;
        let mut i: usize = 0;
        while i < self.chains.len()
            invariant
                i <= self.chains@.len(),
                s == self@,
                entries_in(s) <= usize::MAX,
                total == entries_in(s.take(i as int)),
            decreases self.chains@.len() - i,
        {
            proof {
                assert(s.take(i + 1).drop_last() =~= s.take(i as int));
                assert(s[i as int] == self.chains@[i as int].items@);
                lemma_entries_prefix(s, i + 1);
            }
            total = total + self.chains[i].items.len();
            i = i + 1;
        }
        assert(s.take(i as int) =~= s);
        total
    }

    /// How many cached blocks are marked as modified.
    pub fn dirty_count(&self) -> (r: usize)
        requires
            entries_in(self@) <= usize::MAX,
        ensures
            r == dirty_in(self@),
    {
        let ghost s = self@;
        let mut total: usize = 0;
        let mut i: usize = 0;
        while i < self.chains.len()
            invariant
                i <= self.chains@.len(),
                s == self@,
                entries_in(s) <= usize::MAX,
                total == dirty_in(s.take(i as int)),
                total <= entries_in(s.take(i as int)),
            decreases self.chains@.len() - i,
        {
            let ghost items = self.chains@[i as int].items@;
            let ghost base = total;
            proof {
                assert(s.take(i + 1).drop_last() =~= s.take(i as int));
                assert(s[i as int] == items);
                lemma_entries_prefix(s, i + 1);
                reveal(Seq::filter);
                assert(items.take(0) =~= Seq::<CacheSlot>::empty());
            }
            let mut j: usize = 0;
            while j < self.chains[i].items.len()
                invariant
                    i < self.chains@.len(),
                    items == self.chains@[i as int].items@,
                    j <= items.len(),
                    base + items.len() <= usize::MAX,
                    total == base + items.take(j as int).filter(is_modified()).len(),
                    total <= base + j,
                decreases items.len() - j,
            {
                proof {
                    seqs::lemma_filter_step(items, j as int, is_modified());
                }
                if self.chains[i].items[j].modified {
                    total = total + 1;
                }
                j = j + 1;
            }
            assert(items.take(j as int) =~= items);
            i = i + 1;
        }
        assert(s.take(i as int) =~= s);
        total
    }
}

proof fn lemma_entries_prefix(s: Seq<Seq<CacheSlot>>, i: int)
    requires
        0 <= i <= s.len(),
    ensures
        entries_in(s.take(i)) <= entries_in(s),
    decreases s.len() - i,
{
    if i == s.len() {
        assert(s.take(i) =~= s);
    } else {
        assert(s.take(i + 1).drop_last() =~= s.take(i));
        lemma_entries_prefix(s, i + 1);
    }
}

/// A cached block that was marked is modified.
pub proof fn lemma_marked_is_modified(items: Seq<CacheSlot>, id: u64)
    requires
        holds_id(items, id),
    ensures
        exists|i: int|
            0 <= i < marked(items, id).len() && (#[trigger] marked(items, id)[i]).id == id
                && marked(items, id)[i].modified,
    decreases items.len(),
{
    let m = marked(items, id);
    if items[0].id == id {
        assert(m[0].id == id && m[0].modified);
    } else {
        let rest = items.skip(1);
        let k = choose|k: int| 0 <= k < items.len() && (#[trigger] items[k]).id == id;
        assert(rest[k - 1].id == id);
        lemma_marked_is_modified(rest, id);
        let r = marked(rest, id);
        let i = choose|i: int| 0 <= i < r.len() && (#[trigger] r[i]).id == id && r[i].modified;
        assert(m[i + 1] == r[i]);
    }
}

/// A block that was dropped is not cached.
pub proof fn lemma_dropped_is_gone(items: Seq<CacheSlot>, id: u64)
    ensures
        !holds_id(items.filter(|s: CacheSlot| s.id != id), id),
{
    broadcast use vstd::seq_lib::group_filter_ensures;

    let p = |s: CacheSlot| s.id != id;
    let left = items.filter(p);
    assert forall|i: int| 0 <= i < left.len() implies (#[trigger] left[i]).id != id by {
        assert(p(left[i]));
    }
}

proof fn lemma_clean_items(items: Seq<CacheSlot>)
    ensures
        all_clean(items).filter(is_modified()).len() == 0,
    decreases items.len(),
{
    reveal(Seq::filter);
    if items.len() > 0 {
        lemma_clean_items(items.drop_last());
        assert(all_clean(items).drop_last() =~= all_clean(items.drop_last()));
    }
}

/// Once the cache is cleaned nothing in it is modified, and nothing has left.
pub proof fn lemma_clean_leaves_nothing_dirty(s: Seq<Seq<CacheSlot>>)
    ensures
        dirty_in(s.map_values(|c: Seq<CacheSlot>| all_clean(c))) == 0,
        entries_in(s.map_values(|c: Seq<CacheSlot>| all_clean(c))) == entries_in(s),
    decreases s.len(),
{
    let f = |c: Seq<CacheSlot>| all_clean(c);
    if s.len() > 0 {
        lemma_clean_leaves_nothing_dirty(s.drop_last());
        lemma_clean_items(s.last());
        assert(s.map_values(f).drop_last() =~= s.drop_last().map_values(f));
    }
}

/// Dropping a block leaves every other one in the chain.
pub proof fn lemma_drop_keeps_others(items: Seq<CacheSlot>, id: u64, other: u64)
    requires
        other != id,
    ensures
        holds_id(items.filter(|s: CacheSlot| s.id != id), other) <==> holds_id(items, other),
    decreases items.len(),
{
    reveal(Seq::filter);
    let p = |s: CacheSlot| s.id != id;
    if items.len() > 0 {
        let front = items.drop_last();
        lemma_drop_keeps_others(front, id, other);
        let a = front.filter(p);
        let b = items.filter(p);
        if holds_id(items, other) {
            let i = choose|i: int| 0 <= i < items.len() && (#[trigger] items[i]).id == other;
            if i < front.len() {
                assert(front[i].id == other);
                let k = choose|k: int| 0 <= k < a.len() && (#[trigger] a[k]).id == other;
                assert(b[k].id == other);
            } else {
                assert(b[a.len() as int].id == other);
            }
        }
        if holds_id(b, other) {
            let i = choose|i: int| 0 <= i < b.len() && (#[trigger] b[i]).id == other;
            if i < a.len() {
                assert(a[i].id == other);
                let k = choose|k: int| 0 <= k < front.len() && (#[trigger] front[k]).id == other;
                assert(items[k].id == other);
            } else {
                assert(items[items.len() - 1].id == other);
            }
        }
    }
}

/// Marking a block touches no other one, and only makes it dirty.
pub proof fn lemma_mark_touches_one(items: Seq<CacheSlot>, id: u64, i: int)
    requires
        0 <= i < items.len(),
    ensures
        marked(items, id).len() == items.len(),
        marked(items, id)[i].id == items[i].id,
        items[i].id != id ==> marked(items, id)[i] == items[i],
        items[i].modified ==> marked(items, id)[i].modified,
    decreases items.len(),
{
    if items[0].id != id {
        let rest = items.skip(1);
        if i > 0 {
            lemma_mark_touches_one(rest, id, i - 1);
            assert(rest[i - 1] == items[i]);
        } else if rest.len() > 0 {
            lemma_mark_touches_one(rest, id, 0);
        } else {
            assert(marked(rest, id) == rest);
        }
    }
}

} // verus!
