//! Semaphore arrays and the ids under which a task knows them.
use crate::ipc::refs;
use crate::keys;
use crate::keys::{first_free, sorted_keys};
use crate::sync::semaphore;
use crate::sync::semaphore::Semaphore;
use std::collections::BTreeMap;
use vstd::prelude::*;

verus! {

broadcast use vstd::std_specs::btree::group_btree_axioms;

/// An array of semaphores.
pub struct SemArr {
    pub key: u64,
    /// The permission bits.
    pub mode: u64,
    pub sems: Vec<Semaphore>,
}

/// All arrays there have been, how many references hold each, and the array that
/// each key was last given. An array without references is gone.
pub struct SemStore {
    pub arrays: Vec<SemArr>,
    pub strong: Vec<usize>,
    pub by_key: BTreeMap<u64, usize>,
}

/// The array that a key names, if it is still held.
pub open spec fn live(store: SemStore, key: u64) -> Option<usize> {
    if store.by_key@.contains_key(key) && store.strong@[store.by_key@[key] as int] > 0 {
        Some(store.by_key@[key])
    } else {
        None
    }
}

/// The request asks for a new array only.
pub open spec fn wants_new(flags: u64) -> bool {
    flags & 0x600 == 0x600
}

/// An array with `nsems` semaphores, all at zero.
pub open spec fn is_new_array(a: SemArr, key: u64, nsems: usize, flags: u64) -> bool {
    &&& a.key == key
    &&& a.mode == flags & 0x1ff
    &&& a.sems@.len() == nsems
    &&& forall|i: int|
        0 <= i < nsems ==> (#[trigger] a.sems@[i]).wf() && a.sems@[i]@
            == (semaphore::SemaphoreState { count: 0, removed: false, process_id: 0, flags: 0 })
}

impl SemStore {
    pub open spec fn wf(&self) -> bool {
        &&& self.strong@.len() == self.arrays@.len()
        &&& forall|k: u64| #[trigger]
            self.by_key@.contains_key(k) ==> self.by_key@[k] < self.arrays@.len()
    }

    pub fn new() -> (r: Self)
        ensures
            r.wf(),
            r.arrays@.len() == 0,
            r.by_key@ == Map::<u64, usize>::empty(),
    {
        Self { arrays: Vec::new(), strong: Vec::new(), by_key: BTreeMap::new() }
    }

    /// Gives up a reference.
    pub fn release(&mut self, g: usize)
        requires
            old(self).wf(),
            g < old(self).arrays@.len(),
            old(self).strong@[g as int] > 0,
        ensures
            final(self).wf(),
            final(self).arrays@ == old(self).arrays@,
            final(self).by_key@ == old(self).by_key@,
            final(self).strong@ == old(self).strong@.update(
                g as int,
                (old(self).strong@[g as int] - 1) as usize,
            ),
    {
        let count: usize = self.strong[g];
        self.strong.set(g, count - 1);
    }
}

/// The array has been added under a key, held once; the others are untouched.
pub open spec fn array_added(
    before: SemStore,
    after: SemStore,
    key: u64,
    nsems: usize,
    flags: u64,
) -> bool {
    let n = before.arrays@.len();
    &&& after.arrays@.len() == n + 1
    &&& forall|i: int| 0 <= i < n ==> #[trigger] after.arrays@[i] == before.arrays@[i]
    &&& is_new_array(after.arrays@[n as int], key, nsems, flags)
    &&& after.strong@ == before.strong@.push(1)
    &&& after.by_key@ == before.by_key@.insert(key, n as usize)
}

/// What asking for the array of a key gives, and does to the store.
pub open spec fn obtained(
    before: SemStore,
    after: SemStore,
    key: u64,
    nsems: usize,
    flags: u64,
    r: Result<usize, &'static str>,
) -> bool {
    let fresh = Ok::<usize, &'static str>(before.arrays@.len() as usize);
    if key == 0 {
        &&& r == fresh
        &&& exists|k: u64|
            keys::lowest_free(before.by_key@, 1, k) && #[trigger] array_added(
                before,
                after,
                k,
                nsems,
                flags,
            )
    } else {
        match live(before, key) {
            Some(g) => if wants_new(flags) {
                &&& r == Err::<usize, &'static str>("eexist")
                &&& after == before
            } else {
                &&& r == Ok::<usize, &'static str>(g)
                &&& after.arrays@ == before.arrays@
                &&& after.by_key@ == before.by_key@
                &&& after.strong@ == before.strong@.update(
                    g as int,
                    (before.strong@[g as int] + 1) as usize,
                )
            },
            None => {
                &&& r == fresh
                &&& array_added(before, after, key, nsems, flags)
            },
        }
    }
}

impl SemArr {
    /// A reference to the array of a key: the one that is held, unless a new one is
    /// wanted, or a new one. Key 0 stands for the lowest positive key that was never
    /// used.
    pub fn get_or_create(key: u64, nsems: usize, flags: u64, store: &mut SemStore) -> (r: Result<
        usize,
        &'static str,
    >)
        requires
            old(store).wf(),
            key == 0 ==> keys::has_free(old(store).by_key@, 1),
            live(*old(store), key) matches Some(g) ==> old(store).strong@[g as int] < usize::MAX,
        ensures
            final(store).wf(),
            obtained(*old(store), *final(store), key, nsems, flags, r),
    {
        let mut k: u64 = key;
        if key == 0 {
            k = first_free(&store.by_key, 1);
        } else if store.by_key.contains_key(&key) {
            let g: usize = *store.by_key.get(&key).unwrap();
            if store.strong[g] > 0 {
                if flags & 0x600 == 0x600 {
                    return Err("eexist");
                }
                let count: usize = store.strong[g];
                store.strong.set(g, count + 1);
                return Ok(g);
            }
        }
        let mut sems: Vec<Semaphore> = Vec::new();
        let mut i: usize = 0;
        while i < nsems
            invariant
                i <= nsems,
                sems@.len() == i,
                forall|j: int|
                    0 <= j < i ==> (#[trigger] sems@[j]).wf() && sems@[j]@
                        == (semaphore::SemaphoreState {
                        count: 0,
                        removed: false,
                        process_id: 0,
                        flags: 0,
                    }),
            decreases nsems - i,
        {
            sems.push(Semaphore::new(0));
            i = i + 1;
        }
        let g = store.arrays.len();
        store.arrays.push(SemArr { key: k, mode: flags & 0x1ff, sems });
        store.strong.push(1);
        store.by_key.insert(k, g);
        assert(array_added(*old(store), *store, k, nsems, flags));
        Ok(g)
    }
}

/// The arrays of a task by id.
pub struct SemCtx {
    pub arrays: BTreeMap<u64, usize>,
}

/// Every id names an array of the store.
pub open spec fn ids_valid(ids: Map<u64, usize>, store: SemStore) -> bool {
    forall|id: u64| #[trigger] ids.contains_key(id) ==> ids[id] < store.arrays@.len()
}

impl SemCtx {
    pub fn new() -> (r: Self)
        ensures
            r.arrays@ == Map::<u64, usize>::empty(),
    {
        Self { arrays: BTreeMap::new() }
    }

    /// A copy of the table, with references of its own.
    pub fn clone_ctx(&self, store: &mut SemStore) -> (r: SemCtx)
        requires
            old(store).wf(),
            ids_valid(self.arrays@, *old(store)),
            forall|g: int|
                0 <= g < old(store).strong@.len() ==> #[trigger] old(store).strong@[g]
                    + self.arrays@.len() <= usize::MAX,
        ensures
            final(store).wf(),
            r.arrays@ == self.arrays@,
            final(store).arrays@ == old(store).arrays@,
            final(store).by_key@ == old(store).by_key@,
            final(store).strong@ == refs::held_once_more(
                old(store).strong@,
                keys::listing(self.arrays@),
                self.arrays@,
            ),
    {
        let list = sorted_keys(&self.arrays);
        let ghost ks = list@;
        let ghost ids = self.arrays@;
        let ghost c0 = store.strong@;
        proof {
            keys::lemma_listing(ks, ids);
        }
        let mut copy: BTreeMap<u64, usize> = BTreeMap::new();
        let mut i: usize = 0;
        while i < list.len()
            invariant
                i <= list@.len(),
                ks == list@,
                ids == self.arrays@,
                keys::lists_keys(ks, ids),
                ks.len() == ids.len(),
                store.wf(),
                store.by_key@ == old(store).by_key@,
                store.arrays@ == old(store).arrays@,
                store.strong@ == refs::held_once_more(c0, ks.take(i as int), ids),
                ids_valid(ids, *store),
                forall|g: int|
                    0 <= g < store.strong@.len() ==> #[trigger] store.strong@[g] + ids.len()
                        <= usize::MAX + i,
                forall|k: u64| #[trigger]
                    copy@.contains_key(k) <==> ks.take(i as int).contains(k),
                forall|k: u64| #[trigger] copy@.contains_key(k) ==> copy@[k] == ids[k],
            decreases list@.len() - i,
        {
            let id: u64 = list[i];
            let ghost before = store.strong@;
            assert(ks.contains(id));
            let g: usize = *self.arrays.get(&id).unwrap();
            let count: usize = store.strong[g];
            assert(before[g as int] + ids.len() <= usize::MAX + i);
            store.strong.set(g, count + 1);
            copy.insert(id, g);
            proof {
                let t = ks.take(i as int);
                let u = ks.take(i + 1);
                assert(u.drop_last() =~= t);
                assert(u =~= t.push(id));
                assert forall|k: u64| #[trigger] copy@.contains_key(k) <==> u.contains(k) by {
                    if t.contains(k) {
                        let j = choose|j: int| 0 <= j < t.len() && t[j] == k;
                        assert(u[j] == k);
                    }
                    assert(u[i as int] == id);
                }
                assert forall|x: int| 0 <= x < store.strong@.len() implies #[trigger] store.strong@[x]
                    + ids.len() <= usize::MAX + i + 1 by {
                    assert(before[x] + ids.len() <= usize::MAX + i);
                }
            }
            i = i + 1;
        }
        proof {
            assert(ks.take(i as int) =~= ks);
            assert forall|k: u64| copy@.contains_key(k) <==> ids.contains_key(k) by {
                assert(ks.contains(k) <==> ids.contains_key(k));
            }
            assert(copy@ =~= ids);
        }
        SemCtx { arrays: copy }
    }

    /// Empties the table, as when its task goes: each id gives up its reference.
    pub fn clear(&mut self, store: &mut SemStore)
        requires
            old(store).wf(),
            ids_valid(old(self).arrays@, *old(store)),
            forall|g: int|
                0 <= g < old(store).strong@.len() ==> #[trigger] refs::entries(
                    keys::listing(old(self).arrays@),
                    old(self).arrays@,
                    g,
                ) <= old(store).strong@[g],
        ensures
            final(store).wf(),
            final(self).arrays@ == Map::<u64, usize>::empty(),
            final(store).arrays@ == old(store).arrays@,
            final(store).by_key@ == old(store).by_key@,
            final(store).strong@ == refs::held_once_less(
                old(store).strong@,
                keys::listing(old(self).arrays@),
                old(self).arrays@,
            ),
    {
        let list = sorted_keys(&self.arrays);
        let ghost ks = list@;
        let ghost ids = self.arrays@;
        let ghost c0 = store.strong@;
        proof {
            keys::lemma_listing(ks, ids);
        }
        let mut i: usize = 0;
        while i < list.len()
            invariant
                i <= list@.len(),
                ks == list@,
                ids == self.arrays@,
                keys::lists_keys(ks, ids),
                store.wf(),
                store.by_key@ == old(store).by_key@,
                store.arrays@ == old(store).arrays@,
                ids_valid(ids, *store),
                c0.len() == store.arrays@.len(),
                store.strong@ == refs::held_once_less(c0, ks.take(i as int), ids),
                forall|g: int|
                    0 <= g < c0.len() ==> #[trigger] refs::entries(ks, ids, g) <= c0[g],
            decreases list@.len() - i,
        {
            let id: u64 = list[i];
            assert(ks.contains(id));
            let g: usize = *self.arrays.get(&id).unwrap();
            proof {
                let t = ks.take(i as int);
                assert(refs::entries(ks, ids, g as int) <= c0[g as int]);
                refs::lemma_entries_prefix(ks, ids, g as int, i as int);
                assert forall|j: int| 0 <= j < t.len() implies ids[#[trigger] t[j]] < c0.len() by {
                    assert(t[j] == ks[j]);
                    assert(ks.contains(ks[j]));
                }
                refs::lemma_less(c0, t, ids, g as int);
            }
            store.release(g);
            assert(ks.take(i + 1).drop_last() =~= ks.take(i as int));
            i = i + 1;
        }
        assert(ks.take(i as int) =~= ks);
        self.arrays = BTreeMap::new();
    }
}

/// Once the last reference to the array of a key is given up, the key gives a new
/// array, also to one who wants a new one only.
pub proof fn lemma_released_key_is_new(
    a: SemStore,
    b: SemStore,
    c: SemStore,
    key: u64,
    nsems: usize,
    flags: u64,
    g: usize,
    r: Result<usize, &'static str>,
)
    requires
        key != 0,
        a.wf(),
        live(a, key) == Some(g),
        a.strong@[g as int] == 1,
        b.by_key@ == a.by_key@,
        b.arrays@ == a.arrays@,
        b.strong@ == a.strong@.update(g as int, 0),
        obtained(b, c, key, nsems, flags, r),
    ensures
        r == Ok::<usize, &'static str>(b.arrays@.len() as usize),
        array_added(b, c, key, nsems, flags),
{
}

/// Whoever asks for a key that was given out gets the same array, unless a new one is
/// asked for, which is refused.
pub proof fn lemma_key_shares_array(
    a: SemStore,
    b: SemStore,
    c: SemStore,
    key: u64,
    nsems: usize,
    nsems2: usize,
    flags: u64,
    flags2: u64,
    g: usize,
    r: Result<usize, &'static str>,
)
    requires
        key != 0,
        a.wf(),
        b.wf(),
        a.arrays@.len() <= usize::MAX,
        live(a, key) matches Some(h) ==> a.strong@[h as int] < usize::MAX,
        obtained(a, b, key, nsems, flags, Ok(g)),
        obtained(b, c, key, nsems2, flags2, r),
    ensures
        r == if wants_new(flags2) {
            Err::<usize, &'static str>("eexist")
        } else {
            Ok(g)
        },
{
}

/// A new array has as many semaphores as were asked for, none of which has a unit to
/// give; it is held once, and every other array is as before.
pub proof fn lemma_new_array_is_empty(
    before: SemStore,
    after: SemStore,
    key: u64,
    nsems: usize,
    flags: u64,
    i: int,
    j: int,
)
    requires
        before.wf(),
        array_added(before, after, key, nsems, flags),
        before.arrays@.len() < usize::MAX,
        0 <= i < nsems,
        0 <= j < before.arrays@.len(),
    ensures
        after.arrays@.len() == before.arrays@.len() + 1,
        after.arrays@.last().key == key,
        after.arrays@.last().sems@.len() == nsems,
        after.arrays@.last().sems@[i]@.count == 0,
        !after.arrays@.last().sems@[i]@.removed,
        after.arrays@.last().sems@[i]@.process_id == 0,
        after.strong@.last() == 1,
        after.strong@.len() == after.arrays@.len(),
        after.strong@[j] == before.strong@[j],
        after.arrays@[j] == before.arrays@[j],
        live(after, key) == Some(before.arrays@.len() as usize),
{
}

} // verus!
