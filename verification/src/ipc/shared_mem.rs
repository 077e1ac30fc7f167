//! Shared memory segments and the ids under which a task knows them.
use crate::ipc::refs;
use crate::keys;
use crate::keys::{lowest_key, sorted_keys};
use std::collections::BTreeMap;
use vstd::prelude::*;

verus! {

broadcast use vstd::std_specs::btree::group_btree_axioms;

pub type ShmId = u64;

/// A segment: the frames of its pages, and how many references hold it.
pub struct ShmSegment {
    pub pages: Vec<u64>,
    pub strong: usize,
}

/// All segments there have been, and the segment that each key was last given. A
/// segment without references is gone.
pub struct ShmStore {
    pub segments: Vec<ShmSegment>,
    pub by_key: BTreeMap<u64, usize>,
}

/// A segment as a task sees it: where it is attached, and which one it is.
#[derive(Clone, Copy, Debug, PartialEq, Eq, Structural)]
pub struct ShmTag {
    pub addr: u64,
    pub pages: usize,
}

impl ShmTag {
    pub fn set_addr(&mut self, a: u64)
        ensures
            *final(self) == (ShmTag { addr: a, ..*old(self) }),
    {
        self.addr = a;
    }
}

/// The references of each segment.
pub open spec fn counts(s: Seq<ShmSegment>) -> Seq<usize> {
    s.map_values(|x: ShmSegment| x.strong)
}

/// Every segment has kept its pages.
pub open spec fn same_pages(before: Seq<ShmSegment>, after: Seq<ShmSegment>) -> bool {
    &&& after.len() == before.len()
    &&& forall|i: int| 0 <= i < before.len() ==> (#[trigger] after[i]).pages == before[i].pages
}

/// No segment has lost a reference.
pub open spec fn none_lost(before: Seq<ShmSegment>, after: Seq<ShmSegment>) -> bool {
    forall|i: int| 0 <= i < before.len() ==> (#[trigger] after[i]).strong >= before[i].strong
}

/// The segment that a key names, if it is still held.
pub open spec fn live(store: ShmStore, key: u64) -> Option<usize> {
    if store.by_key@.contains_key(key) && store.segments@[store.by_key@[key] as int].strong > 0 {
        Some(store.by_key@[key])
    } else {
        None
    }
}

impl ShmStore {
    pub open spec fn wf(&self) -> bool {
        forall|k: u64| #[trigger]
            self.by_key@.contains_key(k) ==> self.by_key@[k] < self.segments@.len()
    }

    pub fn new() -> (r: Self)
        ensures
            r.wf(),
            r.segments@.len() == 0,
            r.by_key@ == Map::<u64, usize>::empty(),
    {
        Self { segments: Vec::new(), by_key: BTreeMap::new() }
    }

    /// Takes one more reference.
    pub fn hold(&mut self, g: usize)
        requires
            old(self).wf(),
            g < old(self).segments@.len(),
            old(self).segments@[g as int].strong < usize::MAX,
        ensures
            final(self).wf(),
            final(self).by_key@ == old(self).by_key@,
            same_pages(old(self).segments@, final(self).segments@),
            counts(final(self).segments@) == counts(old(self).segments@).update(
                g as int,
                (old(self).segments@[g as int].strong + 1) as usize,
            ),
    {
        self.segments[g].strong = self.segments[g].strong + 1;
        assert(counts(self.segments@) =~= counts(old(self).segments@).update(
            g as int,
            (old(self).segments@[g as int].strong + 1) as usize,
        ));
    }

    /// Gives up a reference.
    pub fn release(&mut self, g: usize)
        requires
            old(self).wf(),
            g < old(self).segments@.len(),
            old(self).segments@[g as int].strong > 0,
        ensures
            final(self).wf(),
            final(self).by_key@ == old(self).by_key@,
            same_pages(old(self).segments@, final(self).segments@),
            counts(final(self).segments@) == counts(old(self).segments@).update(
                g as int,
                (old(self).segments@[g as int].strong - 1) as usize,
            ),
    {
        self.segments[g].strong = self.segments[g].strong - 1;
        assert(counts(self.segments@) =~= counts(old(self).segments@).update(
            g as int,
            (old(self).segments@[g as int].strong - 1) as usize,
        ));
    }
}

/// What asking for the segment of a key gives, and does to the store.
pub open spec fn obtained(
    before: ShmStore,
    after: ShmStore,
    key: u64,
    npages: usize,
    g: usize,
) -> bool {
    match live(before, key) {
        Some(held) => {
            &&& g == held
            &&& after.by_key@ == before.by_key@
            &&& same_pages(before.segments@, after.segments@)
            &&& counts(after.segments@) == counts(before.segments@).update(
                g as int,
                (before.segments@[g as int].strong + 1) as usize,
            )
        },
        None => {
            &&& g == before.segments@.len()
            &&& after.by_key@ == before.by_key@.insert(key, g)
            &&& after.segments@.len() == before.segments@.len() + 1
            &&& forall|i: int|
                0 <= i < before.segments@.len() ==> #[trigger] after.segments@[i]
                    == before.segments@[i]
            &&& after.segments@[g as int].pages@ == Seq::new(npages as nat, |i: int| 0u64)
            &&& after.segments@[g as int].strong == 1
        },
    }
}

/// A reference to the segment of a key: the one that is held, whatever its size, or
/// a new one of `npages` zeroed pages.
pub fn shm_get_or_create(key: u64, npages: usize, store: &mut ShmStore) -> (g: usize)
    requires
        old(store).wf(),
        live(*old(store), key) matches Some(g) ==> old(store).segments@[g as int].strong
            < usize::MAX,
    ensures
        final(store).wf(),
        g < final(store).segments@.len(),
        obtained(*old(store), *final(store), key, npages, g),
{
    if store.by_key.contains_key(&key) {
        let held: usize = *store.by_key.get(&key).unwrap();
        if store.segments[held].strong > 0 {
            store.hold(held);
            return held;
        }
    }
    let g = store.segments.len();
    let pages: Vec<u64> = vec![0u64; npages];
    assert(pages@ =~= Seq::new(npages as nat, |i: int| 0u64));
    store.segments.push(ShmSegment { pages, strong: 1 });
    store.by_key.insert(key, g);
    g
}

/// The segments of a task by id.
pub struct ShmCtx {
    pub ids: BTreeMap<ShmId, ShmTag>,
}

/// Every id names a segment that is held.
pub open spec fn ids_held(ids: Map<u64, ShmTag>, segments: Seq<ShmSegment>) -> bool {
    forall|id: u64| #[trigger]
        ids.contains_key(id) ==> ids[id].pages < segments.len()
            && segments[ids[id].pages as int].strong > 0
}

/// The segment of each id.
pub open spec fn segments_of(ids: Map<u64, ShmTag>) -> Map<u64, usize> {
    ids.map_values(|t: ShmTag| t.pages)
}

impl ShmCtx {
    pub fn new() -> (r: Self)
        ensures
            r.ids@ == Map::<u64, ShmTag>::empty(),
    {
        Self { ids: BTreeMap::new() }
    }

    /// Enters a segment, unattached, under the lowest free id. The reference moves
    /// into the table.
    pub fn add(&mut self, g: usize) -> (id: ShmId)
        ensures
            keys::lowest_free(old(self).ids@, 0, id),
            final(self).ids@ == old(self).ids@.insert(id, ShmTag { addr: 0, pages: g }),
    {
        let id = lowest_key(&self.ids);
        self.ids.insert(id, ShmTag { addr: 0, pages: g });
        id
    }

    /// A copy of the tag of an id, with a reference of its own.
    pub fn get(&self, id: ShmId, store: &mut ShmStore) -> (r: Option<ShmTag>)
        requires
            old(store).wf(),
            self.ids@.contains_key(id) ==> self.ids@[id].pages < old(store).segments@.len()
                && old(store).segments@[self.ids@[id].pages as int].strong < usize::MAX,
        ensures
            final(store).wf(),
            match r {
                Some(tag) => {
                    &&& self.ids@.contains_key(id)
                    &&& tag == self.ids@[id]
                    &&& same_pages(old(store).segments@, final(store).segments@)
                    &&& final(store).by_key@ == old(store).by_key@
                    &&& counts(final(store).segments@) == counts(old(store).segments@).update(
                        tag.pages as int,
                        (old(store).segments@[tag.pages as int].strong + 1) as usize,
                    )
                },
                None => !self.ids@.contains_key(id) && *final(store) == *old(store),
            },
    {
        match self.ids.get(&id) {
            Some(tag) => {
                store.hold(tag.pages);
                Some(*tag)
            },
            None => None,
        }
    }

    /// Puts a tag under an id. The tag that was there gives up its reference.
    pub fn set(&mut self, id: ShmId, tag: ShmTag, store: &mut ShmStore)
        requires
            old(store).wf(),
            old(self).ids@.contains_key(id) ==> old(self).ids@[id].pages < old(store).segments@.len() && old(store).segments@[old(self).ids@[id].pages as int].strong > 0,
        ensures
            final(store).wf(),
            final(self).ids@ == old(self).ids@.insert(id, tag),
            dropped(*old(store), *final(store), old(self).ids@, id),
    {
        match self.ids.insert(id, tag) {
            Some(was) => {
                store.release(was.pages);
            },
            None => {},
        }
    }

    /// The lowest id whose segment is attached exactly at `addr`.
    pub fn get_id_by_addr(&self, addr: u64) -> (r: Option<ShmId>)
        ensures
            match r {
                Some(id) => {
                    &&& self.ids@.contains_key(id)
                    &&& self.ids@[id].addr == addr
                    &&& forall|k: u64| #[trigger]
                        self.ids@.contains_key(k) && k < id ==> self.ids@[k].addr != addr
                },
                None => forall|k: u64| #[trigger]
                    self.ids@.contains_key(k) ==> self.ids@[k].addr != addr,
            },
    {
        let list = sorted_keys(&self.ids);
        let mut i: usize = 0;
        while i < list.len()
            invariant
                i <= list@.len(),
                keys::lists_keys(list@, self.ids@),
                forall|j: int| 0 <= j < i ==> self.ids@[#[trigger] list@[j]].addr != addr,
            decreases list@.len() - i,
        {
            let id: u64 = list[i];
            assert(list@.contains(id));
            let tag: ShmTag = *self.ids.get(&id).unwrap();
            if tag.addr == addr {
                assert forall|k: u64| #[trigger]
                    self.ids@.contains_key(k) && k < id implies self.ids@[k].addr != addr by {
                    assert(list@.contains(k));
                    let j = choose|j: int| 0 <= j < list@.len() && list@[j] == k;
                    assert(list@[j] == k);
                }
                return Some(id);
            }
            i = i + 1;
        }
        assert forall|k: u64| #[trigger] self.ids@.contains_key(k) implies self.ids@[k].addr
            != addr by {
            assert(list@.contains(k));
            let j = choose|j: int| 0 <= j < list@.len() && list@[j] == k;
            assert(list@[j] == k);
        }
        None
    }

    /// Removes an id; its segment loses a reference.
    pub fn pop(&mut self, id: ShmId, store: &mut ShmStore)
        requires
            old(store).wf(),
            old(self).ids@.contains_key(id) ==> old(self).ids@[id].pages < old(store).segments@.len() && old(store).segments@[old(self).ids@[id].pages as int].strong > 0,
        ensures
            final(store).wf(),
            final(self).ids@ == old(self).ids@.remove(id),
            dropped(*old(store), *final(store), old(self).ids@, id),
    {
        match self.ids.remove(&id) {
            Some(was) => {
                store.release(was.pages);
            },
            None => {},
        }
        assert(self.ids@ =~= old(self).ids@.remove(id));
    }

    /// A copy of the table, with references of its own.
    pub fn clone_ctx(&self, store: &mut ShmStore) -> (r: ShmCtx)
        requires
            old(store).wf(),
            ids_held(self.ids@, old(store).segments@),
            forall|g: int|
                0 <= g < old(store).segments@.len() ==> (#[trigger] old(store).segments@[g]).strong
                    + self.ids@.len() <= usize::MAX,
        ensures
            final(store).wf(),
            r.ids@ == self.ids@,
            final(store).by_key@ == old(store).by_key@,
            same_pages(old(store).segments@, final(store).segments@),
            ids_held(r.ids@, final(store).segments@),
            none_lost(old(store).segments@, final(store).segments@),
            counts(final(store).segments@) == refs::held_once_more(
                counts(old(store).segments@),
                keys::listing(segments_of(self.ids@)),
                segments_of(self.ids@),
            ),
    {
        let list = sorted_keys(&self.ids);
        let ghost ks = list@;
        let ghost ids = self.ids@;
        let ghost c0 = counts(store.segments@);
        proof {
            lemma_listed_segments(ks, ids);
        }
        let mut copy: BTreeMap<u64, ShmTag> = BTreeMap::new();
        let mut i: usize = 0;
        while i < list.len()
            invariant
                i <= list@.len(),
                ks == list@,
                ids == self.ids@,
                keys::lists_keys(ks, ids),
                ks.len() == ids.len(),
                store.wf(),
                store.by_key@ == old(store).by_key@,
                same_pages(old(store).segments@, store.segments@),
                c0 == counts(old(store).segments@),
                counts(store.segments@) == refs::held_once_more(c0, ks.take(i as int), segments_of(ids)),
                ids_held(ids, old(store).segments@),
                ids_held(ids, store.segments@),
                none_lost(old(store).segments@, store.segments@),
                forall|g: int|
                    0 <= g < store.segments@.len() ==> (#[trigger] store.segments@[g]).strong
                        + ids.len() <= usize::MAX + i,
                forall|k: u64| #[trigger]
                    copy@.contains_key(k) <==> ks.take(i as int).contains(k),
                forall|k: u64| #[trigger] copy@.contains_key(k) ==> copy@[k] == ids[k],
            decreases list@.len() - i,
        {
            let id: u64 = list[i];
            let ghost before = store.segments@;
            assert(ks.contains(id));
            let tag: ShmTag = *self.ids.get(&id).unwrap();
            assert(before[tag.pages as int].strong + ids.len() <= usize::MAX + i);
            store.hold(tag.pages);
            copy.insert(id, tag);
            proof {
                let t = ks.take(i as int);
                let u = ks.take(i + 1);
                assert(u.drop_last() =~= t);
                assert(u =~= t.push(id));
                assert forall|k: u64| #[trigger] copy@.contains_key(k) <==> u.contains(k) by {
                    if t.contains(k) {
                        let j = choose|j: int| 0 <= j < t.len() && t[j] == k;
                        assert(u[j] == k);
                    }
                    assert(u[i as int] == id);
                }
                let c = counts(before);
                assert(c[tag.pages as int] == before[tag.pages as int].strong);
                assert forall|g: int| 0 <= g < store.segments@.len() implies (
                #[trigger] store.segments@[g]).strong + ids.len() <= usize::MAX + i + 1
                    && store.segments@[g].strong >= before[g].strong by {
                    assert(counts(store.segments@)[g] == store.segments@[g].strong);
                    assert(c[g] == before[g].strong);
                    assert(before[g].strong + ids.len() <= usize::MAX + i);
                }
                assert forall|k: u64| #[trigger] ids.contains_key(k) implies ids[k].pages
                    < store.segments@.len() && store.segments@[ids[k].pages as int].strong > 0 by {
                    assert(before[ids[k].pages as int].strong > 0);
                }
            }
            i = i + 1;
        }
        proof {
            assert(ks.take(i as int) =~= ks);
            assert forall|k: u64| copy@.contains_key(k) <==> ids.contains_key(k) by {
                assert(ks.contains(k) <==> ids.contains_key(k));
            }
            assert(copy@ =~= ids);
        }
        ShmCtx { ids: copy }
    }

    /// Empties the table, as when its task goes: each id gives up its reference.
    pub fn clear(&mut self, store: &mut ShmStore)
        requires
            old(store).wf(),
            ids_held(old(self).ids@, old(store).segments@),
            forall|g: int|
                0 <= g < old(store).segments@.len() ==> #[trigger] refs::entries(
                    keys::listing(segments_of(old(self).ids@)),
                    segments_of(old(self).ids@),
                    g,
                ) <= old(store).segments@[g].strong,
        ensures
            final(store).wf(),
            final(self).ids@ == Map::<u64, ShmTag>::empty(),
            final(store).by_key@ == old(store).by_key@,
            same_pages(old(store).segments@, final(store).segments@),
            counts(final(store).segments@) == refs::held_once_less(
                counts(old(store).segments@),
                keys::listing(segments_of(old(self).ids@)),
                segments_of(old(self).ids@),
            ),
    {
        let list = sorted_keys(&self.ids);
        let ghost ks = list@;
        let ghost ids = self.ids@;
        let ghost m = segments_of(ids);
        let ghost n = store.segments@.len();
        let ghost c0 = counts(store.segments@);
        proof {
            lemma_listed_segments(ks, ids);
            assert forall|g: int| 0 <= g < n implies #[trigger] refs::entries(ks, m, g) <= c0[g] by {}
        }
        let mut i: usize = 0;
        while i < list.len()
            invariant
                i <= list@.len(),
                ks == list@,
                ids == self.ids@,
                m == segments_of(ids),
                keys::lists_keys(ks, ids),
                store.wf(),
                store.by_key@ == old(store).by_key@,
                same_pages(old(store).segments@, store.segments@),
                ids_held(ids, old(store).segments@),
                n == store.segments@.len() == c0.len(),
                counts(store.segments@) == refs::held_once_less(c0, ks.take(i as int), m),
                forall|g: int| 0 <= g < n ==> #[trigger] refs::entries(ks, m, g) <= c0[g],
            decreases list@.len() - i,
        {
            let id: u64 = list[i];
            assert(ks.contains(id));
            let tag: ShmTag = *self.ids.get(&id).unwrap();
            let g: usize = tag.pages;
            proof {
                let t = ks.take(i as int);
                assert(refs::entries(ks, m, g as int) <= c0[g as int]);
                refs::lemma_entries_prefix(ks, m, g as int, i as int);
                assert forall|j: int| 0 <= j < t.len() implies m[#[trigger] t[j]] < c0.len() by {
                    assert(t[j] == ks[j]);
                    assert(ks.contains(ks[j]));
                }
                refs::lemma_less(c0, t, m, g as int);
                assert(counts(store.segments@)[g as int] == store.segments@[g as int].strong);
            }
            store.release(g);
            assert(ks.take(i + 1).drop_last() =~= ks.take(i as int));
            i = i + 1;
        }
        assert(ks.take(i as int) =~= ks);
        self.ids = BTreeMap::new();
    }
}

proof fn lemma_listed_segments(ks: Seq<u64>, ids: Map<u64, ShmTag>)
    requires
        keys::lists_keys(ks, ids),
    ensures
        keys::listing(segments_of(ids)) == ks,
        keys::listing(ids) == ks,
{
    let m = segments_of(ids);
    assert forall|k: u64| #[trigger] ks.contains(k) <==> m.contains_key(k) by {
        assert(ks.contains(k) <==> ids.contains_key(k));
    }
    keys::lemma_listing(ks, m);
    keys::lemma_listing(ks, ids);
}

/// The segment of an id has lost a reference, if there was such an id.
pub open spec fn dropped(before: ShmStore, after: ShmStore, ids: Map<u64, ShmTag>, id: u64) -> bool {
    if ids.contains_key(id) {
        let g = ids[id].pages as int;
        &&& after.by_key@ == before.by_key@
        &&& same_pages(before.segments@, after.segments@)
        &&& counts(after.segments@) == counts(before.segments@).update(
            g,
            (before.segments@[g].strong - 1) as usize,
        )
    } else {
        after == before
    }
}

/// As long as a segment is held, its key gives the same segment to everyone; once
/// it is not, the key gives a new one.
pub proof fn lemma_key_names_one_segment(store: ShmStore, key: u64, g: usize)
    requires
        store.wf(),
        store.by_key@.contains_key(key),
        store.by_key@[key] == g,
    ensures
        store.segments@[g as int].strong > 0 ==> live(store, key) == Some(g),
        store.segments@[g as int].strong == 0 ==> live(store, key) is None,
{
}

/// Whoever asks for a key that was given out gets the same segment.
pub proof fn lemma_key_shares_segment(
    a: ShmStore,
    b: ShmStore,
    c: ShmStore,
    key: u64,
    npages: usize,
    npages2: usize,
    g: usize,
    h: usize,
)
    requires
        a.wf(),
        b.wf(),
        live(a, key) matches Some(x) ==> a.segments@[x as int].strong < usize::MAX,
        obtained(a, b, key, npages, g),
        obtained(b, c, key, npages2, h),
    ensures
        h == g,
        same_pages(b.segments@, c.segments@),
{
    if live(a, key) is Some {
        assert(counts(b.segments@)[g as int] == b.segments@[g as int].strong);
        assert(counts(a.segments@)[g as int] == a.segments@[g as int].strong);
    }
}

} // verus!
