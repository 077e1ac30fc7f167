//! A slab of equal object slots.
use crate::bits;
use crate::consts::SLAB_ALIGN;
use std::collections::VecDeque;
use vstd::prelude::*;

verus! {

/// A slab: `data` is cut into slots of `obj_size` bytes, and an object is named by
/// the offset of its slot.
pub struct SlabEntry {
    pub data: Vec<u8>,
    /// The size of a slot.
    pub obj_size: usize,
    pub capacity: usize,
    /// The offsets of the free slots, in the order in which they are handed out.
    pub free_list: VecDeque<usize>,
    pub allocated: usize,
    pub tag: u32,
}

/// `s` with the bytes from `start` up to `end` cleared.
pub open spec fn cleared(s: Seq<u8>, start: int, end: int) -> Seq<u8> {
    Seq::new(
        s.len(),
        |i: int|
            if start <= i < end {
                0u8
            } else {
                s[i]
            },
    )
}

/// An offset at which a slot starts.
pub open spec fn is_slot(data_len: int, obj_size: int, offset: int) -> bool {
    0 <= offset < data_len && offset % obj_size == 0
}

impl SlabEntry {
    /// The data is made of whole slots, the free list names each free slot once,
    /// and every slot is either free or allocated.
    pub open spec fn wf(&self) -> bool {
        let free = self.free_list@;
        &&& self.obj_size > 0
        &&& self.data@.len() % (self.obj_size as nat) == 0
        &&& free.no_duplicates()
        &&& forall|i: int|
            0 <= i < free.len() ==> is_slot(
                self.data@.len() as int,
                self.obj_size as int,
                #[trigger] free[i] as int,
            )
        &&& self.allocated + free.len() == self.data@.len() / self.obj_size as nat
    }

    /// A slab of `capacity` free slots for objects of `obj_size` bytes, rounded up
    /// to the slab alignment.
    pub fn new(obj_size: usize, capacity: usize) -> (r: Self)
        requires
            obj_size + SLAB_ALIGN - 1 <= usize::MAX,
            bits::round_up(obj_size as int, SLAB_ALIGN as int) * capacity <= usize::MAX,
        ensures
            r.obj_size == bits::round_up(obj_size as int, SLAB_ALIGN as int),
            r.capacity == capacity,
            r.data@ == Seq::new((r.obj_size * capacity) as nat, |i: int| 0u8),
            r.free_list@ == Seq::new(capacity as nat, |i: int| (i * r.obj_size) as usize),
            r.allocated == 0,
            r.tag == 0,
            obj_size > 0 ==> r.wf(),
    {
        proof {
            lemma_slab_mask(obj_size);
            bits::lemma_round_up(obj_size as int, SLAB_ALIGN as int);
        }
        let aligned: usize = (obj_size + (SLAB_ALIGN - 1)) & !(SLAB_ALIGN - 1);
        let total: usize = aligned * capacity;
        let mut fl: VecDeque<usize> = VecDeque::new();
        let mut i: usize = 0;
        while i < capacity
            invariant
                i <= capacity,
                aligned * capacity <= usize::MAX,
                fl@ == Seq::new(i as nat, |k: int| (k * aligned) as usize),
            decreases capacity - i,
        {
            proof {
                assert(i * aligned <= aligned * capacity) by (nonlinear_arith)
                    requires
                        i <= capacity,
                        aligned >= 0,
                ;
            }
            fl.push_back(i * aligned);
            i = i + 1;
            assert(fl@ =~= Seq::new(i as nat, |k: int| (k * aligned) as usize));
        }
        let data: Vec<u8> = vec![0u8; total];
        let r = Self { data, obj_size: aligned, capacity, free_list: fl, allocated: 0, tag: 0 };
        proof {
            assert(r.data@ =~= Seq::new((r.obj_size * capacity) as nat, |i: int| 0u8));
            if obj_size > 0 {
                let a = aligned as int;
                let n = capacity as int;
                vstd::arithmetic::div_mod::lemma_mod_multiples_basic(n, a);
                vstd::arithmetic::div_mod::lemma_div_multiples_vanish(n, a);
                assert(a * n == n * a) by (nonlinear_arith);
                assert forall|k: int| 0 <= k < n implies is_slot(
                    a * n,
                    a,
                    #[trigger] r.free_list@[k] as int,
                ) && r.free_list@[k] == k * a by {
                    vstd::arithmetic::div_mod::lemma_mod_multiples_basic(k, a);
                    assert(0 <= k * a < n * a) by (nonlinear_arith)
                        requires
                            0 <= k < n,
                            a > 0,
                    ;
                }
                assert forall|k: int, m: int| 0 <= k < n && 0 <= m < n && k != m implies r.free_list@[k]
                    != r.free_list@[m] by {
                    assert(k * a != m * a) by (nonlinear_arith)
                        requires
                            k != m,
                            a > 0,
                    ;
                }
            }
        }
        r
    }

    /// Takes the first free slot, cleared if asked for. A slot that the data does
    /// not hold in full is dropped, and nothing is allocated.
    pub fn slab_alloc(&mut self, zeroed: bool) -> (r: Option<usize>)
        requires
            old(self).free_list@.len() > 0 ==> old(self).allocated < usize::MAX,
        ensures
            final(self).obj_size == old(self).obj_size,
            final(self).capacity == old(self).capacity,
            final(self).tag == old(self).tag,
            ({
                let free = old(self).free_list@;
                let slot = free[0];
                let fits = slot + old(self).obj_size <= old(self).data@.len();
                &&& free.len() == 0 ==> {
                    &&& r is None
                    &&& final(self).free_list@ == free
                    &&& final(self).data@ == old(self).data@
                    &&& final(self).allocated == old(self).allocated
                }
                &&& free.len() > 0 ==> final(self).free_list@ == free.skip(1)
                &&& free.len() > 0 && !fits ==> {
                    &&& r is None
                    &&& final(self).data@ == old(self).data@
                    &&& final(self).allocated == old(self).allocated
                }
                &&& free.len() > 0 && fits ==> {
                    &&& r == Some(slot)
                    &&& final(self).allocated == old(self).allocated + 1
                    &&& final(self).data@ == if zeroed {
                        cleared(old(self).data@, slot as int, slot + old(self).obj_size)
                    } else {
                        old(self).data@
                    }
                }
            }),
            old(self).wf() ==> final(self).wf() && (r is Some <==> old(self).free_list@.len() > 0),
            old(self).wf() ==> (r matches Some(slot) ==> !final(self).free_list@.contains(slot)),
    {
        let ghost free = self.free_list@;
        let ghost size = self.obj_size as int;
        let total = self.data.len();
        let slot: usize = match self.free_list.pop_front() {
            Some(s) => s,
            None => {
                return None;
            },
        };
        proof {
            assert(self.free_list@ =~= free.skip(1));
            if old(self).wf() {
                lemma_slot_fits(self.data@.len() as int, size, free[0] as int);
            }
        }
        let obj_end: usize = match slot.checked_add(self.obj_size) {
            Some(e) => e,
            None => {
                return None;
            },
        };
        if obj_end > total {
            return None;
        }
        if zeroed {
            let ghost before = self.data@;
            let mut i: usize = slot;
            while i < obj_end
                invariant
                    slot <= i <= obj_end <= before.len(),
                    self.data@ == cleared(before, slot as int, i as int),
                    self.obj_size == old(self).obj_size,
                    self.capacity == old(self).capacity,
                    self.tag == old(self).tag,
                    self.allocated == old(self).allocated,
                    self.free_list@ == free.skip(1),
                decreases obj_end - i,
            {
                self.data.set(i, 0);
                i = i + 1;
                assert(self.data@ =~= cleared(before, slot as int, i as int));
            }
        }
        self.allocated = self.allocated + 1;
        proof {
            if old(self).wf() {
                let rest = self.free_list@;
                assert forall|i: int| 0 <= i < rest.len() implies is_slot(
                    self.data@.len() as int,
                    size,
                    #[trigger] rest[i] as int,
                ) by {
                    assert(rest[i] == free[i + 1]);
                }
                assert(!rest.contains(slot)) by {
                    if rest.contains(slot) {
                        let k = choose|k: int| 0 <= k < rest.len() && rest[k] == slot;
                        assert(free[k + 1] == free[0]);
                    }
                }
            }
        }
        Some(slot)
    }

    /// Returns a slot. An offset outside the data, one at which no slot starts, and
    /// one that is free already are ignored.
    pub fn slab_free(&mut self, offset: usize)
        requires
            old(self).obj_size > 0,
        ensures
            final(self).obj_size == old(self).obj_size,
            final(self).capacity == old(self).capacity,
            final(self).tag == old(self).tag,
            final(self).data@ == old(self).data@,
            ({
                let taken = is_slot(
                    old(self).data@.len() as int,
                    old(self).obj_size as int,
                    offset as int,
                ) && !old(self).free_list@.contains(offset);
                &&& !taken ==> *final(self) == *old(self)
                &&& taken ==> final(self).free_list@ == old(self).free_list@.push(offset)
                &&& taken ==> final(self).allocated == if old(self).allocated > 0 {
                    old(self).allocated - 1
                } else {
                    0
                }
            }),
            old(self).wf() ==> final(self).wf(),
    {
        let valid = offset < self.data.len();
        let aligned = (offset % self.obj_size) == 0;
        if valid && aligned {
            let mut dup = false;
            let mut i: usize = 0;
            while i < self.free_list.len()
                invariant
                    i <= self.free_list@.len(),
                    *self == *old(self),
                    dup == exists|k: int| 0 <= k < i && #[trigger] self.free_list@[k] == offset,
                decreases self.free_list@.len() - i,
            {
                if self.free_list[i] == offset {
                    dup = true;
                }
                i = i + 1;
            }
            if dup {
                return;
            }
            proof {
                if self.wf() {
                    lemma_some_slot_taken(
                        self.data@.len() as int,
                        self.obj_size as int,
                        self.free_list@,
                        offset,
                    );
                }
            }
            let ghost free = self.free_list@;
            self.free_list.push_back(offset);
            if self.allocated > 0 {
                self.allocated = self.allocated - 1;
            }
            proof {
                if old(self).wf() {
                    let now = self.free_list@;
                    assert forall|i: int| 0 <= i < now.len() implies is_slot(
                        self.data@.len() as int,
                        self.obj_size as int,
                        #[trigger] now[i] as int,
                    ) by {
                        if i < free.len() {
                            assert(now[i] == free[i]);
                        }
                    }
                    assert(now.no_duplicates()) by {
                        assert forall|i: int, j: int|
                            0 <= i < now.len() && 0 <= j < now.len() && i != j implies now[i]
                            != now[j] by {
                            if i < free.len() && j < free.len() {
                                assert(free[i] != free[j]);
                            }
                        }
                    }
                }
            }
        }
    }

    pub fn slab_used(&self) -> (r: usize)
        ensures
            r == self.allocated,
    {
        self.allocated
    }

    pub fn slab_avail(&self) -> (r: usize)
        ensures
            r == self.free_list@.len(),
    {
        self.free_list.len()
    }

    /// Gives up the storage if nothing is allocated; returns how many bytes that is.
    pub fn shrink(&mut self) -> (r: usize)
        ensures
            final(self).obj_size == old(self).obj_size,
            final(self).capacity == old(self).capacity,
            final(self).tag == old(self).tag,
            final(self).allocated == old(self).allocated,
            old(self).allocated == 0 ==> {
                &&& r == old(self).data@.len()
                &&& final(self).data@.len() == 0
                &&& final(self).free_list@.len() == 0
            },
            old(self).allocated != 0 ==> r == 0 && *final(self) == *old(self),
            old(self).wf() ==> final(self).wf(),
    {
        let before: usize = self.data.len();
        if self.allocated == 0 {
            self.data.clear();
            self.free_list.clear();
            proof {
                if old(self).wf() {
                    let n = self.obj_size as nat;
                    assert(0nat % n == 0 && 0nat / n == 0) by (nonlinear_arith)
                        requires
                            n > 0,
                    ;
                }
            }
        }
        before - self.data.len()
    }

    /// The bytes of the object at `offset`.
    pub fn obj_at(&self, offset: usize) -> (r: Option<&[u8]>)
        requires
            offset + self.obj_size <= usize::MAX,
        ensures
            match r {
                Some(obj) => offset + self.obj_size <= self.data@.len() && obj@
                    == self.data@.subrange(offset as int, offset + self.obj_size),
                None => offset + self.obj_size > self.data@.len(),
            },
    {
        if offset + self.obj_size <= self.data.len() {
            Some(
                vstd::slice::slice_subrange(
                    self.data.as_slice(),
                    offset,
                    offset + self.obj_size,
                ),
            )
        } else {
            None
        }
    }

    /// The bytes of the object at `offset`, to be written: what is written there is
    /// found there, and the rest of the slab stays as it is.
    pub fn obj_at_mut(&mut self, offset: usize) -> (r: Option<&mut [u8]>)
        requires
            offset + old(self).obj_size <= usize::MAX,
        ensures
            match r {
                Some(obj) => {
                    let end = offset + old(self).obj_size;
                    &&& end <= old(self).data@.len()
                    &&& obj@ == old(self).data@.subrange(offset as int, end)
                    &&& final(self).data@ == old(self).data@.take(offset as int) + final(obj)@ + old(self).data@.skip(end)
                    &&& final(self).obj_size == old(self).obj_size
                    &&& final(self).capacity == old(self).capacity
                    &&& final(self).free_list == old(self).free_list
                    &&& final(self).allocated == old(self).allocated
                    &&& final(self).tag == old(self).tag
                },
                None => offset + old(self).obj_size > old(self).data@.len() && *final(self) == *old(self),
            },
    {
        let size = self.obj_size;
        if offset + size <= self.data.len() {
            let (_head, rest) = self.data.as_mut_slice().split_at_mut(offset);
            let (obj, _tail) = rest.split_at_mut(size);
            Some(obj)
        } else {
            None
        }
    }
}

proof fn lemma_slab_mask(x: usize)
    requires
        x + 7 <= usize::MAX,
    ensures
        ((x + 7) as usize) & !7usize == bits::round_up(x as int, 8),
{
    let y = (x + 7) as usize;
    assert(y & !7usize == (y / 8) * 8) by (bit_vector);
}

/// A slot is held by the data in full.
proof fn lemma_slot_fits(len: int, size: int, offset: int)
    requires
        size > 0,
        len % size == 0,
        is_slot(len, size, offset),
    ensures
        offset + size <= len,
{
    vstd::arithmetic::div_mod::lemma_fundamental_div_mod(len, size);
    vstd::arithmetic::div_mod::lemma_fundamental_div_mod(offset, size);
    assert(offset + size <= len) by (nonlinear_arith)
        requires
            size > 0,
            len == size * (len / size),
            offset == size * (offset / size),
            offset < len,
    ;
}

/// If a slot is missing from the free list, the list is shorter than the slab.
proof fn lemma_some_slot_taken(len: int, size: int, free: Seq<usize>, offset: usize)
    requires
        size > 0,
        len % size == 0,
        free.no_duplicates(),
        forall|i: int| 0 <= i < free.len() ==> is_slot(len, size, #[trigger] free[i] as int),
        is_slot(len, size, offset as int),
        !free.contains(offset),
    ensures
        free.len() < len / size,
{
    let with = free.push(offset);
    let nums = with.map_values(|x: usize| x as int / size);
    assert(with[free.len() as int] == offset);
    assert forall|i: int| 0 <= i < with.len() implies is_slot(len, size, #[trigger] with[i] as int) by {
        if i < free.len() {
            assert(with[i] == free[i]);
        }
    }
    assert forall|i: int| 0 <= i < nums.len() implies 0 <= #[trigger] nums[i] < len / size by {
        let x = with[i] as int;
        assert(is_slot(len, size, x));
        lemma_slot_fits(len, size, x);
        vstd::arithmetic::div_mod::lemma_fundamental_div_mod(len, size);
        vstd::arithmetic::div_mod::lemma_fundamental_div_mod(x, size);
        assert(0 <= x / size < len / size) by (nonlinear_arith)
            requires
                size > 0,
                0 <= x,
                len == size * (len / size),
                x == size * (x / size),
                x + size <= len,
        ;
    }
    assert(nums.no_duplicates()) by {
        assert forall|i: int, j: int|
            0 <= i < nums.len() && 0 <= j < nums.len() && i != j implies nums[i] != nums[j] by {
            let x = with[i] as int;
            let y = with[j] as int;
            assert(is_slot(len, size, x) && is_slot(len, size, y));
            assert(x != y) by {
                if i < free.len() && j < free.len() {
                    assert(free[i] != free[j]);
                }
            }
            vstd::arithmetic::div_mod::lemma_fundamental_div_mod(x, size);
            vstd::arithmetic::div_mod::lemma_fundamental_div_mod(y, size);
        }
    }
    nums.unique_seq_to_set();
    let all = vstd::set_lib::set_int_range(0, len / size);
    vstd::set_lib::lemma_int_range(0, len / size);
    assert(nums.to_set().subset_of(all)) by {
        assert forall|x: int| nums.to_set().contains(x) implies all.contains(x) by {
            let i = choose|i: int| 0 <= i < nums.len() && nums[i] == x;
            assert(0 <= nums[i] < len / size);
        }
    }
    vstd::set_lib::lemma_len_subset(nums.to_set(), all);
}

/// Two slots have no byte in common, and each ends inside the slab.
pub proof fn lemma_slots_lie_apart(data_len: int, obj_size: int, a: int, b: int)
    requires
        obj_size > 0,
        data_len % obj_size == 0,
        is_slot(data_len, obj_size, a),
        is_slot(data_len, obj_size, b),
        a < b,
    ensures
        a + obj_size <= b,
        b + obj_size <= data_len,
{
    vstd::arithmetic::div_mod::lemma_fundamental_div_mod(a, obj_size);
    vstd::arithmetic::div_mod::lemma_fundamental_div_mod(b, obj_size);
    vstd::arithmetic::div_mod::lemma_fundamental_div_mod(data_len, obj_size);
    let p = a / obj_size;
    let q = b / obj_size;
    let n = data_len / obj_size;
    assert(p < q && q < n) by (nonlinear_arith)
        requires
            obj_size > 0,
            a == obj_size * p,
            b == obj_size * q,
            data_len == obj_size * n,
            a < b,
            b < data_len,
    ;
    assert(obj_size * p + obj_size <= obj_size * q && obj_size * q + obj_size <= obj_size * n)
        by (nonlinear_arith)
        requires
            obj_size > 0,
            p + 1 <= q,
            q + 1 <= n,
    ;
}

/// A slot that is cleared holds zeros, and no byte outside of it changes.
pub proof fn lemma_clearing_stays_inside(s: Seq<u8>, start: int, end: int, i: int)
    requires
        0 <= i < s.len(),
    ensures
        cleared(s, start, end).len() == s.len(),
        start <= i < end ==> cleared(s, start, end)[i] == 0,
        i < start || i >= end ==> cleared(s, start, end)[i] == s[i],
{
}

} // verus!
