//! The buddy allocator of blocks of `2^order` pages.
use crate::consts::PAGE_SIZE;
use crate::memory::addr;
use crate::util::words::log2_floor;
use vstd::arithmetic::power2::*;
use vstd::prelude::*;

verus! {

/// The exponent of the greatest power of two that is not above `v`; 0 for zero.
pub open spec fn floor_log2(v: nat) -> nat
    decreases v,
{
    if v < 2 {
        0
    } else {
        1 + floor_log2(v / 2)
    }
}

proof fn lemma_floor_log2(v: nat, r: nat)
    requires
        pow2(r) <= v < pow2(r + 1),
    ensures
        floor_log2(v) == r,
    decreases v,
{
    lemma2_to64();
    lemma_pow2_unfold(r + 1);
    if r == 0 {
    } else {
        lemma_pow2_unfold(r);
        lemma_pow2_pos((r - 1) as nat);
        lemma_floor_log2(v / 2, (r - 1) as nat);
    }
}

/// The order of the blocks that a new allocator starts with.
pub open spec fn usable_order(total_pages: nat, max_order: nat) -> nat {
    if floor_log2(total_pages) < max_order {
        floor_log2(total_pages)
    } else {
        max_order
    }
}

/// The free list of one order in a new allocator: as many blocks of the usable
/// order as there is room for, then one smaller block for each set bit of the rest.
pub open spec fn initial_list(base: int, total: nat, max_order: nat, o: nat) -> Seq<u64> {
    let u = usable_order(total, max_order);
    if o == u {
        Seq::new(
            (total / pow2(u)) as nat,
            |k: int| (base + k * pow2(u) * PAGE_SIZE) as u64,
        )
    } else if o < u && (total / pow2(o)) % 2 == 1 {
        seq![(base + (total - total % pow2(o + 1)) * PAGE_SIZE) as u64]
    } else {
        Seq::empty()
    }
}

/// The address of the block that a block of this order makes a larger one with.
pub open spec fn buddy(a: int, order: nat) -> int {
    let size = addr::block_bytes(order);
    if (a / size) % 2 == 0 {
        a + size
    } else {
        a - size
    }
}

pub open spec fn lesser(a: int, b: int) -> int {
    if a <= b {
        a
    } else {
        b
    }
}

/// `s` without the first `x`.
pub open spec fn without_first(s: Seq<u64>, x: u64) -> Seq<u64>
    decreases s.len(),
{
    if s.len() == 0 {
        s
    } else if s[0] == x {
        s.skip(1)
    } else {
        seq![s[0]] + without_first(s.skip(1), x)
    }
}

proof fn lemma_without_first(s: Seq<u64>, x: u64, at: int)
    requires
        0 <= at < s.len(),
        s[at] == x,
        forall|i: int| 0 <= i < at ==> s[i] != x,
    ensures
        without_first(s, x) == s.remove(at),
    decreases s.len(),
{
    if at == 0 {
        assert(s.remove(0) =~= s.skip(1));
    } else {
        let t = s.skip(1);
        assert forall|i: int| 0 <= i < at - 1 implies t[i] != x by {
            assert(t[i] == s[i + 1]);
        }
        lemma_without_first(t, x, at - 1);
        assert(s.remove(at) =~= seq![s[0]] + t.remove(at - 1));
    }
}

/// The free lists after the last block of order `from` has been split down to
/// `order`: each split leaves its upper half free.
pub open spec fn split_down(lists: Seq<Seq<u64>>, order: nat, from: nat) -> Seq<Seq<u64>> {
    let block = lists[from as int].last();
    Seq::new(
        lists.len(),
        |c: int|
            if c == from {
                lists[c].drop_last()
            } else if order <= c < from {
                lists[c].push((block + addr::block_bytes(c as nat)) as u64)
            } else {
                lists[c]
            },
    )
}

/// The free lists after a block has been returned: it is joined with its buddy as
/// long as that is free.
pub open spec fn joined(lists: Seq<Seq<u64>>, a: u64, order: nat, max_order: nat) -> Seq<Seq<u64>>
    decreases max_order - order,
{
    let other = buddy(a as int, order);
    if order < max_order && 0 <= other <= u64::MAX && lists[order as int].contains(other as u64) {
        joined(
            lists.update(order as int, without_first(lists[order as int], other as u64)),
            lesser(a as int, other) as u64,
            order + 1,
            max_order,
        )
    } else {
        lists.update(order as int, lists[order as int].push(a))
    }
}

/// The block is on the free list of its order.
pub open spec fn is_free(lists: Seq<Seq<u64>>, a: u64, o: nat) -> bool {
    o < lists.len() && lists[o as int].contains(a)
}

/// Every free block ends inside the address space.
pub open spec fn blocks_fit(lists: Seq<Seq<u64>>) -> bool {
    forall|a: u64, o: nat| #[trigger]
        is_free(lists, a, o) ==> a + addr::block_bytes(o) <= u64::MAX
}

/// Two blocks have no byte in common.
pub open spec fn disjoint(a: int, o: nat, b: int, p: nat) -> bool {
    a + addr::block_bytes(o) <= b || b + addr::block_bytes(p) <= a
}

/// No free block overlaps the given one.
pub open spec fn clear_of(lists: Seq<Seq<u64>>, a: u64, o: nat) -> bool {
    forall|b: u64, p: nat| #[trigger] is_free(lists, b, p) ==> disjoint(a as int, o, b as int, p)
}

/// The free blocks do not overlap, and none is listed twice.
pub open spec fn apart(lists: Seq<Seq<u64>>) -> bool {
    &&& forall|o: int| 0 <= o < lists.len() ==> (#[trigger] lists[o]).no_duplicates()
    &&& forall|a: u64, o: nat, b: u64, p: nat|
        (#[trigger] is_free(lists, a, o)) && (#[trigger] is_free(lists, b, p)) && (a != b || o != p)
            ==> disjoint(a as int, o, b as int, p)
}

/// The pages on the free lists.
pub open spec fn free_pages(lists: Seq<Seq<u64>>) -> nat
    decreases lists.len(),
{
    if lists.len() == 0 {
        0
    } else {
        free_pages(lists.drop_last()) + lists.last().len() * pow2((lists.len() - 1) as nat)
    }
}

/// The highest order with a free block; 0 if there is none.
pub open spec fn largest_order(lists: Seq<Seq<u64>>) -> nat
    decreases lists.len(),
{
    if lists.len() == 0 {
        0
    } else if lists.last().len() > 0 {
        (lists.len() - 1) as nat
    } else {
        largest_order(lists.drop_last())
    }
}

proof fn lemma_bytes(o: nat)
    ensures
        addr::block_bytes(o) == pow2(o) * PAGE_SIZE,
        addr::block_bytes(o) >= PAGE_SIZE,
        addr::block_bytes(o + 1) == 2 * addr::block_bytes(o),
        addr::block_bytes(o) == pow2(o + 12),
{
    lemma2_to64();
    lemma_pow2_pos(o);
    lemma_pow2_unfold(o + 1);
    lemma_pow2_adds(o, 12);
}

proof fn lemma_bytes_monotonic(o: nat, p: nat)
    requires
        o <= p,
    ensures
        addr::block_bytes(o) <= addr::block_bytes(p),
    decreases p - o,
{
    lemma_bytes(o);
    if o < p {
        lemma_bytes_monotonic(o + 1, p);
    }
}

/// Blocks that are smaller than the address space have an order below 52.
proof fn lemma_order_bound(o: nat)
    requires
        addr::block_bytes(o) <= u64::MAX,
    ensures
        o < 52,
{
    lemma2_to64();
    lemma_bytes(o);
    lemma_bytes(52);
    if o >= 52 {
        lemma_bytes_monotonic(52, o);
    }
}

proof fn lemma_shift_order(o: u64)
    requires
        o < 52,
    ensures
        1u64 << o == pow2(o as nat),
        pow2(o as nat) * PAGE_SIZE <= u64::MAX,
{
    lemma2_to64();
    vstd::bits::lemma_u64_pow2_no_overflow(o as nat);
    vstd::bits::lemma_u64_shl_is_mul(1, o);
    lemma_bytes(o as nat);
    lemma2_to64_rest();
    if o < 51 {
        lemma_pow2_strictly_increases((o + 12) as nat, 63);
    }
}

proof fn lemma_xor(a: u64, o: nat)
    requires
        o < 52,
    ensures
        a ^ (addr::block_bytes(o) as u64) == buddy(a as int, o) || buddy(a as int, o) > u64::MAX,
        buddy(a as int, o) >= 0,
        addr::block_bytes(o) <= u64::MAX,
        buddy(a as int, o) <= u64::MAX,
{
    lemma_bytes(o);
    lemma2_to64();
    let k = (o + 12) as u64;
    vstd::bits::lemma_u64_pow2_no_overflow(o + 12);
    vstd::bits::lemma_u64_shl_is_mul(1, k);
    vstd::bits::lemma_u64_shr_is_div(a, k);
    let size = 1u64 << k;
    assert(k < 64 && size == 1u64 << k ==> a ^ size == if (a >> k) & 1 == 0 {
        a + size
    } else {
        a - size
    }) by (bit_vector);
    let q = a >> k;
    assert(q & 1 == q % 2) by (bit_vector);
}

/// The free lists of an allocator, one for each order.
pub struct BuddyAllocator {
    pub free_lists: Vec<Vec<u64>>,
    pub max_order: usize,
    pub base_addr: u64,
    pub total_pages: u64,
    /// Pages that are handed out.
    pub allocated: u64,
}

impl View for BuddyAllocator {
    type V = Seq<Seq<u64>>;

    open spec fn view(&self) -> Seq<Seq<u64>> {
        self.free_lists@.map_values(|v: Vec<u64>| v@)
    }
}

/// A request for `2^order` pages: it gets the last free block of the lowest order
/// that has any, split as often as needed; or nothing, if no order has one.
pub open spec fn handed_out(
    before: BuddyAllocator,
    after: BuddyAllocator,
    order: nat,
    r: Option<u64>,
) -> bool {
    &&& after.wf()
    &&& after.same_range(&before)
    &&& match r {
        Some(block) => exists|from: nat|
            {
                &&& order <= from <= before.max_order
                &&& (#[trigger] before@[from as int]).len() > 0
                &&& forall|c: int| order <= c < from ==> (#[trigger] before@[c]).len() == 0
                &&& block == before@[from as int].last()
                &&& after@ == split_down(before@, order, from)
                &&& after.allocated == before.allocated.wrapping_add(pow2(order) as u64)
            },
        None => {
            &&& forall|c: int| order <= c <= before.max_order ==> (#[trigger] before@[c]).len() == 0
            &&& after@ == before@
            &&& after.allocated == before.allocated
        },
    }
}

/// A block of `2^order` pages comes back and is joined with its buddies; an order
/// above the highest changes nothing.
pub open spec fn taken_back(
    before: BuddyAllocator,
    after: BuddyAllocator,
    a: u64,
    order: nat,
) -> bool {
    &&& after.wf()
    &&& after.same_range(&before)
    &&& order > before.max_order ==> after == before
    &&& order <= before.max_order ==> {
        &&& after@ == joined(before@, a, order, before.max_order as nat)
        &&& after.allocated == before.allocated.wrapping_sub(pow2(order) as u64)
    }
}

impl BuddyAllocator {
    /// There is a free list for each order.
    pub open spec fn wf(&self) -> bool {
        self.free_lists@.len() == self.max_order + 1
    }

    /// The free blocks do not overlap, they end inside the address space, and each
    /// page is either on a free list or handed out.
    pub open spec fn sound(&self) -> bool {
        &&& self.wf()
        &&& apart(self@)
        &&& blocks_fit(self@)
        &&& free_pages(self@) + self.allocated == self.total_pages
    }

    /// Everything but the free lists and the count of allocated pages.
    pub open spec fn same_range(&self, other: &BuddyAllocator) -> bool {
        &&& self.max_order == other.max_order
        &&& self.base_addr == other.base_addr
        &&& self.total_pages == other.total_pages
    }

    /// An allocator of `total_pages` free pages from `base` on.
    pub fn new(base: u64, total_pages: u64, max_order: usize) -> (r: Self)
        requires
            max_order < usize::MAX,
            base + total_pages * PAGE_SIZE <= u64::MAX,
        ensures
            r.wf(),
            r.max_order == max_order,
            r.base_addr == base,
            r.total_pages == total_pages,
            r.allocated == 0,
            r@ == initial_lists(base as int, total_pages as nat, max_order as nat),
            r.sound(),
    {
        let ghost total = total_pages as nat;
        let mut free_lists: Vec<Vec<u64>> = Vec::new();
        let mut n: usize = 0;
        while n <= max_order
            invariant
                n <= max_order + 1,
                max_order < usize::MAX,
                free_lists@.len() == n,
                forall|i: int| 0 <= i < n ==> (#[trigger] free_lists@[i])@.len() == 0,
            decreases max_order + 1 - n,
        {
            free_lists.push(Vec::new());
            n = n + 1;
        }
        let order = log2_floor(total_pages);
        let usable_order: usize = if order < max_order as u64 {
            order as usize
        } else {
            max_order
        };
        let ghost u = usable_order as nat;
        proof {
            lemma2_to64();
            if total_pages != 0 {
                lemma_floor_log2(total, order as nat);
                lemma_pages_bound(order as nat);
            }
            lemma_shift_order(u as u64);
            lemma_pow2_pos(u);
        }
        let block_pages: u64 = 1u64 << usable_order;
        let mut addr: u64 = base;
        let mut remaining: u64 = total_pages;
        let ghost mut k: nat = 0;
        while remaining >= block_pages
            invariant
                free_lists@.len() == max_order + 1,
                usable_order <= max_order,
                u == usable_order,
                total == total_pages,
                block_pages == pow2(u),
                block_pages > 0,
                base + total_pages * PAGE_SIZE <= u64::MAX,
                remaining == total - k * pow2(u),
                addr == base + k * pow2(u) * PAGE_SIZE,
                free_lists@[usable_order as int]@ == Seq::new(
                    k,
                    |j: int| (base + j * pow2(u) * PAGE_SIZE) as u64,
                ),
                forall|i: int|
                    0 <= i <= max_order && i != usable_order ==> (#[trigger] free_lists@[i])@.len()
                        == 0,
            decreases remaining,
        {
            let ghost before = free_lists@;
            let mut list: Vec<u64> = Vec::new();
            std::mem::swap(&mut list, &mut free_lists[usable_order]);
            list.push(addr);
            std::mem::swap(&mut list, &mut free_lists[usable_order]);
            proof {
                assert((k + 1) * pow2(u) == k * pow2(u) + pow2(u)) by (nonlinear_arith);
                assert(free_lists@[usable_order as int]@ =~= Seq::new(
                    k + 1,
                    |j: int| (base + j * pow2(u) * PAGE_SIZE) as u64,
                ));
                k = k + 1;
            }
            addr = addr + block_pages * PAGE_SIZE;
            remaining = remaining - block_pages;
        }
        proof {
            vstd::arithmetic::div_mod::lemma_fundamental_div_mod_converse(
                total as int,
                pow2(u) as int,
                k as int,
                remaining as int,
            );
        }
        let ghost lists = free_lists@;
        let mut o: usize = usable_order;
        while o > 0
            invariant
                o <= usable_order <= max_order,
                u == usable_order,
                u < 52,
                total == total_pages,
                free_lists@.len() == max_order + 1,
                base + total_pages * PAGE_SIZE <= u64::MAX,
                remaining == total % pow2(o as nat),
                addr == base + (total - remaining) * PAGE_SIZE,
                remaining <= total,
                forall|i: int|
                    o <= i < usable_order ==> (#[trigger] free_lists@[i])@ == initial_list(
                        base as int,
                        total,
                        max_order as nat,
                        i as nat,
                    ),
                forall|i: int| 0 <= i < o ==> (#[trigger] free_lists@[i])@.len() == 0,
                forall|i: int|
                    usable_order <= i <= max_order ==> #[trigger] free_lists@[i] == lists[i],
                u == self::usable_order(total, max_order as nat),
            decreases o,
        {
            o = o - 1;
            proof {
                lemma_shift_order(o as u64);
                lemma_pow2_pos(o as nat);
                lemma_pow2_unfold((o + 1) as nat);
                vstd::arithmetic::div_mod::lemma_mod_breakdown(
                    total as int,
                    pow2(o as nat) as int,
                    2,
                );
                let p = pow2(o as nat) as int;
                assert(p * 2 == pow2((o + 1) as nat));
                assert(total as int % (p * 2) == p * ((total as int / p) % 2) + total as int % p);
                vstd::arithmetic::div_mod::lemma_mod_bound(total as int, p);
                assert(p * 0 == 0 && p * 1 == p);
            }
            let ghost before = free_lists@;
            let pages: u64 = 1u64 << o;
            if remaining >= pages {
                let mut list: Vec<u64> = Vec::new();
                std::mem::swap(&mut list, &mut free_lists[o]);
                list.push(addr);
                std::mem::swap(&mut list, &mut free_lists[o]);
                assert(free_lists@[o as int]@ =~= seq![addr]);
                assert(pages * PAGE_SIZE <= remaining * PAGE_SIZE);
                addr = addr + pages * PAGE_SIZE;
                remaining = remaining - pages;
            }
            assert(free_lists@[o as int]@ =~= initial_list(
                base as int,
                total,
                max_order as nat,
                o as nat,
            ));
        }
        let r = Self { free_lists, max_order, base_addr: base, total_pages, allocated: 0 };
        proof {
            assert forall|i: int| 0 <= i <= max_order implies #[trigger] r@[i] =~= initial_list(
                base as int,
                total,
                max_order as nat,
                i as nat,
            ) by {
                assert(r@[i] == free_lists@[i]@);
            }
            assert(r@ =~= initial_lists(base as int, total, max_order as nat));
            lemma_new_tiles_range(base as int, total, max_order as nat);
        }
        r
    }

    /// Takes a block of `2^order` pages: the last free one of the lowest order that
    /// has any, split as often as needed.
    pub fn alloc_order(&mut self, order: usize) -> (r: Option<u64>)
        requires
            old(self).wf(),
            blocks_fit(old(self)@),
        ensures
            handed_out(*old(self), *final(self), order as nat, r),
            old(self).sound() ==> final(self).sound(),
    {
        if order > self.max_order {
            return None;
        }
        let ghost lists = self@;
        let list_count = self.free_lists.len();
        let mut o: usize = order;
        while o <= self.max_order
            invariant
                order <= o <= self.max_order + 1,
                self.max_order < usize::MAX,
                *self == *old(self),
                self.wf(),
                lists == self@,
                blocks_fit(lists),
                forall|c: int| order <= c < o ==> (#[trigger] lists[c]).len() == 0,
            decreases self.max_order + 1 - o,
        {
            assert(lists[o as int] == self.free_lists@[o as int]@);
            if self.free_lists[o].len() > 0 {
                let mut list: Vec<u64> = Vec::new();
                std::mem::swap(&mut list, &mut self.free_lists[o]);
                let block: u64 = list.pop().unwrap();
                std::mem::swap(&mut list, &mut self.free_lists[o]);
                proof {
                    assert(lists[o as int].last() == block);
                    assert(lists[o as int].contains(block));
                    assert(is_free(lists, block, o as nat));
                    lemma_order_bound(o as nat);
                    assert(self.free_lists@[o as int]@ =~= lists[o as int].drop_last());
                }
                let mut current_order: usize = o;
                while current_order > order
                    invariant
                        order <= current_order <= o <= self.max_order,
                        o < 52,
                        self.same_range(old(self)),
                        self.wf(),
                        self.allocated == old(self).allocated,
                        lists == old(self)@,
                        lists.len() == self.free_lists@.len(),
                        lists[o as int].len() > 0,
                        block == lists[o as int].last(),
                        block + addr::block_bytes(o as nat) <= u64::MAX,
                        self.free_lists@[o as int]@ == lists[o as int].drop_last(),
                        forall|c: int|
                            current_order <= c < o ==> (#[trigger] self.free_lists@[c])@
                                == lists[c].push((block + addr::block_bytes(c as nat)) as u64),
                        forall|c: int|
                            0 <= c < lists.len() && (c < current_order || c > o) ==> (
                            #[trigger] self.free_lists@[c])@ == lists[c],
                    decreases current_order,
                {
                    current_order = current_order - 1;
                    proof {
                        lemma_shift_order(current_order as u64);
                        lemma_bytes(current_order as nat);
                        lemma_bytes_monotonic(current_order as nat, o as nat);
                    }
                    let other: u64 = block + (1u64 << current_order) * PAGE_SIZE;
                    let mut list: Vec<u64> = Vec::new();
                    std::mem::swap(&mut list, &mut self.free_lists[current_order]);
                    list.push(other);
                    std::mem::swap(&mut list, &mut self.free_lists[current_order]);
                }
                proof {
                    lemma_bytes_monotonic(order as nat, o as nat);
                    lemma_order_bound(order as nat);
                    lemma_shift_order(order as u64);
                }
                self.allocated = self.allocated.wrapping_add(1u64 << order);
                proof {
                    let want = split_down(lists, order as nat, o as nat);
                    assert forall|c: int| 0 <= c < want.len() implies self@[c] == #[trigger] want[c] by {
                        assert(self@[c] == self.free_lists@[c]@);
                    }
                    assert(self@ =~= want);
                    assert(old(self)@[(o as nat) as int].len() > 0);
                    if old(self).sound() {
                        lemma_alloc_keeps_sound(*old(self), *self, order as nat, Some(block));
                    }
                }
                return Some(block);
            }
            o = o + 1;
        }
        None
    }

    /// Returns a block of `2^order` pages. Orders above the highest are ignored.
    pub fn free_order(&mut self, addr: u64, order: usize)
        requires
            old(self).wf(),
            order <= old(self).max_order ==> blocks_fit(old(self)@) && addr + addr::block_bytes(
                order as nat,
            ) <= u64::MAX,
        ensures
            taken_back(*old(self), *final(self), addr, order as nat),
            old(self).sound() && (order <= old(self).max_order ==> clear_of(
                old(self)@,
                addr,
                order as nat,
            ) && pow2(order as nat) <= old(self).allocated) ==> final(self).sound(),
    {
        if order > self.max_order {
            return;
        }
        let mut current_addr: u64 = addr;
        let mut current_order: usize = order;
        let ghost max = self.max_order as nat;
        proof {
            lemma_order_bound(order as nat);
        }
        while current_order < self.max_order
            invariant
                order <= current_order <= self.max_order,
                self.wf(),
                self.same_range(old(self)),
                self.allocated == old(self).allocated,
                max == self.max_order,
                blocks_fit(self@),
                current_addr + addr::block_bytes(current_order as nat) <= u64::MAX,
                joined(self@, current_addr, current_order as nat, max) == joined(
                    old(self)@,
                    addr,
                    order as nat,
                    max,
                ),
            ensures
                order <= current_order <= self.max_order,
                self.wf(),
                self.same_range(old(self)),
                self.allocated == old(self).allocated,
                self@.update(
                    current_order as int,
                    self@[current_order as int].push(current_addr),
                ) == joined(old(self)@, addr, order as nat, max),
            decreases self.max_order - current_order,
        {
            let ghost lists = self@;
            let ghost co = current_order as nat;
            proof {
                lemma_order_bound(co);
                lemma_shift_order(current_order as u64);
                lemma_bytes(co);
                lemma_xor(current_addr, co);
                assert(lists[current_order as int] == self.free_lists@[current_order as int]@);
            }
            let block_size: u64 = (1u64 << current_order) * PAGE_SIZE;
            let buddy_addr: u64 = current_addr ^ block_size;
            let found = position(&self.free_lists[current_order], buddy_addr);
            match found {
                Some(pos) => {
                    let mut list: Vec<u64> = Vec::new();
                    std::mem::swap(&mut list, &mut self.free_lists[current_order]);
                    list.remove(pos);
                    std::mem::swap(&mut list, &mut self.free_lists[current_order]);
                    proof {
                        let row = lists[current_order as int];
                        lemma_without_first(row, buddy_addr, pos as int);
                        assert(self@ =~= lists.update(
                            current_order as int,
                            without_first(row, buddy_addr),
                        ));
                        assert(row.contains(buddy_addr));
                        assert(is_free(lists, buddy_addr, co));
                        assert(blocks_fit(self@)) by {
                            assert forall|a: u64, o: nat| #[trigger]
                                is_free(self@, a, o) implies is_free(lists, a, o) by {
                                if o == co {
                                    let i = choose|i: int|
                                        0 <= i < self@[o as int].len() && self@[o as int][i] == a;
                                    let j = if i < pos {
                                        i
                                    } else {
                                        i + 1
                                    };
                                    assert(row[j] == a);
                                }
                            }
                        }
                    }
                    if buddy_addr < current_addr {
                        current_addr = buddy_addr;
                    }
                    current_order = current_order + 1;
                },
                None => {
                    break;
                },
            }
        }
        let ghost lists = self@;
        let mut list: Vec<u64> = Vec::new();
        std::mem::swap(&mut list, &mut self.free_lists[current_order]);
        list.push(current_addr);
        std::mem::swap(&mut list, &mut self.free_lists[current_order]);
        proof {
            assert(self@ =~= lists.update(
                current_order as int,
                lists[current_order as int].push(current_addr),
            ));
            lemma_shift_order(order as u64);
        }
        self.allocated = self.allocated.wrapping_sub(1u64 << order);
        proof {
            if old(self).sound() && clear_of(old(self)@, addr, order as nat) && pow2(order as nat)
                <= old(self).allocated {
                lemma_free_returns_pages(old(self)@, addr, order as nat, max);
                lemma_free_keeps_apart(old(self)@, addr, order as nat, max);
            }
        }
    }

    /// The pages on the free lists.
    pub fn free_pages_count(&self) -> (r: u64)
        requires
            self.free_lists@.len() <= 64,
            free_pages(self@) <= u64::MAX,
        ensures
            r == free_pages(self@),
    {
        let ghost lists = self@;
        let mut count: u64 = 0;
        let mut order: usize = 0;
        while order < self.free_lists.len()
            invariant
                order <= self.free_lists@.len() <= 64,
                lists == self@,
                free_pages(lists) <= u64::MAX,
                count == free_pages(lists.take(order as int)),
            decreases self.free_lists@.len() - order,
        {
            proof {
                let t = lists.take(order + 1);
                assert(t.drop_last() =~= lists.take(order as int));
                lemma_pages_prefix(lists, order + 1);
                vstd::bits::lemma_u64_pow2_no_overflow(order as nat);
                vstd::bits::lemma_u64_shl_is_mul(1, order as u64);
                assert(lists[order as int] == self.free_lists@[order as int]@);
            }
            let len: u64 = self.free_lists[order].len() as u64;
            count = count + len * (1u64 << order);
            order = order + 1;
        }
        assert(lists.take(order as int) =~= lists);
        count
    }

    /// The highest order with a free block; 0 if there is none.
    pub fn largest_free_order(&self) -> (r: usize)
        requires
            self.wf(),
        ensures
            r == largest_order(self@),
            r <= self.max_order,
    {
        let ghost lists = self@;
        let mut o: usize = self.free_lists.len();
        assert(lists.take(o as int) =~= lists);
        while o > 0
            invariant
                o <= self.max_order + 1,
                self.wf(),
                lists == self@,
                largest_order(lists.take(o as int)) == largest_order(lists),
            decreases o,
        {
            o = o - 1;
            proof {
                assert(lists[o as int] == self.free_lists@[o as int]@);
                assert(lists.take(o + 1).drop_last() =~= lists.take(o as int));
            }
            if self.free_lists[o].len() > 0 {
                return o;
            }
        }
        0
    }

    /// The share of free pages outside one block of the largest free order, in
    /// percent.
    pub fn fragmentation_score(&self) -> (r: u64)
        requires
            self.wf(),
            self.free_lists@.len() <= 64,
            free_pages(self@) * 100 <= u64::MAX,
        ensures
            r == (if free_pages(self@) <= pow2(largest_order(self@)) {
                0
            } else {
                (free_pages(self@) - pow2(largest_order(self@))) * 100 / free_pages(self@) as int
            }),
    {
        let total_free = self.free_pages_count();
        if total_free == 0 {
            return 0;
        }
        let largest = self.largest_free_order();
        proof {
            vstd::bits::lemma_u64_pow2_no_overflow(largest as nat);
            vstd::bits::lemma_u64_shl_is_mul(1, largest as u64);
        }
        let largest_block: u64 = 1u64 << largest;
        if total_free <= largest_block {
            return 0;
        }
        ((total_free - largest_block) * 100) / total_free
    }

    /// A copy of the allocator as it is.
    pub fn snapshot(&self) -> (r: BuddyAllocator)
        ensures
            r@ == self@,
            r.same_range(self),
            r.allocated == self.allocated,
    {
        let mut free_lists: Vec<Vec<u64>> = Vec::new();
        let mut i: usize = 0;
        while i < self.free_lists.len()
            invariant
                i <= self.free_lists@.len(),
                free_lists@.len() == i,
                forall|k: int|
                    0 <= k < i ==> (#[trigger] free_lists@[k])@ == self.free_lists@[k]@,
            decreases self.free_lists@.len() - i,
        {
            let list = copied(&self.free_lists[i]);
            free_lists.push(list);
            i = i + 1;
        }
        let r = BuddyAllocator {
            free_lists,
            max_order: self.max_order,
            base_addr: self.base_addr,
            total_pages: self.total_pages,
            allocated: self.allocated,
        };
        assert(r@ =~= self@);
        r
    }
}

fn copied(v: &Vec<u64>) -> (r: Vec<u64>)
    ensures
        r@ == v@,
{
    let mut out: Vec<u64> = Vec::new();
    let mut i: usize = 0;
    while i < v.len()
        invariant
            i <= v@.len(),
            out@ == v@.take(i as int),
        decreases v@.len() - i,
    {
        out.push(v[i]);
        i = i + 1;
        assert(out@ =~= v@.take(i as int));
    }
    assert(v@.take(i as int) =~= v@);
    out
}

fn position(v: &Vec<u64>, x: u64) -> (r: Option<usize>)
    ensures
        match r {
            Some(at) => {
                &&& at < v@.len()
                &&& v@[at as int] == x
                &&& forall|i: int| 0 <= i < at ==> v@[i] != x
            },
            None => !v@.contains(x),
        },
{
    let mut i: usize = 0;
    while i < v.len()
        invariant
            i <= v@.len(),
            forall|k: int| 0 <= k < i ==> v@[k] != x,
        decreases v@.len() - i,
    {
        if v[i] == x {
            return Some(i);
        }
        i = i + 1;
    }
    None
}

proof fn lemma_pages_bound(order: nat)
    requires
        pow2(order) * PAGE_SIZE <= u64::MAX,
    ensures
        order < 52,
{
    lemma_bytes(order);
    lemma_order_bound(order);
}

proof fn lemma_pages_prefix(lists: Seq<Seq<u64>>, i: int)
    requires
        0 <= i <= lists.len(),
    ensures
        free_pages(lists.take(i)) <= free_pages(lists),
    decreases lists.len() - i,
{
    if i == lists.len() {
        assert(lists.take(i) =~= lists);
    } else {
        let t = lists.take(i + 1);
        assert(t.drop_last() =~= lists.take(i));
        lemma_pages_prefix(lists, i + 1);
    }
}

/// Changing one list changes the free pages by that list alone.
proof fn lemma_pages_update(lists: Seq<Seq<u64>>, o: int, row: Seq<u64>)
    requires
        0 <= o < lists.len(),
    ensures
        free_pages(lists.update(o, row)) == free_pages(lists) + (row.len() - lists[o].len())
            * pow2(o as nat),
    decreases lists.len(),
{
    let t = lists.update(o, row);
    let p = pow2(o as nat) as int;
    if o == lists.len() - 1 {
        assert(t.drop_last() =~= lists.drop_last());
        assert(row.len() * p - lists[o].len() * p == (row.len() - lists[o].len()) * p)
            by (nonlinear_arith);
    } else {
        assert(t.drop_last() =~= lists.drop_last().update(o, row));
        lemma_pages_update(lists.drop_last(), o, row);
    }
}

/// An allocation takes exactly the pages of its block from the free lists.
pub proof fn lemma_alloc_takes_pages(lists: Seq<Seq<u64>>, order: nat, from: nat)
    requires
        order <= from < lists.len(),
        lists[from as int].len() > 0,
    ensures
        free_pages(split_down(lists, order, from)) == free_pages(lists) - pow2(order),
{
    lemma_split_pages(lists, from, order);
}

proof fn lemma_split_pages(lists: Seq<Seq<u64>>, from: nat, down: nat)
    requires
        down <= from < lists.len(),
        lists[from as int].len() > 0,
    ensures
        free_pages(split_down(lists, down, from)) == free_pages(lists) - pow2(down),
    decreases from - down,
{
    let now = split_down(lists, down, from);
    if down == from {
        lemma_pages_update(lists, from as int, lists[from as int].drop_last());
        assert(now =~= lists.update(from as int, lists[from as int].drop_last()));
        let p = pow2(from) as int;
        assert((lists[from as int].len() - 1 - lists[from as int].len()) * p == -p)
            by (nonlinear_arith);
    } else {
        lemma_split_pages(lists, from, down + 1);
        let above = split_down(lists, down + 1, from);
        let block = lists[from as int].last();
        let row = lists[down as int].push((block + addr::block_bytes(down)) as u64);
        lemma_pages_update(above, down as int, row);
        assert(now =~= above.update(down as int, row));
        lemma_pow2_unfold(down + 1);
        let p = pow2(down) as int;
        assert((row.len() - above[down as int].len()) * p == p) by (nonlinear_arith)
            requires
                row.len() - above[down as int].len() == 1,
        ;
    }
}

/// A return gives exactly the pages of its block back to the free lists.
pub proof fn lemma_free_returns_pages(lists: Seq<Seq<u64>>, a: u64, order: nat, max_order: nat)
    requires
        order <= max_order < lists.len(),
    ensures
        free_pages(joined(lists, a, order, max_order)) == free_pages(lists) + pow2(order),
    decreases max_order - order,
{
    let other = buddy(a as int, order);
    let row = lists[order as int];
    let p = pow2(order) as int;
    if order < max_order && 0 <= other <= u64::MAX && row.contains(other as u64) {
        let rest = without_first(row, other as u64);
        lemma_without_len(row, other as u64);
        let next = lists.update(order as int, rest);
        lemma_pages_update(lists, order as int, rest);
        assert((rest.len() - row.len()) * p == -p) by (nonlinear_arith)
            requires
                rest.len() - row.len() == -1,
        ;
        lemma_free_returns_pages(next, lesser(a as int, other) as u64, order + 1, max_order);
        lemma_pow2_unfold(order + 1);
    } else {
        lemma_pages_update(lists, order as int, row.push(a));
        assert((row.push(a).len() - row.len()) * p == p) by (nonlinear_arith)
            requires
                row.push(a).len() - row.len() == 1,
        ;
    }
}

proof fn lemma_without_len(s: Seq<u64>, x: u64)
    requires
        s.contains(x),
    ensures
        without_first(s, x).len() == s.len() - 1,
    decreases s.len(),
{
    if s[0] != x {
        let t = s.skip(1);
        let i = choose|i: int| 0 <= i < s.len() && s[i] == x;
        assert(t[i - 1] == x);
        lemma_without_len(t, x);
    }
}

/// Which blocks are free after a split.
proof fn lemma_free_after_split(lists: Seq<Seq<u64>>, order: nat, from: nat, b: u64, p: nat)
    requires
        order <= from < lists.len(),
        lists[from as int].len() > 0,
        apart(lists),
        is_free(split_down(lists, order, from), b, p),
    ensures
        ({
            let block = lists[from as int].last();
            ||| is_free(lists, b, p) && (b != block || p != from)
            ||| order <= p < from && b == (block + addr::block_bytes(p)) as u64
        }),
{
    let now = split_down(lists, order, from);
    let block = lists[from as int].last();
    let i = choose|i: int| 0 <= i < now[p as int].len() && now[p as int][i] == b;
    if i < lists[p as int].len() {
        assert(lists[p as int][i] == b);
        if p == from && b == block {
            assert(lists[from as int].no_duplicates());
            assert(lists[from as int][lists[from as int].len() - 1] == block);
        }
    }
}

/// An allocation keeps the free blocks apart, and the block that it hands out
/// overlaps none of them.
pub proof fn lemma_alloc_keeps_apart(lists: Seq<Seq<u64>>, order: nat, from: nat)
    requires
        order <= from < lists.len(),
        lists[from as int].len() > 0,
        apart(lists),
        blocks_fit(lists),
    ensures
        apart(split_down(lists, order, from)),
        blocks_fit(split_down(lists, order, from)),
        clear_of(split_down(lists, order, from), lists[from as int].last(), order),
{
    let now = split_down(lists, order, from);
    let block = lists[from as int].last();
    assert(lists[from as int][lists[from as int].len() - 1] == block);
    assert(is_free(lists, block, from));
    assert forall|p: nat| order <= p < from implies addr::block_bytes(order) <= (
    #[trigger] addr::block_bytes(p)) && 2 * addr::block_bytes(p) <= addr::block_bytes(from)
        && addr::block_bytes(p) >= PAGE_SIZE by {
        lemma_bytes(p);
        lemma_bytes_monotonic(order, p);
        lemma_bytes_monotonic(p + 1, from);
    }
    lemma_bytes(order);
    lemma_bytes_monotonic(order, from);
    assert forall|b: u64, p: nat| #[trigger] is_free(now, b, p) implies disjoint(
        block as int,
        order,
        b as int,
        p,
    ) && b + addr::block_bytes(p) <= u64::MAX by {
        lemma_free_after_split(lists, order, from, b, p);
        if is_free(lists, b, p) && (b != block || p != from) {
            assert(disjoint(block as int, from, b as int, p));
        }
    }
    assert forall|a: u64, o: nat, b: u64, p: nat|
        (#[trigger] is_free(now, a, o)) && (#[trigger] is_free(now, b, p)) && (a != b || o
            != p) implies disjoint(a as int, o, b as int, p) by {
        lemma_free_after_split(lists, order, from, a, o);
        lemma_free_after_split(lists, order, from, b, p);
        let old_a = is_free(lists, a, o) && (a != block || o != from);
        let old_b = is_free(lists, b, p) && (b != block || p != from);
        if old_a {
            assert(disjoint(block as int, from, a as int, o));
        }
        if old_b {
            assert(disjoint(block as int, from, b as int, p));
        }
        if !old_a && !old_b {
            if o < p {
                lemma_bytes(o);
                lemma_bytes_monotonic(o + 1, p);
            } else if p < o {
                lemma_bytes(p);
                lemma_bytes_monotonic(p + 1, o);
            }
        }
    }
    assert forall|o: int| 0 <= o < now.len() implies (#[trigger] now[o]).no_duplicates() by {
        let row = lists[o];
        assert(row.no_duplicates());
        if order <= o < from {
            let half = (block + addr::block_bytes(o as nat)) as u64;
            if row.contains(half) {
                assert(is_free(lists, half, o as nat));
                assert(disjoint(block as int, from, half as int, o as nat));
            }
            assert(now[o] =~= row.push(half));
            assert forall|i: int, j: int|
                0 <= i < now[o].len() && 0 <= j < now[o].len() && i != j implies now[o][i]
                != now[o][j] by {
                if i < row.len() && j < row.len() {
                    assert(row[i] != row[j]);
                } else if i < row.len() {
                    assert(row.contains(row[i]));
                } else {
                    assert(row.contains(row[j]));
                }
            }
        } else if o == from {
            assert forall|i: int, j: int|
                0 <= i < now[o].len() && 0 <= j < now[o].len() && i != j implies now[o][i]
                != now[o][j] by {
                assert(row[i] != row[j]);
            }
        }
    }
}

/// A return keeps the free blocks apart, if the returned block overlaps none.
pub proof fn lemma_free_keeps_apart(lists: Seq<Seq<u64>>, a: u64, order: nat, max_order: nat)
    requires
        order <= max_order < lists.len(),
        apart(lists),
        blocks_fit(lists),
        clear_of(lists, a, order),
        a + addr::block_bytes(order) <= u64::MAX,
    ensures
        apart(joined(lists, a, order, max_order)),
        blocks_fit(joined(lists, a, order, max_order)),
    decreases max_order - order,
{
    let other = buddy(a as int, order);
    let row = lists[order as int];
    lemma_bytes(order);
    if order < max_order && 0 <= other <= u64::MAX && row.contains(other as u64) {
        let b = other as u64;
        let low = lesser(a as int, other) as u64;
        let at = choose|at: int| 0 <= at < row.len() && row[at] == b;
        assert forall|i: int| 0 <= i < at implies row[i] != b by {
            assert(row.no_duplicates());
        }
        lemma_without_first(row, b, at);
        let rest = row.remove(at);
        let next = lists.update(order as int, rest);
        assert(is_free(lists, b, order));
        assert forall|c: u64, p: nat| #[trigger] is_free(next, c, p) implies is_free(lists, c, p)
            && (c != b || p != order) by {
            if p == order {
                let i = choose|i: int| 0 <= i < rest.len() && rest[i] == c;
                let j = if i < at {
                    i
                } else {
                    i + 1
                };
                assert(row[j] == c);
                assert(row.no_duplicates());
            }
        }
        assert forall|c: u64, p: nat| #[trigger] is_free(next, c, p) implies disjoint(
            low as int,
            order + 1,
            c as int,
            p,
        ) by {
            assert(is_free(lists, c, p));
            assert(disjoint(a as int, order, c as int, p));
            assert(disjoint(b as int, order, c as int, p));
            lemma_bytes(p);
        }
        assert forall|o: int| 0 <= o < next.len() implies (#[trigger] next[o]).no_duplicates() by {
            assert(lists[o].no_duplicates());
            if o == order {
                assert forall|i: int, j: int|
                    0 <= i < rest.len() && 0 <= j < rest.len() && i != j implies rest[i]
                    != rest[j] by {
                    let x = if i < at {
                        i
                    } else {
                        i + 1
                    };
                    let y = if j < at {
                        j
                    } else {
                        j + 1
                    };
                    assert(row[x] != row[y]);
                }
            }
        }
        lemma_free_keeps_apart(next, low, order + 1, max_order);
    } else {
        let pushed = row.push(a);
        let next = lists.update(order as int, pushed);
        assert(!row.contains(a)) by {
            if row.contains(a) {
                assert(is_free(lists, a, order));
                assert(disjoint(a as int, order, a as int, order));
            }
        }
        assert forall|c: u64, p: nat| #[trigger] is_free(next, c, p) implies is_free(lists, c, p)
            || (c == a && p == order) by {
            if p == order {
                let i = choose|i: int| 0 <= i < pushed.len() && pushed[i] == c;
                if i < row.len() {
                    assert(row[i] == c);
                }
            }
        }
        assert forall|o: int| 0 <= o < next.len() implies (#[trigger] next[o]).no_duplicates() by {
            assert(lists[o].no_duplicates());
            if o == order {
                assert forall|i: int, j: int|
                    0 <= i < pushed.len() && 0 <= j < pushed.len() && i != j implies pushed[i]
                    != pushed[j] by {
                    if i < row.len() && j < row.len() {
                        assert(row[i] != row[j]);
                    } else if i < row.len() {
                        assert(row.contains(row[i]));
                    } else {
                        assert(row.contains(row[j]));
                    }
                }
            }
        }
    }
}

/// Returning a block right after it was allocated restores the free lists, if the
/// block that was split is aligned to its size and has no free buddy itself.
pub proof fn lemma_free_undoes_alloc(
    lists: Seq<Seq<u64>>,
    order: nat,
    from: nat,
    max_order: nat,
)
    requires
        order <= from <= max_order < lists.len(),
        lists[from as int].len() > 0,
        apart(lists),
        blocks_fit(lists),
        lists[from as int].last() as int % addr::block_bytes(from) == 0,
        from < max_order ==> !lists[from as int].contains(
            buddy(lists[from as int].last() as int, from) as u64,
        ),
    ensures
        joined(split_down(lists, order, from), lists[from as int].last(), order, max_order)
            == lists,
    decreases from - order,
{
    let block = lists[from as int].last();
    let now = split_down(lists, order, from);
    assert(lists[from as int][lists[from as int].len() - 1] == block);
    assert(is_free(lists, block, from));
    lemma_bytes(order);
    if order == from {
        let row = lists[from as int];
        let other = buddy(block as int, from);
        assert(now[from as int] == row.drop_last());
        if from < max_order && 0 <= other <= u64::MAX && row.drop_last().contains(other as u64) {
            let i = choose|i: int|
                0 <= i < row.drop_last().len() && row.drop_last()[i] == other as u64;
            assert(row[i] == other as u64);
        }
        assert(row.drop_last().push(block) =~= row);
        assert(now.update(from as int, row) =~= lists);
    } else {
        let row = lists[order as int];
        let half = (block + addr::block_bytes(order)) as u64;
        let pushed = now[order as int];
        lemma_bytes_monotonic(order + 1, from);
        assert(pushed =~= row.push(half));
        lemma_aligned_buddy(block as int, order, from);
        assert(!row.contains(half)) by {
            if row.contains(half) {
                assert(is_free(lists, half, order));
                assert(disjoint(block as int, from, half as int, order));
            }
        }
        assert(pushed[row.len() as int] == half);
        assert forall|i: int| 0 <= i < row.len() implies pushed[i] != half by {
            assert(row.contains(row[i]));
        }
        lemma_without_first(pushed, half, row.len() as int);
        assert(pushed.remove(row.len() as int) =~= row);
        let above = split_down(lists, order + 1, from);
        assert(now.update(order as int, row) =~= above);
        lemma_free_undoes_alloc(lists, order + 1, from, max_order);
    }
}

proof fn lemma_aligned_buddy(block: int, order: nat, from: nat)
    requires
        order < from,
        block >= 0,
        block % addr::block_bytes(from) == 0,
    ensures
        buddy(block, order) == block + addr::block_bytes(order),
{
    let small = addr::block_bytes(order);
    let big = addr::block_bytes(from);
    lemma_bytes(order);
    lemma_bytes(from);
    lemma_pow2_adds((from - order - 1) as nat, order + 13);
    lemma_pow2_pos((from - order - 1) as nat);
    lemma_pow2_unfold(order + 13);
    let m = pow2((from - order - 1) as nat) as int;
    assert(big == m * (2 * small));
    vstd::arithmetic::div_mod::lemma_fundamental_div_mod(block, big);
    let q = block / big;
    assert(block == (q * m * 2) * small) by (nonlinear_arith)
        requires
            block == big * q,
            big == m * (2 * small),
    ;
    vstd::arithmetic::div_mod::lemma_div_multiples_vanish(q * m * 2, small);
    assert((q * m * 2) % 2 == 0) by {
        vstd::arithmetic::div_mod::lemma_mod_multiples_basic(q * m, 2);
    }
}

proof fn lemma_alloc_keeps_sound(
    before: BuddyAllocator,
    after: BuddyAllocator,
    order: nat,
    r: Option<u64>,
)
    requires
        before.sound(),
        handed_out(before, after, order, r),
    ensures
        after.sound(),
        r matches Some(block) ==> {
            &&& exists|from: nat| order <= from && #[trigger] is_free(before@, block, from)
            &&& clear_of(after@, block, order)
            &&& free_pages(after@) == free_pages(before@) - pow2(order)
            &&& after.allocated == before.allocated + pow2(order)
        },
{
    if let Some(block) = r {
        let from = choose|from: nat|
            {
                &&& order <= from <= before.max_order
                &&& (#[trigger] before@[from as int]).len() > 0
                &&& forall|c: int| order <= c < from ==> (#[trigger] before@[c]).len() == 0
                &&& block == before@[from as int].last()
                &&& after@ == split_down(before@, order, from)
                &&& after.allocated == before.allocated.wrapping_add(pow2(order) as u64)
            };
        assert(before@[from as int].contains(block));
        assert(is_free(before@, block, from));
        lemma_alloc_takes_pages(before@, order, from);
        lemma_alloc_keeps_apart(before@, order, from);
    }
}

/// A request succeeds exactly if some block of its order or a higher one is free.
/// The block it gets was the start of such a block, and no free block meets it any
/// more; `2^order` pages leave the free lists for the count of pages handed out. A
/// request that fails changes nothing.
pub proof fn lemma_alloc_hands_out_free_block(
    before: BuddyAllocator,
    after: BuddyAllocator,
    order: nat,
    r: Option<u64>,
)
    requires
        before.sound(),
        handed_out(before, after, order, r),
    ensures
        after.sound(),
        r is Some <==> exists|a: u64, from: nat| order <= from && #[trigger] is_free(before@, a, from),
        r matches Some(block) ==> {
            &&& exists|from: nat| order <= from && #[trigger] is_free(before@, block, from)
            &&& clear_of(after@, block, order)
            &&& free_pages(after@) == free_pages(before@) - pow2(order)
            &&& after.allocated == before.allocated + pow2(order)
        },
        r is None ==> after@ == before@ && after.allocated == before.allocated,
{
    lemma_alloc_keeps_sound(before, after, order, r);
    if r is None {
        assert forall|a: u64, from: nat| order <= from implies !#[trigger] is_free(
            before@,
            a,
            from,
        ) by {
            if from < before@.len() {
                assert(before@[from as int].len() == 0);
            }
        }
    }
}

/// A block that comes back, of a size that was handed out, adds its pages to the
/// free lists and takes them off the count of pages handed out.
pub proof fn lemma_free_accounts(before: BuddyAllocator, after: BuddyAllocator, a: u64, order: nat)
    requires
        before.sound(),
        taken_back(before, after, a, order),
        order <= before.max_order,
        pow2(order) <= before.allocated,
    ensures
        free_pages(after@) == free_pages(before@) + pow2(order),
        after.allocated == before.allocated - pow2(order),
        free_pages(after@) + after.allocated == after.total_pages,
{
    lemma_free_returns_pages(before@, a, order, before.max_order as nat);
}

/// The pages of the blocks in the list, given as address and order.
pub open spec fn held_pages(held: Seq<(u64, nat)>) -> nat
    decreases held.len(),
{
    if held.len() == 0 {
        0
    } else {
        held_pages(held.drop_last()) + pow2(held.last().1)
    }
}

/// `held` lists the blocks that are handed out: they meet neither each other nor a
/// free block, and their pages are those that the allocator counts.
pub open spec fn in_use(b: BuddyAllocator, held: Seq<(u64, nat)>) -> bool {
    &&& b.sound()
    &&& held_pages(held) == b.allocated
    &&& forall|i: int|
        0 <= i < held.len() ==> {
            &&& (#[trigger] held[i]).1 <= b.max_order
            &&& held[i].0 + addr::block_bytes(held[i].1) <= u64::MAX
            &&& clear_of(b@, held[i].0, held[i].1)
        }
    &&& forall|i: int, j: int|
        0 <= i < j < held.len() ==> disjoint(
            (#[trigger] held[i]).0 as int,
            held[i].1,
            (#[trigger] held[j]).0 as int,
            held[j].1,
        )
}

/// A new allocator has handed out nothing.
pub proof fn lemma_new_holds_nothing(b: BuddyAllocator)
    requires
        b.sound(),
        b.allocated == 0,
    ensures
        in_use(b, Seq::empty()),
{
}

/// A request that succeeds adds its block to those that are handed out, apart from
/// all of them; one that fails adds none.
pub proof fn lemma_alloc_adds_block(
    before: BuddyAllocator,
    after: BuddyAllocator,
    order: nat,
    r: Option<u64>,
    held: Seq<(u64, nat)>,
)
    requires
        in_use(before, held),
        handed_out(before, after, order, r),
    ensures
        r matches Some(a) ==> in_use(after, held.push((a, order))),
        r is None ==> in_use(after, held),
{
    lemma_alloc_keeps_sound(before, after, order, r);
    if let Some(block) = r {
        let from = choose|from: nat|
            {
                &&& order <= from <= before.max_order
                &&& (#[trigger] before@[from as int]).len() > 0
                &&& forall|c: int| order <= c < from ==> (#[trigger] before@[c]).len() == 0
                &&& block == before@[from as int].last()
                &&& after@ == split_down(before@, order, from)
                &&& after.allocated == before.allocated.wrapping_add(pow2(order) as u64)
            };
        assert(before@[from as int].contains(block));
        assert(is_free(before@, block, from));
        lemma_bytes_monotonic(order, from);
        let now = held.push((block, order));
        assert(now.drop_last() =~= held);
        assert forall|i: int| 0 <= i < held.len() implies clear_of(
            after@,
            (#[trigger] held[i]).0,
            held[i].1,
        ) && disjoint(held[i].0 as int, held[i].1, block as int, order) by {
            assert(clear_of(before@, held[i].0, held[i].1));
            assert(disjoint(held[i].0 as int, held[i].1, block as int, from));
            assert forall|b: u64, p: nat| #[trigger] is_free(after@, b, p) implies disjoint(
                held[i].0 as int,
                held[i].1,
                b as int,
                p,
            ) by {
                lemma_free_after_split(before@, order, from, b, p);
                if !is_free(before@, b, p) {
                    lemma_bytes(p);
                    lemma_bytes_monotonic(p + 1, from);
                }
            }
        }
        assert forall|i: int| 0 <= i < now.len() implies {
            &&& (#[trigger] now[i]).1 <= after.max_order
            &&& now[i].0 + addr::block_bytes(now[i].1) <= u64::MAX
            &&& clear_of(after@, now[i].0, now[i].1)
        } by {
            if i < held.len() {
                assert(now[i] == held[i]);
            }
        }
        assert forall|i: int, j: int| 0 <= i < j < now.len() implies disjoint(
            (#[trigger] now[i]).0 as int,
            now[i].1,
            (#[trigger] now[j]).0 as int,
            now[j].1,
        ) by {
            assert(now[i] == held[i]);
            if j < held.len() {
                assert(now[j] == held[j]);
            }
        }
    }
}

/// A block that is apart from the free blocks and from the one that comes back is
/// apart from what the latter is joined to.
proof fn lemma_joined_clear_of(
    lists: Seq<Seq<u64>>,
    a: u64,
    order: nat,
    max_order: nat,
    h: u64,
    o: nat,
)
    requires
        order <= max_order < lists.len(),
        clear_of(lists, h, o),
        disjoint(h as int, o, a as int, order),
    ensures
        clear_of(joined(lists, a, order, max_order), h, o),
    decreases max_order - order,
{
    let other = buddy(a as int, order);
    let row = lists[order as int];
    lemma_bytes(order);
    lemma_bytes(o);
    if order < max_order && 0 <= other <= u64::MAX && row.contains(other as u64) {
        let b = other as u64;
        let rest = without_first(row, b);
        let next = lists.update(order as int, rest);
        assert(is_free(lists, b, order));
        assert forall|c: u64, p: nat| #[trigger] is_free(next, c, p) implies disjoint(
            h as int,
            o,
            c as int,
            p,
        ) by {
            if p == order {
                lemma_without_contains(row, b, c);
            }
            assert(is_free(lists, c, p));
        }
        lemma_joined_clear_of(
            next,
            lesser(a as int, other) as u64,
            order + 1,
            max_order,
            h,
            o,
        );
    } else {
        let pushed = row.push(a);
        let next = lists.update(order as int, pushed);
        assert forall|c: u64, p: nat| #[trigger] is_free(next, c, p) implies disjoint(
            h as int,
            o,
            c as int,
            p,
        ) by {
            if p == order {
                let i = choose|i: int| 0 <= i < pushed.len() && pushed[i] == c;
                if i < row.len() {
                    assert(row[i] == c);
                    assert(is_free(lists, c, p));
                }
            } else {
                assert(is_free(lists, c, p));
            }
        }
    }
}

proof fn lemma_without_contains(s: Seq<u64>, x: u64, c: u64)
    requires
        without_first(s, x).contains(c),
    ensures
        s.contains(c),
    decreases s.len(),
{
    let t = without_first(s, x);
    let i = choose|i: int| 0 <= i < t.len() && t[i] == c;
    if s.len() > 0 {
        if s[0] == x {
            assert(s[i + 1] == c);
        } else if i == 0 {
            assert(s[0] == c);
        } else {
            let u = without_first(s.skip(1), x);
            assert(u[i - 1] == c);
            lemma_without_contains(s.skip(1), x, c);
            let k = choose|k: int| 0 <= k < s.skip(1).len() && s.skip(1)[k] == c;
            assert(s[k + 1] == c);
        }
    }
}

proof fn lemma_held_without(held: Seq<(u64, nat)>, at: int)
    requires
        0 <= at < held.len(),
    ensures
        held_pages(held) == held_pages(held.remove(at)) + pow2(held[at].1),
    decreases held.len(),
{
    let rest = held.remove(at);
    if at == held.len() - 1 {
        assert(rest =~= held.drop_last());
    } else {
        lemma_held_without(held.drop_last(), at);
        assert(rest.drop_last() =~= held.drop_last().remove(at));
        assert(rest.last() == held.last());
    }
}

/// A block that is handed out can come back: its pages are free again, and the
/// other blocks stay handed out.
pub proof fn lemma_free_removes_block(
    before: BuddyAllocator,
    after: BuddyAllocator,
    held: Seq<(u64, nat)>,
    at: int,
)
    requires
        in_use(before, held),
        0 <= at < held.len(),
        taken_back(before, after, held[at].0, held[at].1),
    ensures
        in_use(after, held.remove(at)),
{
    let (a, order) = held[at];
    let max = before.max_order as nat;
    let rest = held.remove(at);
    lemma_held_without(held, at);
    lemma_free_accounts(before, after, a, order);
    lemma_free_keeps_apart(before@, a, order, max);
    assert forall|i: int| 0 <= i < rest.len() implies {
        &&& (#[trigger] rest[i]).1 <= after.max_order
        &&& rest[i].0 + addr::block_bytes(rest[i].1) <= u64::MAX
        &&& clear_of(after@, rest[i].0, rest[i].1)
    } by {
        let k = if i < at {
            i
        } else {
            i + 1
        };
        assert(rest[i] == held[k]);
        if k < at {
            assert(disjoint(held[k].0 as int, held[k].1, held[at].0 as int, held[at].1));
        } else {
            assert(disjoint(held[at].0 as int, held[at].1, held[k].0 as int, held[k].1));
        }
        lemma_joined_clear_of(before@, a, order, max, held[k].0, held[k].1);
    }
    assert forall|i: int, j: int| 0 <= i < j < rest.len() implies disjoint(
        (#[trigger] rest[i]).0 as int,
        rest[i].1,
        (#[trigger] rest[j]).0 as int,
        rest[j].1,
    ) by {
        let x = if i < at {
            i
        } else {
            i + 1
        };
        let y = if j < at {
            j
        } else {
            j + 1
        };
        assert(rest[i] == held[x] && rest[j] == held[y]);
    }
}

/// The free lists of a new allocator.
pub open spec fn initial_lists(base: int, total: nat, max_order: nat) -> Seq<Seq<u64>> {
    Seq::new(max_order + 1, |o: int| initial_list(base, total, max_order, o as nat))
}

/// The remainder by a power of two, split at its highest bit.
proof fn lemma_remainder_step(total: nat, o: nat)
    ensures
        pow2(o) > 0,
        pow2(o + 1) == 2 * pow2(o),
        total % pow2(o + 1) == ((total / pow2(o)) % 2) * pow2(o) + total % pow2(o),
        total % pow2(o) < pow2(o),
{
    lemma_pow2_pos(o);
    lemma_pow2_unfold(o + 1);
    let p = pow2(o) as int;
    vstd::arithmetic::div_mod::lemma_mod_breakdown(total as int, p, 2);
    vstd::arithmetic::mul::lemma_mul_is_commutative(p, (total as int / p) % 2);
    vstd::arithmetic::div_mod::lemma_mod_bound(total as int, p);
    assert(p * 2 == pow2(o + 1));
}

proof fn lemma_remainder_grows(total: nat, o: nat, p: nat)
    requires
        o <= p,
    ensures
        total % pow2(o) <= total % pow2(p) <= total,
    decreases p - o,
{
    if o < p {
        lemma_remainder_step(total, o);
        let x = (total / pow2(o)) % 2;
        assert(x * pow2(o) >= 0) by (nonlinear_arith);
        lemma_remainder_grows(total, o + 1, p);
    } else {
        lemma_pow2_pos(o);
        vstd::arithmetic::div_mod::lemma_mod_decreases(total, pow2(o));
    }
}

/// A new allocator holds every page of its range exactly once: its free blocks are
/// apart, end inside the range and have all the pages.
pub proof fn lemma_new_tiles_range(base: int, total: nat, max_order: nat)
    requires
        base >= 0,
        base + total * PAGE_SIZE <= u64::MAX,
    ensures
        free_pages(initial_lists(base, total, max_order)) == total,
        apart(initial_lists(base, total, max_order)),
        blocks_fit(initial_lists(base, total, max_order)),
        forall|a: u64, o: nat| #[trigger]
            is_free(initial_lists(base, total, max_order), a, o) ==> base <= a && a
                + addr::block_bytes(o) <= base + total * PAGE_SIZE,
{
    let lists = initial_lists(base, total, max_order);
    let u = usable_order(total, max_order);
    lemma_pow2_pos(u);
    lemma_initial_pages(base, total, max_order, max_order + 1);
    assert(lists.take((max_order + 1) as int) =~= lists);
    assert forall|a: u64, o: nat| #[trigger] is_free(lists, a, o) implies base <= a && a
        + addr::block_bytes(o) <= base + total * PAGE_SIZE && o <= u && (o < u ==> {
        &&& a == base + (total - total % pow2(o + 1)) * PAGE_SIZE
        &&& a + addr::block_bytes(o) == base + (total - total % pow2(o)) * PAGE_SIZE
    }) && (o == u ==> a + addr::block_bytes(o) <= base + (total - total % pow2(u)) * PAGE_SIZE) by {
        lemma_initial_block(base, total, max_order, a, o);
    }
    assert forall|a: u64, o: nat, b: u64, p: nat|
        (#[trigger] is_free(lists, a, o)) && (#[trigger] is_free(lists, b, p)) && (a != b || o
            != p) implies disjoint(a as int, o, b as int, p) by {
        if o < p {
            lemma_remainder_grows(total, o + 1, p);
        } else if p < o {
            lemma_remainder_grows(total, p + 1, o);
        } else {
            lemma_same_order(base, total, max_order, a, b, o);
        }
    }
    assert forall|o: int| 0 <= o < lists.len() implies (#[trigger] lists[o]).no_duplicates() by {
        if o == u {
            assert forall|i: int, j: int|
                0 <= i < lists[o].len() && 0 <= j < lists[o].len() && i != j implies lists[o][i]
                != lists[o][j] by {
                lemma_top_block(base, total, max_order, i);
                lemma_top_block(base, total, max_order, j);
                assert(i * pow2(u) * PAGE_SIZE != j * pow2(u) * PAGE_SIZE) by (nonlinear_arith)
                    requires
                        i != j,
                        pow2(u) > 0,
                        PAGE_SIZE == 4096,
                ;
            }
        }
    }
}

/// The `k`-th block of the usable order.
proof fn lemma_top_block(base: int, total: nat, max_order: nat, k: int)
    requires
        base >= 0,
        base + total * PAGE_SIZE <= u64::MAX,
        0 <= k < total / pow2(usable_order(total, max_order)),
    ensures
        ({
            let u = usable_order(total, max_order);
            let a = initial_list(base, total, max_order, u)[k];
            &&& a == base + k * pow2(u) * PAGE_SIZE
            &&& a + addr::block_bytes(u) == base + (k + 1) * pow2(u) * PAGE_SIZE
            &&& (k + 1) * pow2(u) <= total - total % pow2(u)
        }),
{
    let u = usable_order(total, max_order);
    lemma_pow2_pos(u);
    lemma_bytes(u);
    let p = pow2(u) as int;
    let n = total as int / p;
    vstd::arithmetic::div_mod::lemma_fundamental_div_mod(total as int, p);
    vstd::arithmetic::div_mod::lemma_mod_bound(total as int, p);
    assert((k + 1) * p <= p * n && k * p + p == (k + 1) * p && 0 <= k * p) by (nonlinear_arith)
        requires
            0 <= k,
            k + 1 <= n,
            p > 0,
    ;
}

proof fn lemma_initial_block(base: int, total: nat, max_order: nat, a: u64, o: nat)
    requires
        base >= 0,
        base + total * PAGE_SIZE <= u64::MAX,
        is_free(initial_lists(base, total, max_order), a, o),
    ensures
        ({
            let u = usable_order(total, max_order);
            &&& o <= u
            &&& base <= a
            &&& a + addr::block_bytes(o) <= base + total * PAGE_SIZE
            &&& o < u ==> a == base + (total - total % pow2(o + 1)) * PAGE_SIZE
            &&& o < u ==> a + addr::block_bytes(o) == base + (total - total % pow2(o)) * PAGE_SIZE
            &&& o == u ==> a + addr::block_bytes(o) <= base + (total - total % pow2(u)) * PAGE_SIZE
        }),
{
    let u = usable_order(total, max_order);
    let row = initial_list(base, total, max_order, o);
    assert(initial_lists(base, total, max_order)[o as int] == row);
    let k = choose|k: int| 0 <= k < row.len() && row[k] == a;
    lemma_bytes(o);
    lemma_remainder_step(total, o);
    lemma_remainder_grows(total, o, o + 1);
    if o == u {
        lemma_top_block(base, total, max_order, k);
        lemma_pow2_pos(u);
        assert(k * pow2(u) * PAGE_SIZE >= 0) by (nonlinear_arith)
            requires
                k >= 0,
                PAGE_SIZE == 4096,
        ;
    } else {
        assert(1 * pow2(o) == pow2(o));
    }
}

proof fn lemma_same_order(base: int, total: nat, max_order: nat, a: u64, b: u64, o: nat)
    requires
        base >= 0,
        base + total * PAGE_SIZE <= u64::MAX,
        is_free(initial_lists(base, total, max_order), a, o),
        is_free(initial_lists(base, total, max_order), b, o),
        a != b,
    ensures
        disjoint(a as int, o, b as int, o),
{
    let u = usable_order(total, max_order);
    lemma_initial_block(base, total, max_order, a, o);
    lemma_initial_block(base, total, max_order, b, o);
    lemma_pow2_pos(u);
    if o == u {
        let row = initial_list(base, total, max_order, o);
        assert(initial_lists(base, total, max_order)[o as int] == row);
        let i = choose|i: int| 0 <= i < row.len() && row[i] == a;
        let j = choose|j: int| 0 <= j < row.len() && row[j] == b;
        lemma_top_block(base, total, max_order, i);
        lemma_top_block(base, total, max_order, j);
        let p = pow2(u) as int;
        if i < j {
            assert((i + 1) * p <= j * p) by (nonlinear_arith)
                requires
                    i + 1 <= j,
                    p > 0,
            ;
        } else {
            assert((j + 1) * p <= i * p) by (nonlinear_arith)
                requires
                    j + 1 <= i,
                    p > 0,
            ;
        }
    }
}

/// The pages of the lists below order `n`.
proof fn lemma_initial_pages(base: int, total: nat, max_order: nat, n: nat)
    requires
        n <= max_order + 1,
    ensures
        free_pages(initial_lists(base, total, max_order).take(n as int)) == if n <= usable_order(
            total,
            max_order,
        ) {
            total % pow2(n)
        } else {
            total
        },
    decreases n,
{
    let u = usable_order(total, max_order);
    let lists = initial_lists(base, total, max_order);
    lemma2_to64();
    if n == 0 {
        assert(lists.take(0) =~= Seq::empty());
        assert(total % 1 == 0);
    } else {
        let o = (n - 1) as nat;
        lemma_initial_pages(base, total, max_order, o);
        let t = lists.take(n as int);
        assert(t.drop_last() =~= lists.take(o as int));
        let row = initial_list(base, total, max_order, o);
        assert(t.last() == row);
        lemma_remainder_step(total, o);
        assert(1 * pow2(o) == pow2(o) && 0 * pow2(o) == 0) by (nonlinear_arith);
        if o == u {
            vstd::arithmetic::div_mod::lemma_fundamental_div_mod(total as int, pow2(u) as int);
            vstd::arithmetic::mul::lemma_mul_is_commutative(
                pow2(u) as int,
                total as int / pow2(u) as int,
            );
        }
    }
}

/// The floor of the logarithm: the power of two of it is not above the number, and the
/// next one is.
pub proof fn lemma_floor_log2_bounds(v: nat)
    requires
        v > 0,
    ensures
        pow2(floor_log2(v)) <= v < pow2(floor_log2(v) + 1),
    decreases v,
{
    lemma2_to64();
    if v >= 2 {
        lemma_floor_log2_bounds(v / 2);
        let n = floor_log2(v / 2);
        lemma_pow2_unfold(n + 1);
        lemma_pow2_unfold(n + 2);
    }
}

/// The blocks that a new allocator starts with are as large as fit in the range and as
/// the highest order allows.
pub proof fn lemma_first_blocks_are_large(total: nat, max_order: nat)
    requires
        total > 0,
    ensures
        usable_order(total, max_order) <= max_order,
        pow2(usable_order(total, max_order)) <= total,
        usable_order(total, max_order) < max_order ==> total < pow2(
            usable_order(total, max_order) + 1,
        ),
{
    lemma_floor_log2_bounds(total);
    let f = floor_log2(total);
    if max_order < f {
        lemma_pow2_strictly_increases(max_order, f);
    }
}

/// A block and its buddy are buddies of each other, lie side by side, and together are
/// a block of the next order.
pub proof fn lemma_buddies_are_mutual(a: int, order: nat)
    requires
        0 <= a,
        a % addr::block_bytes(order) == 0,
    ensures
        buddy(buddy(a, order), order) == a,
        buddy(a, order) != a,
        buddy(a, order) == a + addr::block_bytes(order) || buddy(a, order) == a - addr::block_bytes(
            order,
        ),
        lesser(a, buddy(a, order)) % addr::block_bytes(order + 1) == 0,
        buddy(a, order) % addr::block_bytes(order) == 0,
{
    lemma_bytes(order);
    let size = addr::block_bytes(order);
    let q = a / size;
    vstd::arithmetic::div_mod::lemma_fundamental_div_mod(a, size);
    let b = buddy(a, order);
    let low = if q % 2 == 0 {
        q
    } else {
        q - 1
    };
    let high = low + 1;
    assert(a == size * q);
    assert(size * high == size * low + size) by (nonlinear_arith)
        requires
            high == low + 1,
    ;
    assert(b == if q % 2 == 0 {
        size * high
    } else {
        size * low
    });
    vstd::arithmetic::div_mod::lemma_div_multiples_vanish(high, size);
    vstd::arithmetic::div_mod::lemma_div_multiples_vanish(low, size);
    vstd::arithmetic::mul::lemma_mul_is_commutative(size, high);
    vstd::arithmetic::mul::lemma_mul_is_commutative(size, low);
    vstd::arithmetic::div_mod::lemma_mod_multiples_basic(high, size);
    vstd::arithmetic::div_mod::lemma_mod_multiples_basic(low, size);
    let half = low / 2;
    assert(low == 2 * half);
    assert(size * low == (2 * size) * half) by (nonlinear_arith)
        requires
            low == 2 * half,
    ;
    vstd::arithmetic::mul::lemma_mul_is_commutative(2 * size, half);
    vstd::arithmetic::div_mod::lemma_mod_multiples_basic(half, 2 * size);
}

/// The highest order with a free block has one, and none above it has.
pub proof fn lemma_largest_order_is_free(lists: Seq<Seq<u64>>, o: int)
    requires
        0 <= o < lists.len(),
    ensures
        lists[o].len() > 0 ==> o <= largest_order(lists) < lists.len()
            && lists[largest_order(lists) as int].len() > 0,
        o > largest_order(lists) ==> lists[o].len() == 0,
    decreases lists.len(),
{
    if lists.last().len() == 0 && o < lists.len() - 1 {
        let front = lists.drop_last();
        lemma_largest_order_is_free(front, o);
        assert(front[o] == lists[o]);
        if lists[o].len() > 0 {
            assert(front[largest_order(front) as int] == lists[largest_order(front) as int]);
        }
    }
}

} // verus!
