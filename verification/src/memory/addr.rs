//! Address arithmetic: the direct map, user ranges and page alignment.
use crate::bits;
use crate::consts::{KERNEL_OFFSET, KSTACK_SIZE, PAGE_SIZE, PHYSICAL_MEMORY_OFFSET};
use vstd::arithmetic::power2::*;
use vstd::prelude::*;

verus! {

/// The kernel's direct-map address of a physical address.
pub fn phys_to_virt(phys_addr: u64) -> (r: u64)
    ensures
        r == bits::low_word(PHYSICAL_MEMORY_OFFSET + phys_addr),
{
    PHYSICAL_MEMORY_OFFSET.wrapping_add(phys_addr)
}

/// The physical address behind a direct-map address.
pub fn virt_to_phys(virt_addr: u64) -> (r: u64)
    ensures
        r == bits::low_word(virt_addr - PHYSICAL_MEMORY_OFFSET),
{
    virt_addr.wrapping_sub(PHYSICAL_MEMORY_OFFSET)
}

/// The offset of a kernel address from the base of the kernel image.
pub fn kernel_offset(virt_addr: u64) -> (r: u64)
    ensures
        r == bits::low_word(virt_addr - KERNEL_OFFSET),
{
    virt_addr.wrapping_sub(KERNEL_OFFSET)
}

/// The direct map is a bijection: each translation undoes the other.
pub proof fn lemma_direct_map_round_trip(addr: u64)
    ensures
        bits::low_word(bits::low_word(PHYSICAL_MEMORY_OFFSET + addr) - PHYSICAL_MEMORY_OFFSET) == addr,
        bits::low_word(PHYSICAL_MEMORY_OFFSET + bits::low_word(addr - PHYSICAL_MEMORY_OFFSET)) == addr,
{
}

/// `addr` is a user address and every byte of `[addr, addr + len)` lies below the
/// kernel's first one.
pub open spec fn user_range(addr: int, len: int) -> bool {
    addr < KERNEL_OFFSET && addr + len <= KERNEL_OFFSET
}

/// Whether a range stays entirely in user space. No page table is walked.
pub fn check_access(addr: u64, len: u64) -> (r: bool)
    ensures
        r == user_range(addr as int, len as int),
{
    if addr >= KERNEL_OFFSET {
        return false;
    }
    len <= KERNEL_OFFSET - addr
}

/// As `check_access`, but an empty range is always in order. Reads and writes are
/// held to the same rule.
pub fn check_access_rw(addr: u64, len: u64, _writable: bool) -> (r: bool)
    ensures
        r == (len == 0 || user_range(addr as int, len as int)),
{
    if len == 0 {
        return true;
    }
    let boundary: u64 = addr.wrapping_add(len);
    let crosses_kern = boundary > KERNEL_OFFSET || boundary < addr;
    !crosses_kern
}

/// The bytes a copy of a `T` covers; zero asks for the size of `T`.
pub open spec fn copy_len<T>(len: u64) -> int {
    if len == 0 {
        vstd::layout::size_of::<T>() as int
    } else {
        len as int
    }
}

/// Copies a value in from user memory. The range is checked; the copy itself
/// yields the default value.
pub fn copy_from_user<T: Copy + Default>(addr: u64, len: u64) -> (r: Option<T>)
    ensures
        r is Some <==> user_range(addr as int, copy_len::<T>(len)),
        r is Some ==> T::default.ensures((), r->0),
{
    let effective_len: u64 = if len == 0 {
        std::mem::size_of::<T>() as u64
    } else {
        len
    };
    if !check_access(addr, effective_len) {
        return None;
    }
    Some(T::default())
}

/// Whether a value could be copied out to user memory. Nothing is written.
pub fn copy_to_user<T: Copy>(addr: u64, len: u64, _value: &T) -> (r: bool)
    ensures
        r == (copy_len::<T>(len) == 0 || user_range(addr as int, copy_len::<T>(len))),
{
    let effective_len: u64 = if len == 0 {
        std::mem::size_of::<T>() as u64
    } else {
        len
    };
    check_access_rw(addr, effective_len, true)
}

/// What a failed read of user memory returns.
pub fn read_user_fixup() -> (r: usize)
    ensures
        r == 1,
{
    1
}

/// The end of a heap that starts at the first page boundary at or above `base`
/// and takes the whole pages of `sz`.
pub fn heap_init(base: u64, sz: u64) -> (end: u64)
    requires
        base + PAGE_SIZE - 1 <= u64::MAX,
        bits::round_up(base as int, PAGE_SIZE as int) + bits::round_down(sz as int, PAGE_SIZE as int)
            <= u64::MAX,
    ensures
        end == bits::round_up(base as int, PAGE_SIZE as int) + bits::round_down(sz as int, PAGE_SIZE as int),
{
    proof {
        bits::lemma_page_is_pow2();
        bits::lemma_mask_up(base, PAGE_SIZE);
        bits::lemma_page_mask(sz);
    }
    let aligned_base: u64 = (base + (PAGE_SIZE - 1)) & !(PAGE_SIZE - 1);
    let aligned_sz: u64 = sz & !(PAGE_SIZE - 1);
    aligned_base + aligned_sz
}

/// The bytes of a block of `2^order` pages.
pub open spec fn block_bytes(order: nat) -> int {
    PAGE_SIZE * pow2(order)
}

proof fn lemma_block(order: u64)
    requires
        order < 52,
    ensures
        PAGE_SIZE << order == block_bytes(order as nat),
        bits::is_pow2(block_bytes(order as nat)),
        block_bytes(order as nat) <= 0x8000_0000_0000_0000,
{
    vstd::arithmetic::power2::lemma2_to64();
    vstd::arithmetic::power2::lemma2_to64_rest();
    vstd::arithmetic::power2::lemma_pow2_adds(12, order as nat);
    if order < 51 {
        vstd::arithmetic::power2::lemma_pow2_strictly_increases(12 + order as nat, 63);
    }
    vstd::bits::lemma_u64_shl_is_mul(PAGE_SIZE, order);
}

/// Whether `addr` is the user-space start of a block of `2^order` pages, for an
/// order the allocator serves.
pub fn verify_page_alignment(addr: u64, order: u64) -> (r: bool)
    requires
        order < 52,
        bits::round_down(addr as int, block_bytes(order as nat)) + block_bytes(order as nat)
            <= u64::MAX,
    ensures
        r == (addr as int % block_bytes(order as nat) == 0 && addr < KERNEL_OFFSET && order < 12),
{
    proof {
        lemma_block(order);
    }
    let align: u64 = PAGE_SIZE << order;
    proof {
        bits::lemma_mask(addr, align);
    }
    let mask: u64 = align - 1;
    let aligned = (addr & mask) == 0;
    let in_range = addr < KERNEL_OFFSET;
    let valid_order = order < 12;
    let block_start: u64 = addr & !mask;
    let block_end: u64 = block_start + align;
    let cross_check = block_end > block_start;
    aligned && in_range && valid_order && cross_check
}

/// A kernel stack: a block of `KSTACK_SIZE` zeroed bytes at a known address.
pub struct KernelStack {
    base_addr: u64,
}

impl KernelStack {
    pub closed spec fn base(&self) -> u64 {
        self.base_addr
    }

    /// The stack in the block at `base_addr`, which ends below the top of memory.
    pub fn new(base_addr: u64) -> (r: Self)
        requires
            base_addr + KSTACK_SIZE <= u64::MAX,
        ensures
            r.base() == base_addr,
            r.wf(),
    {
        Self { base_addr }
    }

    pub closed spec fn wf(&self) -> bool {
        self.base_addr + KSTACK_SIZE <= u64::MAX
    }

    /// The first stack pointer of a stack that grows down.
    pub fn top(&self) -> (r: u64)
        requires
            self.wf(),
        ensures
            r == self.base() + KSTACK_SIZE,
    {
        self.base_addr + KSTACK_SIZE
    }
}

/// What the user may use is what lies below the kernel, byte for byte: a range may be
/// used exactly if each of its bytes may, and no range that holds a byte of the kernel
/// may be.
pub proof fn lemma_user_range_by_bytes(addr: int, len: int, b: int)
    requires
        0 <= addr,
        0 < len,
    ensures
        user_range(addr, len) <==> addr + len - 1 < KERNEL_OFFSET,
        user_range(addr, len) && addr <= b < addr + len ==> b < KERNEL_OFFSET && user_range(b, 1),
        addr <= b < addr + len && b >= KERNEL_OFFSET ==> !user_range(addr, len),
{
}

/// Two ranges of the user's side by side are one.
pub proof fn lemma_user_ranges_join(addr: int, m: int, n: int)
    requires
        0 <= addr,
        0 < m,
        0 < n,
    ensures
        user_range(addr, m + n) <==> user_range(addr, m) && user_range(addr + m, n),
{
}

/// A copy that names no length has the size of what is copied.
pub proof fn lemma_copy_length<T>(len: u64)
    ensures
        len > 0 ==> copy_len::<T>(len) == len,
        copy_len::<T>(0) == vstd::layout::size_of::<T>(),
{
}

/// A block of the next order is twice as large; the smallest is a page.
pub proof fn lemma_block_doubles(order: nat)
    ensures
        block_bytes(order + 1) == 2 * block_bytes(order),
        block_bytes(0) == PAGE_SIZE,
{
    vstd::arithmetic::power2::lemma2_to64();
    lemma_pow2_unfold(order + 1);
}

} // verus!
