use vstd::prelude::*;
use vstd::arithmetic::power2::{pow2, lemma_pow2_pos};
use vstd::bits::{low_bits_mask, lemma_usize_low_bits_mask_is_mod};

verus! {

/// Size of the kernel heap.
pub const HEAP_SIZE: usize = 2 * 1024 * 1024;

/// `a` is a power of two.
pub open spec fn is_power_of_two(a: usize) -> bool {
    exists|k: nat| k < usize::BITS && a == pow2(k)
}

/// The smallest multiple of `a` that is at least `x`.
pub open spec fn align_up(x: int, a: int) -> int {
    (x + a - 1) - (x + a - 1) % a
}

/// Rounding `x` up to the next multiple of the power of two `a` with a mask
/// gives that multiple: it is a multiple of `a`, at least `x`, and less than
/// `x + a`.
pub proof fn lemma_align_up(x: usize, a: usize)
    requires
        is_power_of_two(a),
        x + a - 1 <= usize::MAX,
    ensures
        ({
            let r = ((x + a - 1) as usize) & !((a - 1) as usize);
            &&& r == align_up(x as int, a as int)
            &&& r % a == 0
            &&& x <= r
            &&& r <= x + a - 1
        }),
{
    let k = choose|k: nat| k < usize::BITS && a == pow2(k);
    lemma_pow2_pos(k);
    let y = (x + a - 1) as usize;
    let m = (a - 1) as usize;
    let r = y & !m;
    assert(r <= y && r & m == 0 && r + (y & m) == y && y & m <= m) by (bit_vector)
        requires
            r == y & !m,
    ;
    lemma_mask_multiple(r, a, m);
    lemma_usize_low_bits_mask_is_mod(y, k);
    assert(low_bits_mask(k) == m);
}

proof fn lemma_mask_multiple(r: usize, a: usize, m: usize)
    requires
        is_power_of_two(a),
        m == a - 1,
        r & m == 0,
    ensures
        r % a == 0,
{
    let k = choose|k: nat| k < usize::BITS && a == pow2(k);
    lemma_usize_low_bits_mask_is_mod(r, k);
    assert(low_bits_mask(k) == m);
}

/// Address of the block the heap hands out for a request aligned to `align`
/// when `next` bytes of the heap at `base` are in use.
pub open spec fn block_start(base: usize, next: usize, align: usize) -> int {
    align_up(base + next, align as int)
}

/// Bytes of the heap in use once the block is handed out; an end past the
/// last address counts as the last address.
pub open spec fn block_end(base: usize, next: usize, align: usize, size: usize) -> int {
    let end = block_start(base, next, align) + size;
    (if end > usize::MAX {
        usize::MAX as int
    } else {
        end
    }) - base
}

/// Hands out `size` bytes aligned to `align` from the heap at `base`, of which
/// the first `next` bytes are in use: the block starts at the first aligned
/// address at or after `base + next`. Returns the block's address and the new
/// number of bytes in use, or `None` when the block does not fit in the heap.
pub fn bump_alloc(base: usize, next: usize, align: usize, size: usize) -> (r: Option<(usize, usize)>)
    requires
        is_power_of_two(align),
        base + next + align <= usize::MAX,
    ensures
        r == if block_end(base, next, align, size) > HEAP_SIZE {
            None::<(usize, usize)>
        } else {
            Some(
                (
                    block_start(base, next, align) as usize,
                    block_end(base, next, align, size) as usize,
                ),
            )
        },
{
    proof {
        lemma_align_up((base + next) as usize, align);
    }
    let start = (base + next + align - 1) & !(align - 1);
    let new_next = start.saturating_add(size).saturating_sub(base);
    if new_next > HEAP_SIZE {
        None
    } else {
        Some((start, new_next))
    }
}

/// Blocks handed out one after another never overlap, are aligned as asked,
/// and lie inside the heap.
pub proof fn lemma_bump_blocks_disjoint(
    base: usize,
    next: usize,
    align1: usize,
    size1: usize,
    align2: usize,
    size2: usize,
)
    requires
        base + HEAP_SIZE < usize::MAX,
        is_power_of_two(align1),
        is_power_of_two(align2),
        block_end(base, next, align1, size1) <= HEAP_SIZE,
        block_end(base, block_end(base, next, align1, size1) as usize, align2, size2) <= HEAP_SIZE,
    ensures
        ({
            let s1 = block_start(base, next, align1);
            let n1 = block_end(base, next, align1, size1);
            let s2 = block_start(base, n1 as usize, align2);
            &&& base <= s1
            &&& s1 % align1 as int == 0
            &&& s2 % align2 as int == 0
            &&& s1 + size1 <= s2
            &&& s2 + size2 <= base + HEAP_SIZE
        }),
{
    let s1 = block_start(base, next, align1);
    let n1 = block_end(base, next, align1, size1);
    lemma_block_fits(base, next, align1, size1);
    lemma_block_fits(base, n1 as usize, align2, size2);
}

proof fn lemma_block_fits(base: usize, next: usize, align: usize, size: usize)
    requires
        base + HEAP_SIZE < usize::MAX,
        is_power_of_two(align),
        block_end(base, next, align, size) <= HEAP_SIZE,
    ensures
        base + next <= block_start(base, next, align),
        block_start(base, next, align) % align as int == 0,
        block_start(base, next, align) + size == base + block_end(base, next, align, size),
{
    let k = choose|k: nat| k < usize::BITS && align == pow2(k);
    lemma_pow2_pos(k);
    let x = base + next;
    let y = x + align - 1;
    assert(x <= block_start(base, next, align)) by {
        vstd::arithmetic::div_mod::lemma_mod_bound(y, align as int);
    }
    assert(block_start(base, next, align) % align as int == 0) by {
        vstd::arithmetic::div_mod::lemma_fundamental_div_mod(y, align as int);
        vstd::arithmetic::div_mod::lemma_mod_multiples_basic(y / align as int, align as int);
        assert(y - y % align as int == (y / align as int) * align);
        vstd::arithmetic::mul::lemma_mul_is_commutative(y / align as int, align as int);
    }
}

/// Size of the pool that VirtIO buffers come from.
pub const DMA_POOL_SIZE: usize = 16 * 1024 * 1024;

/// Size of a page of the DMA pool.
pub const PAGE_SIZE: usize = 4096;

/// Hands out `pages` pages from the DMA pool at `pool`, of which the first
/// `offset` bytes are in use: the block starts at the first page boundary at or
/// after `offset`. Returns the block's address and the new offset, or `None`
/// when the pool is exhausted.
pub fn dma_alloc(pool: usize, offset: usize, pages: usize) -> (r: Option<(usize, usize)>)
    requires
        pages * PAGE_SIZE <= usize::MAX,
        offset + PAGE_SIZE <= usize::MAX,
        align_up(offset as int, PAGE_SIZE as int) + pages * PAGE_SIZE <= usize::MAX,
        align_up(offset as int, PAGE_SIZE as int) + pages * PAGE_SIZE <= DMA_POOL_SIZE ==> pool
            + align_up(offset as int, PAGE_SIZE as int) <= usize::MAX,
    ensures
        r == if align_up(offset as int, PAGE_SIZE as int) + pages * PAGE_SIZE > DMA_POOL_SIZE {
            None::<(usize, usize)>
        } else {
            Some(
                (
                    (pool + align_up(offset as int, PAGE_SIZE as int)) as usize,
                    (align_up(offset as int, PAGE_SIZE as int) + pages * PAGE_SIZE) as usize,
                ),
            )
        },
{
    let size = pages * PAGE_SIZE;
    proof {
        lemma_page_align(offset);
    }
    let aligned = (offset + PAGE_SIZE - 1) & !(PAGE_SIZE - 1);
    if aligned + size > DMA_POOL_SIZE {
        return None;
    }
    Some((pool + aligned, aligned + size))
}

proof fn lemma_page_align(offset: usize)
    requires
        offset + PAGE_SIZE - 1 <= usize::MAX,
    ensures
        ((offset + PAGE_SIZE - 1) as usize) & !((PAGE_SIZE - 1) as usize) == align_up(
            offset as int,
            PAGE_SIZE as int,
        ),
{
    vstd::arithmetic::power2::lemma2_to64();
    assert(pow2(12) == 4096);
    lemma_align_up(offset, PAGE_SIZE);
}

/// Pages handed out one after another never overlap, start on page
/// boundaries, and lie inside the pool.
pub proof fn lemma_dma_blocks_disjoint(offset: usize, pages1: usize, pages2: usize)
    requires
        align_up(offset as int, PAGE_SIZE as int) + pages1 * PAGE_SIZE <= DMA_POOL_SIZE,
        align_up(
            align_up(offset as int, PAGE_SIZE as int) + pages1 * PAGE_SIZE,
            PAGE_SIZE as int,
        ) + pages2 * PAGE_SIZE <= DMA_POOL_SIZE,
    ensures
        ({
            let a1 = align_up(offset as int, PAGE_SIZE as int);
            let n1 = a1 + pages1 * PAGE_SIZE;
            let a2 = align_up(n1, PAGE_SIZE as int);
            &&& offset <= a1
            &&& a1 % PAGE_SIZE as int == 0
            &&& a2 % PAGE_SIZE as int == 0
            &&& n1 <= a2
            &&& a2 + pages2 * PAGE_SIZE <= DMA_POOL_SIZE
        }),
{
    let a1 = align_up(offset as int, PAGE_SIZE as int);
    let n1 = a1 + pages1 * PAGE_SIZE;
    lemma_align_up_int(offset as int, PAGE_SIZE as int);
    lemma_align_up_int(n1, PAGE_SIZE as int);
}

proof fn lemma_align_up_int(x: int, a: int)
    requires
        a > 0,
    ensures
        x <= align_up(x, a),
        align_up(x, a) % a == 0,
{
    let y = x + a - 1;
    vstd::arithmetic::div_mod::lemma_mod_bound(y, a);
    vstd::arithmetic::div_mod::lemma_fundamental_div_mod(y, a);
    vstd::arithmetic::div_mod::lemma_mod_multiples_basic(y / a, a);
    vstd::arithmetic::mul::lemma_mul_is_commutative(y / a, a);
}

} // verus!
