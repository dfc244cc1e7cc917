//! Pure partitioning of the 32-bit address space into fixed-size blocks.
//!
//! A block is identified by the high-order bits of its addresses (the block
//! prefix); the low-order `offset_bits` bits select an address inside the
//! block. For a fixed offset width the blocks partition the space exactly:
//! every address lies in exactly one block, at exactly one offset.

use vstd::prelude::*;
use vstd::arithmetic::power2::{pow2, lemma_pow2_adds, lemma_pow2_pos, lemma2_to64};
use vstd::arithmetic::div_mod::{
    lemma_fundamental_div_mod, lemma_fundamental_div_mod_converse, lemma_multiply_divide_lt,
};
use vstd::arithmetic::mul::lemma_mul_inequality;
use vstd::bits::{lemma_u64_shl_is_mul, lemma_u64_pow2_no_overflow};

verus! {

/// Width in bits of the whole address space.
pub const ADDRESS_BITS: u32 = 32;

/// An offset width is valid when it does not exceed the address-space width.
pub open spec fn valid_offset_bits(w: u32) -> bool {
    w <= ADDRESS_BITS
}

/// Number of addresses in one block: 2^w.
pub open spec fn spec_block_size(w: u32) -> nat {
    pow2(w as nat)
}

/// Number of blocks that partition the space: 2^(32 - w).
pub open spec fn spec_block_count(w: u32) -> nat {
    pow2((ADDRESS_BITS - w) as nat)
}

pub open spec fn valid_block_id(w: u32, block_id: u64) -> bool {
    block_id < spec_block_count(w)
}

pub open spec fn valid_offset(w: u32, offset: u64) -> bool {
    offset < spec_block_size(w)
}

pub open spec fn valid_address(addr: u64) -> bool {
    addr < pow2(ADDRESS_BITS as nat)
}

/// The address at a given offset of a given block.
pub open spec fn spec_address_of(w: u32, block_id: int, offset: int) -> int {
    block_id * spec_block_size(w) + offset
}

/// The block that contains an address.
pub open spec fn spec_block_of(w: u32, addr: u64) -> int {
    addr as int / spec_block_size(w) as int
}

/// The offset of an address inside its block.
pub open spec fn spec_offset_of(w: u32, addr: u64) -> int {
    addr as int % spec_block_size(w) as int
}

/// Number of addresses in one block of the given offset width.
pub fn block_size(w: u32) -> (r: u64)
    requires
        valid_offset_bits(w),
    ensures
        r == spec_block_size(w),
{
    proof {
        lemma_u64_pow2_no_overflow(w as nat);
        lemma_u64_shl_is_mul(1u64, w as u64);
    }
    1u64 << (w as u64)
}

/// Number of blocks of the given offset width that partition the space.
pub fn block_count(w: u32) -> (r: u64)
    requires
        valid_offset_bits(w),
    ensures
        r == spec_block_count(w),
{
    let c: u32 = ADDRESS_BITS - w;
    proof {
        lemma_u64_pow2_no_overflow(c as nat);
        lemma_u64_shl_is_mul(1u64, c as u64);
    }
    1u64 << (c as u64)
}

/// The address at `offset` of block `block_id`.
pub fn address_of(w: u32, block_id: u64, offset: u64) -> (r: u64)
    requires
        valid_offset_bits(w),
        valid_block_id(w, block_id),
        valid_offset(w, offset),
    ensures
        r == spec_address_of(w, block_id as int, offset as int),
        valid_address(r),
{
    let bs = block_size(w);
    proof {
        lemma_pow2_adds((ADDRESS_BITS - w) as nat, w as nat);
        lemma_mul_inequality(
            block_id as int + 1,
            spec_block_count(w) as int,
            spec_block_size(w) as int,
        );
        assert((block_id as int + 1) * spec_block_size(w) as int
            == block_id as int * spec_block_size(w) as int + spec_block_size(w) as int)
            by (nonlinear_arith);
        lemma2_to64();
    }
    block_id * bs + offset
}

/// The block that contains `addr`.
pub fn block_of(w: u32, addr: u64) -> (r: u64)
    requires
        valid_offset_bits(w),
        valid_address(addr),
    ensures
        r == spec_block_of(w, addr),
        valid_block_id(w, r),
{
    let bs = block_size(w);
    proof {
        lemma_pow2_pos(w as nat);
        lemma_pow2_adds((ADDRESS_BITS - w) as nat, w as nat);
        assert(spec_block_size(w) as int * spec_block_count(w) as int
            == spec_block_count(w) as int * spec_block_size(w) as int) by (nonlinear_arith);
        lemma_multiply_divide_lt(
            addr as int,
            spec_block_size(w) as int,
            spec_block_count(w) as int,
        );
        lemma_fundamental_div_mod(addr as int, spec_block_size(w) as int);
    }
    addr / bs
}

/// The offset of `addr` inside its block.
pub fn offset_of(w: u32, addr: u64) -> (r: u64)
    requires
        valid_offset_bits(w),
        valid_address(addr),
    ensures
        r == spec_offset_of(w, addr),
        valid_offset(w, r),
{
    let bs = block_size(w);
    proof {
        lemma_pow2_pos(w as nat);
        lemma_fundamental_div_mod(addr as int, spec_block_size(w) as int);
    }
    addr % bs
}

/// The next block id at or after `cursor`, or `None` when the space is
/// exhausted.
pub fn next_block_id(w: u32, cursor: u64) -> (r: Option<u64>)
    requires
        valid_offset_bits(w),
    ensures
        cursor < spec_block_count(w) ==> r == Some(cursor),
        cursor >= spec_block_count(w) ==> r is None,
{
    let count = block_count(w);
    if cursor < count {
        Some(cursor)
    } else {
        None
    }
}

/// Every address of one block, in ascending offset order: offset `i` of the
/// result is the address at offset `i` of the block.
pub fn addresses_of(w: u32, block_id: u64) -> (r: Vec<u64>)
    requires
        valid_offset_bits(w),
        valid_block_id(w, block_id),
        spec_block_size(w) <= usize::MAX,
    ensures
        r@.len() == spec_block_size(w),
        forall|i: int| 0 <= i < r@.len() ==> r@[i] == spec_address_of(w, block_id as int, i),
        forall|i: int| 0 <= i < r@.len() ==> valid_address(r@[i]),
{
    let bs = block_size(w);
    let mut r: Vec<u64> = Vec::new();
    let mut o: u64 = 0;
    while o < bs
        invariant
            valid_offset_bits(w),
            valid_block_id(w, block_id),
            bs == spec_block_size(w),
            o <= bs,
            r@.len() == o,
            forall|i: int| 0 <= i < r@.len() ==> r@[i] == spec_address_of(w, block_id as int, i),
            forall|i: int| 0 <= i < r@.len() ==> valid_address(r@[i]),
        decreases bs - o,
    {
        let a = address_of(w, block_id, o);
        r.push(a);
        o = o + 1;
    }
    r
}

/// Pair two 16-bit halves into one 32-bit address: the upper half is a
/// block prefix of 16 offset bits, the lower half the offset inside it.
pub fn u16s_to_ipv4(upper: u16, lower: u16) -> (r: u64)
    ensures
        r == spec_address_of(16, upper as int, lower as int),
        valid_address(r),
{
    proof {
        lemma2_to64();
    }
    (upper as u64) * 65536 + (lower as u64)
}

/// Partition totality, first half: every address of the space lies in a
/// block, at the offset the block/offset split computes, and that split
/// recomposes to the same address. With [`lemma_address_of_injective`] this
/// says the blocks cover the space exactly once: no address is missed and
/// no address lies in two places.
pub proof fn lemma_partition_totality(w: u32, addr: u64)
    requires
        valid_offset_bits(w),
        valid_address(addr),
    ensures
        0 <= spec_block_of(w, addr) < spec_block_count(w),
        0 <= spec_offset_of(w, addr) < spec_block_size(w),
        spec_address_of(w, spec_block_of(w, addr), spec_offset_of(w, addr)) == addr,
{
    lemma_pow2_pos(w as nat);
    lemma_pow2_adds((ADDRESS_BITS - w) as nat, w as nat);
    assert(spec_block_size(w) as int * spec_block_count(w) as int
        == spec_block_count(w) as int * spec_block_size(w) as int) by (nonlinear_arith);
    lemma_multiply_divide_lt(addr as int, spec_block_size(w) as int, spec_block_count(w) as int);
    lemma_fundamental_div_mod(addr as int, spec_block_size(w) as int);
    assert(spec_block_size(w) as int * spec_block_of(w, addr)
        == spec_block_of(w, addr) * spec_block_size(w) as int) by (nonlinear_arith);
}

/// Partition totality, second half: two in-range block/offset pairs that
/// denote the same address are the same pair, so no two blocks overlap.
pub proof fn lemma_address_of_injective(w: u32, b1: int, o1: int, b2: int, o2: int)
    requires
        valid_offset_bits(w),
        0 <= b1 < spec_block_count(w),
        0 <= o1 < spec_block_size(w),
        0 <= b2 < spec_block_count(w),
        0 <= o2 < spec_block_size(w),
        spec_address_of(w, b1, o1) == spec_address_of(w, b2, o2),
    ensures
        b1 == b2,
        o1 == o2,
{
    lemma_pow2_pos(w as nat);
    let a = spec_address_of(w, b1, o1);
    lemma_fundamental_div_mod_converse(a, spec_block_size(w) as int, b1, o1);
    lemma_fundamental_div_mod_converse(a, spec_block_size(w) as int, b2, o2);
}

} // verus!
