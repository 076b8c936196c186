use vstd::prelude::*;

use vstd::arithmetic::power2::{is_pow2, pow2, lemma_pow2_adds, lemma_pow2_pos, lemma_pow2_strictly_increases, lemma_pow2_subtracts, lemma_pow2_unfold};

use crate::error::{GeometryField, SimError};

verus! {

/// Whether `x` is a power of two; zero is not.
pub fn is_power_of_two(x: usize) -> (r: bool)
    ensures
        r == is_pow2(x as int),
{
    if x == 0 {
        proof {
            reveal(is_pow2);
        }
        return false;
    }
    let mut v = x;
    while v > 1 && v % 2 == 0
        invariant
            v >= 1,
            is_pow2(v as int) == is_pow2(x as int),
        decreases v,
    {
        proof {
            reveal(is_pow2);
        }
        v = v / 2;
    }
    proof {
        reveal(is_pow2);
    }
    v == 1
}

/// The base-two logarithm of a power of two.
pub fn log2_of_power_of_two(x: usize) -> (r: u32)
    requires
        is_pow2(x as int),
    ensures
        pow2(r as nat) == x,
        r < usize::BITS,
{
    let mut v = x;
    let mut bits: u32 = 0;
    proof {
        reveal(is_pow2);
        vstd::arithmetic::power2::lemma2_to64();
    }
    while v > 1
        invariant
            is_pow2(v as int),
            v >= 1,
            pow2(bits as nat) * v == x,
            bits < usize::BITS,
            pow2(bits as nat) <= x,
        decreases v,
    {
        proof {
            reveal(is_pow2);
            lemma_pow2_unfold((bits + 1) as nat);
            assert(pow2((bits + 1) as nat) * (v / 2) == x) by (nonlinear_arith)
                requires
                    pow2((bits + 1) as nat) == 2 * pow2(bits as nat),
                    v % 2 == 0,
                    pow2(bits as nat) * v == x,
            ;
            assert(pow2((bits + 1) as nat) <= x) by (nonlinear_arith)
                requires
                    pow2((bits + 1) as nat) * (v / 2) == x,
                    v / 2 >= 1,
            ;
            if bits + 1 >= usize::BITS {
                assert(bits + 1 == usize::BITS);
                assert(pow2(usize::BITS as nat) > usize::MAX) by {
                    vstd::arithmetic::power2::lemma2_to64();
                    if usize::BITS == 64 {
                        assert(pow2(64) == 0x1_0000_0000_0000_0000);
                    } else {
                        assert(pow2(32) == 0x1_0000_0000);
                    }
                }
                assert(false);
            }
        }
        v = v / 2;
        bits = bits + 1;
    }
    bits
}


/// How many of the four geometry values are zero.
pub open spec fn zero_count(size: usize, set_num: usize, associativity: usize, block_size: usize) -> int {
    (if size == 0 { 1int } else { 0 }) + (if set_num == 0 { 1int } else { 0 }) + (if associativity
        == 0 { 1int } else { 0 }) + (if block_size == 0 { 1int } else { 0 })
}

/// The first geometry value, in the order size, set number, associativity, block size,
/// that is non-zero and not a power of two.
pub open spec fn first_not_power_of_two(
    size: usize,
    set_num: usize,
    associativity: usize,
    block_size: usize,
) -> Option<(GeometryField, usize)> {
    if size != 0 && !is_pow2(size as int) {
        Some((GeometryField::Size, size))
    } else if set_num != 0 && !is_pow2(set_num as int) {
        Some((GeometryField::SetNum, set_num))
    } else if associativity != 0 && !is_pow2(associativity as int) {
        Some((GeometryField::Associativity, associativity))
    } else if block_size != 0 && !is_pow2(block_size as int) {
        Some((GeometryField::BlockSize, block_size))
    } else {
        None
    }
}

/// Whether completing the geometry would multiply past `usize::MAX` (the products are
/// formed left to right).
pub open spec fn geometry_overflows(
    size: usize,
    set_num: usize,
    associativity: usize,
    block_size: usize,
) -> bool {
    &&& zero_count(size, set_num, associativity, block_size) <= 1
    &&& first_not_power_of_two(size, set_num, associativity, block_size) is None
    &&& if size == 0 || (set_num != 0 && associativity != 0 && block_size != 0) {
        set_num * associativity > usize::MAX || set_num * associativity * block_size > usize::MAX
    } else if set_num == 0 {
        associativity * block_size > usize::MAX
    } else if associativity == 0 {
        set_num * block_size > usize::MAX
    } else {
        set_num * associativity > usize::MAX
    }
}

/// The complete geometry `(size, set number, associativity, block size)` given four
/// values of which at most one is zero: the missing one is derived from the other three
/// (size is their product; any other is size divided by the product of the rest).
pub open spec fn cache_geometry(
    size: usize,
    set_num: usize,
    associativity: usize,
    block_size: usize,
) -> Result<(usize, usize, usize, usize), SimError> {
    if zero_count(size, set_num, associativity, block_size) > 1 {
        Err(SimError::TooManyZeroGeometryValues)
    } else if let Some((field, value)) = first_not_power_of_two(
        size,
        set_num,
        associativity,
        block_size,
    ) {
        Err(SimError::NotPowerOfTwo(field, value))
    } else if size == 0 {
        Ok(((set_num * associativity * block_size) as usize, set_num, associativity, block_size))
    } else if set_num == 0 {
        Ok((size, (size as int / (associativity * block_size)) as usize, associativity, block_size))
    } else if associativity == 0 {
        Ok((size, set_num, (size as int / (set_num * block_size)) as usize, block_size))
    } else if block_size == 0 {
        Ok((size, set_num, associativity, (size as int / (set_num * associativity)) as usize))
    } else if size != set_num * associativity * block_size {
        Err(SimError::InconsistentGeometry)
    } else {
        Ok((size, set_num, associativity, block_size))
    }
}

/// Completes a cache geometry: at most one of the four values may be zero and is then
/// derived from the others, every non-zero value must be a power of two, and when all
/// four are given, size must be the product of the other three.
pub fn init_cache_config(
    size: usize,
    set_num: usize,
    associativity: usize,
    block_size: usize,
) -> (r: Result<(usize, usize, usize, usize), SimError>)
    requires
        !geometry_overflows(size, set_num, associativity, block_size),
    ensures
        r == cache_geometry(size, set_num, associativity, block_size),
{
    let mut zero_num: usize = 0;
    zero_num += if size == 0 { 1 } else { 0 };
    zero_num += if set_num == 0 { 1 } else { 0 };
    zero_num += if associativity == 0 { 1 } else { 0 };
    zero_num += if block_size == 0 { 1 } else { 0 };
    if zero_num > 1 {
        return Err(SimError::TooManyZeroGeometryValues);
    }
    if size != 0 && !is_power_of_two(size) {
        return Err(SimError::NotPowerOfTwo(GeometryField::Size, size));
    }
    if set_num != 0 && !is_power_of_two(set_num) {
        return Err(SimError::NotPowerOfTwo(GeometryField::SetNum, set_num));
    }
    if associativity != 0 && !is_power_of_two(associativity) {
        return Err(SimError::NotPowerOfTwo(GeometryField::Associativity, associativity));
    }
    if block_size != 0 && !is_power_of_two(block_size) {
        return Err(SimError::NotPowerOfTwo(GeometryField::BlockSize, block_size));
    }
    if size == 0 {
        Ok((set_num * associativity * block_size, set_num, associativity, block_size))
    } else if set_num == 0 {
        assert(associativity * block_size > 0) by (nonlinear_arith)
            requires
                associativity > 0,
                block_size > 0,
        ;
        Ok((size, size / (associativity * block_size), associativity, block_size))
    } else if associativity == 0 {
        assert(set_num * block_size > 0) by (nonlinear_arith)
            requires
                set_num > 0,
                block_size > 0,
        ;
        Ok((size, set_num, size / (set_num * block_size), block_size))
    } else if block_size == 0 {
        assert(set_num * associativity > 0) by (nonlinear_arith)
            requires
                set_num > 0,
                associativity > 0,
        ;
        Ok((size, set_num, associativity, size / (set_num * associativity)))
    } else {
        if size != set_num * associativity * block_size {
            return Err(SimError::InconsistentGeometry);
        }
        Ok((size, set_num, associativity, block_size))
    }
}


proof fn exponent_of(n: int) -> (e: nat)
    requires
        is_pow2(n),
    ensures
        pow2(e) == n,
{
    vstd::arithmetic::power2::is_pow2_equiv(n);
    let e = choose|i: nat| vstd::arithmetic::power::pow(2, i) == n;
    vstd::arithmetic::power2::lemma_pow2(e);
    e
}

proof fn lemma_power_of_two_product(x: int, y: int)
    requires
        is_pow2(x),
        is_pow2(y),
    ensures
        is_pow2(x * y),
{
    let i = exponent_of(x);
    let j = exponent_of(y);
    lemma_pow2_adds(i, j);
    vstd::arithmetic::power2::lemma_pow2(i + j);
    vstd::arithmetic::power2::is_pow2_equiv(x * y);
}

proof fn lemma_power_of_two_quotient(x: int, y: int)
    requires
        is_pow2(x),
        is_pow2(y),
        x / y >= 1,
    ensures
        is_pow2(x / y),
        (x / y) * y == x,
{
    let i = exponent_of(x);
    let j = exponent_of(y);
    lemma_pow2_pos(j);
    if i < j {
        lemma_pow2_strictly_increases(i, j);
        vstd::arithmetic::div_mod::lemma_basic_div(x, y);
        assert(false);
    }
    lemma_pow2_adds((i - j) as nat, j);
    assert(((i - j) as nat + j) == i);
    lemma_pow2_pos((i - j) as nat);
    vstd::arithmetic::div_mod::lemma_div_by_multiple(pow2((i - j) as nat) as int, y);
    vstd::arithmetic::power2::lemma_pow2((i - j) as nat);
    vstd::arithmetic::power2::is_pow2_equiv(x / y);
}

proof fn lemma_quotient_bounds(x: int, d: int)
    requires
        x >= 0,
        d >= 1,
    ensures
        0 <= x / d <= x,
{
    vstd::arithmetic::div_mod::lemma_div_pos_is_pos(x, d);
    vstd::arithmetic::div_mod::lemma_div_is_ordered_by_denominator(x, 1, d);
}

/// A completed geometry with no zero component is consistent: size is the product of
/// set number, associativity and block size, and all four are powers of two.
pub proof fn law_complete_geometry_is_consistent(
    size: usize,
    set_num: usize,
    associativity: usize,
    block_size: usize,
)
    requires
        !geometry_overflows(size, set_num, associativity, block_size),
        cache_geometry(size, set_num, associativity, block_size) is Ok,
        ({
            let (s, sn, a, b) = cache_geometry(size, set_num, associativity, block_size)->Ok_0;
            sn != 0 && a != 0 && b != 0
        }),
    ensures
        ({
            let (s, sn, a, b) = cache_geometry(size, set_num, associativity, block_size)->Ok_0;
            &&& s == sn * a * b
            &&& s != 0
            &&& is_pow2(s as int)
            &&& is_pow2(sn as int)
            &&& is_pow2(a as int)
            &&& is_pow2(b as int)
        }),
{
    let (s, sn, a, b) = cache_geometry(size, set_num, associativity, block_size)->Ok_0;
    assert(sn * a * b > 0) by (nonlinear_arith)
        requires
            sn > 0,
            a > 0,
            b > 0,
    ;
    if size == 0 {
        lemma_power_of_two_product(set_num as int, associativity as int);
        lemma_power_of_two_product(set_num * associativity, block_size as int);
    } else if set_num == 0 {
        lemma_power_of_two_product(associativity as int, block_size as int);
        assert(associativity * block_size >= 1) by (nonlinear_arith)
            requires
                associativity >= 1,
                block_size >= 1,
        ;
        lemma_quotient_bounds(size as int, associativity * block_size);
        lemma_power_of_two_quotient(size as int, associativity * block_size);
        assert(sn * a * b == sn * (a * b)) by (nonlinear_arith);
    } else if associativity == 0 {
        lemma_power_of_two_product(set_num as int, block_size as int);
        assert(set_num * block_size >= 1) by (nonlinear_arith)
            requires
                set_num >= 1,
                block_size >= 1,
        ;
        lemma_quotient_bounds(size as int, set_num * block_size);
        lemma_power_of_two_quotient(size as int, set_num * block_size);
        assert(sn * a * b == a * (sn * b)) by (nonlinear_arith);
    } else if block_size == 0 {
        lemma_power_of_two_product(set_num as int, associativity as int);
        assert(set_num * associativity >= 1) by (nonlinear_arith)
            requires
                set_num >= 1,
                associativity >= 1,
        ;
        lemma_quotient_bounds(size as int, set_num * associativity);
        lemma_power_of_two_quotient(size as int, set_num * associativity);
        assert(sn * a * b == b * (sn * a)) by (nonlinear_arith);
    }
}


/// The mask of the byte-offset bits of an address: the low `b` bits.
pub open spec fn byte_offset_mask_of(b: u32) -> u64 {
    ((1u64 << b) - 1) as u64
}

/// The mask of the set-index bits of an address: `s` bits above the byte offset.
pub open spec fn set_index_mask_of(b: u32, s: u32) -> u64 {
    (((1u64 << s) - 1) as u64) << b
}

/// The mask of the tag bits: every bit that is neither byte offset nor set index.
pub open spec fn tag_mask_of(b: u32, s: u32) -> u64 {
    !0u64 ^ (byte_offset_mask_of(b) | set_index_mask_of(b, s))
}

/// The byte-offset, set-index and tag masks split the bits of an address: no bit is in
/// two of them and every bit is in one.
pub proof fn law_address_masks_partition(b: u32, s: u32)
    requires
        b < 64,
        s < 64,
    ensures
        byte_offset_mask_of(b) & set_index_mask_of(b, s) == 0,
        byte_offset_mask_of(b) & tag_mask_of(b, s) == 0,
        set_index_mask_of(b, s) & tag_mask_of(b, s) == 0,
        byte_offset_mask_of(b) | set_index_mask_of(b, s) | tag_mask_of(b, s) == !0u64,
{
    let bom = byte_offset_mask_of(b);
    let sim = set_index_mask_of(b, s);
    let tm = tag_mask_of(b, s);
    assert(bom & sim == 0) by (bit_vector)
        requires
            b < 64,
            s < 64,
            bom == ((1u64 << b) - 1) as u64,
            sim == (((1u64 << s) - 1) as u64) << b,
    ;
    assert(bom & tm == 0 && sim & tm == 0 && bom | sim | tm == !0u64) by (bit_vector)
        requires
            tm == !0u64 ^ (bom | sim),
    ;
}

/// The set index the cache computes for an address, `addr & (set_index_mask >> b)`, is
/// below the number of sets `2^s` (the index is taken from the low bits of the address).
pub proof fn lemma_set_index_in_range(addr: u64, b: u32, s: u32)
    requires
        b < 64,
        s < 64,
        b + s <= 64,
    ensures
        addr & (set_index_mask_of(b, s) >> b) == addr & (((1u64 << s) - 1) as u64),
        (addr & (set_index_mask_of(b, s) >> b)) < pow2(s as nat),
{
    let sim = set_index_mask_of(b, s);
    assert(sim >> b == ((1u64 << s) - 1) as u64) by (bit_vector)
        requires
            b < 64,
            s < 64,
            b + s <= 64,
            sim == (((1u64 << s) - 1) as u64) << b,
    ;
    assert(addr & (((1u64 << s) - 1) as u64) < (1u64 << s)) by (bit_vector)
        requires
            s < 64,
    ;
    lemma_shl_one_is_pow2(s);
}

/// `1 << s` is `2^s`.
pub proof fn lemma_shl_one_is_pow2(s: u32)
    requires
        s < 64,
    ensures
        (1u64 << s) == pow2(s as nat),
{
    vstd::bits::lemma_u64_pow2_no_overflow(s as nat);
    vstd::bits::lemma_u64_shl_is_mul(1, s as u64);
    assert((1u64 << s) == (1u64 << (s as u64))) by (bit_vector);
}

} // verus!
