use vstd::prelude::*;

verus! {

/// Eight bits set, as many as a region has in the occupancy word.
pub const REGION_MASK: usize = 0b11111111;

/// Number of regions: one for each byte of the occupancy word.
pub const REGION_COUNT: usize = (usize::BITS / 8) as usize;

/// Number of flag bits below the position counter of a slot.
pub const INDEX_SHIFT: usize = (usize::BITS / 2) as usize;

/// The flag bit that tells one batch from the next.
pub const PHASE: usize = 1;

/// The position counter of a slot runs modulo this number.
pub open spec fn counter_modulus() -> int {
    if usize::BITS == 64 {
        0x1_0000_0000
    } else {
        0x1_0000
    }
}

/// The position counter of a slot: what is left when the flag bits are cut off.
pub open spec fn counter(slot: usize) -> int {
    slot as int / counter_modulus()
}

/// The flag bits of a slot.
pub open spec fn flags(slot: usize) -> int {
    slot as int % counter_modulus()
}

/// The number of positions in one region of a buffer of length `n`.
pub open spec fn region_len(n: int) -> int {
    if usize::BITS == 64 {
        n / 8
    } else {
        n / 4
    }
}

/// The region of a buffer of length `n` that holds `index`.
pub open spec fn region_of(n: int, index: int) -> int {
    index / region_len(n)
}

/// What one batch adds to the occupancy word when it begins in region `r`.
pub open spec fn region_unit(r: int) -> int {
    vstd::arithmetic::power2::pow2((8 * r) as nat) as int
}

/// The byte of the occupancy word that counts for region `r`.
pub open spec fn regional(occupancy: usize, r: int) -> int {
    (occupancy as int / region_unit(r)) % 256
}

/// The bytes of the occupancy word that count for region `r` and the one after it, taken as one
/// number, so that a carry from the first to the second is part of it. The last region has its own
/// byte alone.
pub open spec fn frontal(occupancy: usize, r: int) -> int {
    if r + 1 < REGION_COUNT {
        regional(occupancy, r) + 256 * regional(occupancy, r + 1)
    } else {
        regional(occupancy, r)
    }
}

/// The greatest number that [`frontal`] can give.
pub open spec fn frontal_max(r: int) -> int {
    if r + 1 < REGION_COUNT {
        65535
    } else {
        255
    }
}

/// The constants on the two pointer widths.
pub proof fn lemma_widths()
    ensures
        forall|n: int| #[trigger] region_len(n) == n / (REGION_COUNT as int),
        usize::BITS == 64 || usize::BITS == 32,
        usize::BITS == 64 ==> INDEX_SHIFT == 32 && REGION_COUNT == 8 && crate::MAX_BUFFER_LEN
            == 0xffff_ffff && usize::MAX == 0xffff_ffff_ffff_ffff,
        usize::BITS == 32 ==> INDEX_SHIFT == 16 && REGION_COUNT == 4 && crate::MAX_BUFFER_LEN
            == 0xffff && usize::MAX == 0xffff_ffff,
        usize::MAX + 1 == counter_modulus() * counter_modulus(),
        crate::MAX_BUFFER_LEN == counter_modulus() - 1,
        vstd::arithmetic::power2::pow2(INDEX_SHIFT as nat) == counter_modulus(),
{
    vstd::arithmetic::power2::lemma2_to64();
    vstd::bits::lemma_usize_shr_is_div(usize::MAX, INDEX_SHIFT);
    assert(0x1_0000_0000 * 0x1_0000_0000 == 0x1_0000_0000_0000_0000) by (nonlinear_arith);
}

/// A valid length is a power of two whose exponent is at least six.
pub proof fn lemma_len_exponent(n: int) -> (k: nat)
    requires
        crate::valid_len(n),
    ensures
        6 <= k < INDEX_SHIFT,
        n == vstd::arithmetic::power2::pow2(k),
{
    lemma_widths();
    vstd::arithmetic::power2::lemma2_to64();
    vstd::arithmetic::power2::is_pow2_equiv(n);
    let k = choose|k: nat| vstd::arithmetic::power::pow(2, k) == n;
    if k < 6 {
        vstd::arithmetic::power2::lemma_pow2_strictly_increases(k, 6);
    }
    if k >= INDEX_SHIFT {
        if k > INDEX_SHIFT {
            vstd::arithmetic::power2::lemma_pow2_strictly_increases(INDEX_SHIFT as nat, k);
        }
    }
    k
}

/// The regions of a valid buffer are equally long, and so is a power of two.
pub proof fn lemma_region_len(n: int)
    requires
        crate::valid_len(n),
    ensures
        region_len(n) >= 8,
        region_len(n) * REGION_COUNT == n,
{
    lemma_widths();
    vstd::arithmetic::power2::lemma2_to64();
    let k = lemma_len_exponent(n);
    vstd::arithmetic::power2::lemma_pow2_adds(6, (k - 6) as nat);
    vstd::arithmetic::power2::lemma_pow2_pos((k - 6) as nat);
    let m = vstd::arithmetic::power2::pow2((k - 6) as nat) as int;
    assert(n == 64 * m);
}

/// Counting the trailing zeros of a power of two gives its exponent.
proof fn lemma_trailing_zeros(x: u64, k: nat)
    requires
        x == vstd::arithmetic::power2::pow2(k),
        k < 64,
    ensures
        vstd::std_specs::bits::u64_trailing_zeros(x) == k,
{
    let j = k as u64;
    vstd::arithmetic::power2::lemma2_to64();
    vstd::bits::lemma_u64_pow2_no_overflow(k);
    vstd::bits::lemma_u64_shl_is_mul(1, j);
    vstd::std_specs::bits::axiom_u64_trailing_zeros(x);
    let t = vstd::std_specs::bits::u64_trailing_zeros(x) as u64;
    assert(x == 1u64 << j);
    assert(t == j) by (bit_vector)
        requires
            x == 1u64 << j,
            j < 64,
            x != 0 ==> t < 64,
            t < 64 ==> (x >> t) & 1u64 == 1u64,
    ;
}

/// Whether a number is a power of two.
pub fn is_power_of_two(n: usize) -> (b: bool)
    ensures
        b == vstd::arithmetic::power2::is_pow2(n as int),
{
    proof {
        vstd::arithmetic::power2::is_pow2_equiv(n as int);
    }
    if n == 0 {
        proof {
            reveal(vstd::arithmetic::power2::is_pow2);
        }
        return false;
    }
    let x = n as u64;
    let t = x.trailing_zeros();
    let ghost j = t as u64;
    proof {
        lemma_widths();
        vstd::std_specs::bits::axiom_u64_trailing_zeros(x);
        vstd::bits::lemma_u64_pow2_no_overflow(j as nat);
        vstd::bits::lemma_u64_shl_is_mul(1, j);
        vstd::arithmetic::power2::lemma_pow2(j as nat);
        if vstd::arithmetic::power2::is_pow2_exists(n as int) {
            let k = choose|k: nat| vstd::arithmetic::power::pow(2, k) == n;
            vstd::arithmetic::power2::lemma_pow2(k);
            vstd::arithmetic::power2::lemma2_to64();
            if k >= 64 {
                if k > 64 {
                    vstd::arithmetic::power2::lemma_pow2_strictly_increases(64, k);
                }
                assert(false);
            }
            lemma_trailing_zeros(x, k);
        }
    }
    x == 1u64 << t
}

/// Whether a queue accepts a buffer length.
pub fn is_valid_len(n: usize) -> (b: bool)
    ensures
        b == crate::valid_len(n as int),
{
    n >= crate::MIN_BUFFER_LEN && n <= crate::MAX_BUFFER_LEN && is_power_of_two(n)
}

/// The exponent of a power of two.
fn exponent(n: usize, Ghost(k): Ghost<nat>) -> (r: usize)
    requires
        n == vstd::arithmetic::power2::pow2(k),
        k < usize::BITS,
    ensures
        r == k,
{
    proof {
        lemma_widths();
        lemma_trailing_zeros(n as u64, k);
    }
    (n as u64).trailing_zeros() as usize
}

/// The number of positions in a region, which is always a power of two.
#[inline(always)]
pub fn region_size<const N: usize>() -> (r: usize)
    ensures
        r == region_len(N as int),
{
    proof {
        lemma_widths();
    }
    N / REGION_COUNT
}

/// Number of bits necessary to bitwise shift an index into its region.
#[inline(always)]
pub fn region_shift<const N: usize>() -> (r: usize)
    requires
        crate::valid_len(N as int),
    ensures
        vstd::arithmetic::power2::pow2(r as nat) == region_len(N as int),
        r < usize::BITS,
{
    let ghost k = lemma_len_exponent(N as int);
    let ghost c: nat = if usize::BITS == 64 { 3 } else { 2 };
    proof {
        lemma_widths();
        vstd::arithmetic::power2::lemma2_to64();
        vstd::arithmetic::power2::lemma_pow2_subtracts(c, k);
    }
    exponent(N, Ghost(k)) - exponent(REGION_COUNT, Ghost(c))
}

/// The region that holds an index of the buffer.
#[inline(always)]
pub fn current_region<const N: usize>(index: usize) -> (r: usize)
    requires
        crate::valid_len(N as int),
    ensures
        r == region_of(N as int, index as int),
{
    let shift = region_shift::<N>();
    proof {
        vstd::bits::lemma_usize_shr_is_div(index, shift);
    }
    index >> shift
}

/// An index of the buffer lies in one of the regions.
pub proof fn lemma_region_in_range(n: int, index: int)
    requires
        crate::valid_len(n),
        0 <= index < n,
    ensures
        0 <= region_of(n, index) < REGION_COUNT,
{
    lemma_region_len(n);
    let l = region_len(n);
    assert(0 <= index / l < REGION_COUNT) by (nonlinear_arith)
        requires
            l > 0,
            0 <= index < l * REGION_COUNT,
    ;
}

/// The eight bits of the region that holds an index, for extracting its occupancy.
#[inline(always)]
pub fn region_mask<const N: usize>(index: usize) -> (r: usize)
    requires
        crate::valid_len(N as int),
        index < N,
    ensures
        r == 255 * region_unit(region_of(N as int, index as int)),
{
    let region = current_region::<N>(index);
    proof {
        lemma_widths();
        lemma_region_in_range(N as int, index as int);
        lemma_unit_bounds(region as int);
        vstd::bits::lemma_usize_shl_is_mul(REGION_MASK, (8 * region) as usize);
    }
    REGION_MASK << (8 * region)
}

/// One shifted to the region that holds an index.
#[inline(always)]
pub fn one_shifted<const N: usize>(index: usize) -> (r: usize)
    requires
        crate::valid_len(N as int),
        index < N,
    ensures
        r == region_unit(region_of(N as int, index as int)),
{
    let region = current_region::<N>(index);
    proof {
        lemma_widths();
        lemma_region_in_range(N as int, index as int);
        lemma_unit_bounds(region as int);
        vstd::bits::lemma_usize_shl_is_mul(1, (8 * region) as usize);
    }
    1 << (8 * region)
}

/// A region's unit leaves eight bits to the end of the occupancy word.
pub proof fn lemma_unit_bounds(r: int)
    requires
        0 <= r < REGION_COUNT,
    ensures
        region_unit(r) >= 1,
        256 * region_unit(r) <= usize::MAX + 1,
{
    lemma_widths();
    vstd::arithmetic::power2::lemma2_to64();
    vstd::arithmetic::power2::lemma2_to64_rest();
}

/// The buffer index of a slot: its position counter modulo the length of the buffer.
#[inline(always)]
pub fn slot_index<const N: usize>(slot: usize) -> (r: usize)
    requires
        crate::valid_len(N as int),
    ensures
        r == counter(slot) % (N as int),
        r < N,
{
    let ghost k = lemma_len_exponent(N as int);
    proof {
        lemma_widths();
        vstd::bits::lemma_usize_shr_is_div(slot, INDEX_SHIFT);
        vstd::bits::lemma_usize_low_bits_mask_is_mod(slot >> INDEX_SHIFT, k);
    }
    (slot >> INDEX_SHIFT) & (N - 1)
}

/// The buffer index of a position counter. Because `N` is a power of two, `N - 1` is a mask that
/// extracts the remainder.
#[inline(always)]
pub fn counter_index<const N: usize>(count: usize) -> (r: usize)
    requires
        crate::valid_len(N as int),
    ensures
        r == count % N,
        r < N,
{
    let ghost k = lemma_len_exponent(N as int);
    proof {
        lemma_widths();
        vstd::bits::lemma_usize_low_bits_mask_is_mod(count, k);
    }
    count & (N - 1)
}

/// The position counter of a slot.
#[inline(always)]
pub fn slot_counter(slot: usize) -> (r: usize)
    ensures
        r == counter(slot),
{
    proof {
        lemma_widths();
        vstd::bits::lemma_usize_shr_is_div(slot, INDEX_SHIFT);
    }
    slot >> INDEX_SHIFT
}

/// The position counter after this one: it starts over when its bits are used up.
#[inline(always)]
pub fn next_counter(count: usize) -> (r: usize)
    requires
        count < counter_modulus(),
    ensures
        r == (count + 1) % counter_modulus(),
{
    proof {
        lemma_widths();
    }
    if count == usize::MAX >> INDEX_SHIFT {
        0
    } else {
        count + 1
    }
}

/// The byte of a region, in terms of shifts.
proof fn lemma_regional_shift(occupancy: usize, r: int)
    requires
        0 <= r < REGION_COUNT,
    ensures
        regional(occupancy, r) == ((occupancy as u64) >> ((8 * r) as u64)) & 255u64,
        region_unit(r) == 1u64 << ((8 * r) as u64),
        0 <= regional(occupancy, r) < 256,
{
    lemma_widths();
    lemma_unit_bounds(r);
    let x = occupancy as u64;
    let s = (8 * r) as u64;
    vstd::bits::lemma_u64_shr_is_div(x, s);
    vstd::bits::lemma_u64_shl_is_mul(1, s);
    let y = x >> s;
    assert(y & 255u64 == y % 256u64) by (bit_vector);
}

/// The byte of the occupancy word that counts for a region.
pub fn regional_count(occupancy: usize, region: usize) -> (count: usize)
    requires
        region < REGION_COUNT,
    ensures
        count == regional(occupancy, region as int),
        count <= 255,
{
    proof {
        lemma_widths();
        lemma_unit_bounds(region as int);
        vstd::bits::lemma_usize_shr_is_div(occupancy, (8 * region) as usize);
        let y = occupancy >> ((8 * region) as usize);
        assert(y & 255usize == y % 256usize) by (bit_vector);
    }
    (occupancy >> (8 * region)) & REGION_MASK
}

/// The bytes of a region and of the one after it, in terms of shifts.
proof fn lemma_frontal_shift(occupancy: usize, r: int)
    requires
        0 <= r < REGION_COUNT,
    ensures
        r + 1 < REGION_COUNT ==> frontal(occupancy, r) == ((occupancy as u64) >> ((8 * r) as u64))
            & 0xffffu64,
        0 <= frontal(occupancy, r) <= frontal_max(r),
{
    lemma_widths();
    lemma_regional_shift(occupancy, r);
    if r + 1 < REGION_COUNT {
        lemma_regional_shift(occupancy, r + 1);
        let x = occupancy as u64;
        let s = (8 * r) as u64;
        let t = (8 * (r + 1)) as u64;
        assert((x >> s) & 0xffffu64 == ((x >> s) & 255u64) + 256 * ((x >> t) & 255u64)) by (bit_vector)
            requires
                s <= 48,
                t == s + 8,
        ;
    }
}

/// The bytes of the occupancy word that count for a region and for the one after it.
pub fn frontal_count(occupancy: usize, region: usize) -> (count: usize)
    requires
        region < REGION_COUNT,
    ensures
        count == frontal(occupancy, region as int),
{
    proof {
        lemma_widths();
    }
    if region + 1 < REGION_COUNT {
        regional_count(occupancy, region) + 256 * regional_count(occupancy, region + 1)
    } else {
        regional_count(occupancy, region)
    }
}

/// Masking a region's byte gives zero exactly when the byte is zero.
pub proof fn lemma_regional_mask(occupancy: usize, mask: usize, r: int)
    requires
        0 <= r < REGION_COUNT,
        mask == 255 * region_unit(r),
    ensures
        occupancy & mask == 0 <==> regional(occupancy, r) == 0,
{
    lemma_widths();
    lemma_regional_shift(occupancy, r);
    let x = occupancy as u64;
    let m = mask as u64;
    let s = (8 * r) as u64;
    lemma_unit_bounds(r);
    vstd::bits::lemma_u64_shl_is_mul(255, s);
    assert(m == 255u64 << s);
    assert((x & (255u64 << s)) == 0 <==> (x >> s) & 255u64 == 0) by (bit_vector)
        requires
            s <= 56,
    ;
    assert((x & m) == (occupancy & mask) as u64);
}

/// Counting one more batch in a region whose byte is not exhausted changes that byte alone.
pub proof fn lemma_regional_add(occupancy: usize, r: int)
    requires
        0 <= r < REGION_COUNT,
        regional(occupancy, r) < 255,
    ensures
        occupancy + region_unit(r) <= usize::MAX,
        forall|q: int|
            #![trigger regional((occupancy + region_unit(r)) as usize, q)]
            0 <= q < REGION_COUNT ==> regional((occupancy + region_unit(r)) as usize, q)
                == regional(occupancy, q) + if q == r {
                1int
            } else {
                0
            },
{
    lemma_widths();
    lemma_regional_shift(occupancy, r);
    let x = occupancy as u64;
    let s = (8 * r) as u64;
    let w = usize::BITS as u64;
    assert(x + (1u64 << s) <= usize::MAX) by {
        if usize::BITS == 64 {
            assert(x + (1u64 << s) <= 0xffff_ffff_ffff_ffff) by (bit_vector)
                requires
                    s <= 56,
                    (x >> s) & 255u64 < 255,
                    s % 8 == 0,
            ;
        } else {
            assert(x + (1u64 << s) <= 0xffff_ffff) by (bit_vector)
                requires
                    s <= 24,
                    x <= 0xffff_ffff,
                    (x >> s) & 255u64 < 255,
                    s % 8 == 0,
            ;
        }
    }
    let sum = (occupancy + region_unit(r)) as usize;
    let y = sum as u64;
    assert forall|q: int| #![trigger regional(sum, q)] 0 <= q < REGION_COUNT implies regional(sum, q)
        == regional(occupancy, q) + if q == r {
        1int
    } else {
        0
    } by {
        lemma_regional_shift(occupancy, q);
        lemma_regional_shift(sum, q);
        let t = (8 * q) as u64;
        if q == r {
            assert((y >> s) & 255u64 == ((x >> s) & 255u64) + 1) by (bit_vector)
                requires
                    s <= 56,
                    s % 8 == 0,
                    (x >> s) & 255u64 < 255,
                    y == x + (1u64 << s),
            ;
        } else {
            assert((y >> t) & 255u64 == (x >> t) & 255u64) by (bit_vector)
                requires
                    s <= 56,
                    t <= 56,
                    s != t,
                    s % 8 == 0,
                    t % 8 == 0,
                    (x >> s) & 255u64 < 255,
                    y == x + (1u64 << s),
            ;
        }
    }
}

/// Counting one batch less in a region changes the byte of that region alone.
pub proof fn lemma_regional_sub(occupancy: usize, r: int)
    requires
        0 <= r < REGION_COUNT,
        regional(occupancy, r) > 0,
    ensures
        occupancy >= region_unit(r),
        forall|q: int|
            #![trigger regional((occupancy - region_unit(r)) as usize, q)]
            0 <= q < REGION_COUNT ==> regional((occupancy - region_unit(r)) as usize, q)
                == regional(occupancy, q) - if q == r {
                1int
            } else {
                0
            },
{
    lemma_widths();
    lemma_regional_shift(occupancy, r);
    let x = occupancy as u64;
    let s = (8 * r) as u64;
    assert(x >= (1u64 << s)) by (bit_vector)
        requires
            s <= 56,
            (x >> s) & 255u64 > 0,
            s % 8 == 0,
    ;
    let diff = (occupancy - region_unit(r)) as usize;
    lemma_regional_shift(diff, r);
    let y = diff as u64;
    assert(regional(diff, r) < 255) by {
        assert((y >> s) & 255u64 < 255) by (bit_vector)
            requires
                s <= 56,
                s % 8 == 0,
                (x >> s) & 255u64 > 0,
                x >= (1u64 << s),
                y == x - (1u64 << s),
        ;
    }
    lemma_regional_add(diff, r);
    assert((diff + region_unit(r)) as usize == occupancy);
}

/// Counting one more batch in a region, where the byte of the region and the one after it are not
/// exhausted together, changes only these two.
pub proof fn lemma_frontal_add(occupancy: usize, r: int)
    requires
        0 <= r < REGION_COUNT,
        frontal(occupancy, r) < frontal_max(r),
    ensures
        occupancy + region_unit(r) <= usize::MAX,
        frontal((occupancy + region_unit(r)) as usize, r) == frontal(occupancy, r) + 1,
        forall|q: int|
            #![trigger regional((occupancy + region_unit(r)) as usize, q)]
            0 <= q < REGION_COUNT && q != r && q != r + 1 ==> regional(
                (occupancy + region_unit(r)) as usize,
                q,
            ) == regional(occupancy, q),
{
    if r + 1 == REGION_COUNT {
        lemma_regional_add(occupancy, r);
    } else {
        lemma_widths();
        lemma_regional_shift(occupancy, r);
        lemma_frontal_shift(occupancy, r);
        let x = occupancy as u64;
        let s = (8 * r) as u64;
        assert(x + (1u64 << s) <= usize::MAX) by {
            if usize::BITS == 64 {
                assert(x + (1u64 << s) <= 0xffff_ffff_ffff_ffff) by (bit_vector)
                    requires
                        s <= 48,
                        (x >> s) & 0xffffu64 < 0xffff,
                        s % 8 == 0,
                ;
            } else {
                assert(x + (1u64 << s) <= 0xffff_ffff) by (bit_vector)
                    requires
                        s <= 16,
                        x <= 0xffff_ffff,
                        (x >> s) & 0xffffu64 < 0xffff,
                        s % 8 == 0,
                ;
            }
        }
        let sum = (occupancy + region_unit(r)) as usize;
        let y = sum as u64;
        lemma_frontal_shift(sum, r);
        assert((y >> s) & 0xffffu64 == ((x >> s) & 0xffffu64) + 1) by (bit_vector)
            requires
                s <= 48,
                s % 8 == 0,
                (x >> s) & 0xffffu64 < 0xffff,
                y == x + (1u64 << s),
        ;
        assert forall|q: int|
            #![trigger regional(sum, q)]
            0 <= q < REGION_COUNT && q != r && q != r + 1 implies regional(sum, q) == regional(
            occupancy,
            q,
        ) by {
            lemma_regional_shift(occupancy, q);
            lemma_regional_shift(sum, q);
            let t = (8 * q) as u64;
            assert((y >> t) & 255u64 == (x >> t) & 255u64) by (bit_vector)
                requires
                    s <= 48,
                    t <= 56,
                    s != t,
                    t != s + 8,
                    s % 8 == 0,
                    t % 8 == 0,
                    (x >> s) & 0xffffu64 < 0xffff,
                    y == x + (1u64 << s),
            ;
        }
    }
}

/// Counting one batch less in a region, where the byte of the region and the one after it are not
/// both zero, changes only these two.
pub proof fn lemma_frontal_sub(occupancy: usize, r: int)
    requires
        0 <= r < REGION_COUNT,
        frontal(occupancy, r) > 0,
    ensures
        occupancy >= region_unit(r),
        frontal((occupancy - region_unit(r)) as usize, r) == frontal(occupancy, r) - 1,
        forall|q: int|
            #![trigger regional((occupancy - region_unit(r)) as usize, q)]
            0 <= q < REGION_COUNT && q != r && q != r + 1 ==> regional(
                (occupancy - region_unit(r)) as usize,
                q,
            ) == regional(occupancy, q),
{
    if r + 1 == REGION_COUNT {
        lemma_regional_sub(occupancy, r);
    } else {
        lemma_widths();
        lemma_regional_shift(occupancy, r);
        lemma_frontal_shift(occupancy, r);
        let x = occupancy as u64;
        let s = (8 * r) as u64;
        assert(x >= (1u64 << s)) by (bit_vector)
            requires
                s <= 48,
                (x >> s) & 0xffffu64 > 0,
                s % 8 == 0,
        ;
        let diff = (occupancy - region_unit(r)) as usize;
        let y = diff as u64;
        lemma_frontal_shift(diff, r);
        assert((y >> s) & 0xffffu64 < 0xffff) by (bit_vector)
            requires
                s <= 48,
                s % 8 == 0,
                (x >> s) & 0xffffu64 > 0,
                x >= (1u64 << s),
                y == x - (1u64 << s),
        ;
        lemma_frontal_add(diff, r);
        assert((diff + region_unit(r)) as usize == occupancy);
    }
}

} // verus!
