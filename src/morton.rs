//! Morton (Z-order) codes: the bits of three coordinates interleaved.
use vstd::prelude::*;

verus! {

/// Twice the offset that moves coordinates around zero into the
/// non-negative range before they are truncated to grid cells.
pub const MORTON_CENTER_TWICE: i64 = 65535;

/// The first `k` bits of `x`, bit `j` moved to bit `3 * j` (bits that would
/// land at 64 or above are dropped).
pub open spec fn spread(x: u64, k: nat) -> u64
    decreases k,
{
    if k == 0 {
        0
    } else {
        let j = (k - 1) as nat;
        if 3 * j < 64 {
            spread(x, j) | (((x >> (j as u64)) & 1) << ((3 * j) as u64))
        } else {
            spread(x, j)
        }
    }
}

/// The interleaving of `x`, `y` and `z` over `2^log_bits` bits each, from
/// the least significant bit up: `x0 y0 z0 x1 y1 z1 ...`.
pub open spec fn interleave(x: u64, y: u64, z: u64, log_bits: nat) -> u64 {
    let k = vstd::arithmetic::power2::pow2(log_bits);
    spread(x, k) | (spread(y, k) << 1u64) | (spread(z, k) << 2u64)
}

/// Spreads the low `2^log_bits` bits of `x` two bits apart.
pub fn split(x: u64, log_bits: u64) -> (r: u64)
    requires
        log_bits <= 5,
    ensures
        r == spread(x, vstd::arithmetic::power2::pow2(log_bits as nat)),
{
    let bit_count: u64 = 1u64 << log_bits;
    proof {
        vstd::arithmetic::power2::lemma2_to64();
        assert(bit_count == 1 || bit_count == 2 || bit_count == 4 || bit_count == 8
            || bit_count == 16 || bit_count == 32) by (bit_vector)
            requires
                bit_count == 1u64 << log_bits,
                log_bits <= 5,
        ;
        assert(log_bits == 0 ==> bit_count == 1) by (bit_vector)
            requires
                bit_count == 1u64 << log_bits,
        ;
        assert(log_bits == 1 ==> bit_count == 2) by (bit_vector)
            requires
                bit_count == 1u64 << log_bits,
        ;
        assert(log_bits == 2 ==> bit_count == 4) by (bit_vector)
            requires
                bit_count == 1u64 << log_bits,
        ;
        assert(log_bits == 3 ==> bit_count == 8) by (bit_vector)
            requires
                bit_count == 1u64 << log_bits,
        ;
        assert(log_bits == 4 ==> bit_count == 16) by (bit_vector)
            requires
                bit_count == 1u64 << log_bits,
        ;
        assert(log_bits == 5 ==> bit_count == 32) by (bit_vector)
            requires
                bit_count == 1u64 << log_bits,
        ;
    }
    let mut r: u64 = 0;
    let mut j: u64 = 0;
    while j < bit_count
        invariant
            j <= bit_count,
            bit_count <= 32,
            r == spread(x, j as nat),
        decreases bit_count - j,
    {
        if 3 * j < 64 {
            r = r | (((x >> j) & 1) << (3 * j));
        }
        j = j + 1;
    }
    r
}

/// Encodes `(x, y, z)` as a Morton code with `2^log_bits` bits per
/// coordinate; higher bits of the coordinates are ignored.
pub fn morton_encode(x: usize, y: usize, z: usize, log_bits: usize) -> (r: usize)
    requires
        log_bits <= 5,
    ensures
        r == interleave(x as u64, y as u64, z as u64, log_bits as nat) as usize,
{
    let lb = log_bits as u64;
    let code = split(x as u64, lb) | (split(y as u64, lb) << 1) | (split(z as u64, lb) << 2);
    code as usize
}

/// The grid cell of a coordinate given as twice its value: the coordinate
/// plus half the grid, rounded down, and zero below the grid.
pub open spec fn cell_of(doubled: int) -> u32 {
    if doubled + MORTON_CENTER_TWICE < 0 {
        0
    } else {
        ((doubled + MORTON_CENTER_TWICE) / 2) as u32
    }
}

/// The grid cell of a coordinate given as twice its value: the coordinate
/// plus half the grid, rounded down, and zero below the grid.
pub fn grid_cell(doubled: i64) -> (r: u32)
    requires
        -0x1_0000_0000 <= doubled <= 0x1_0000_0000,
    ensures
        r == cell_of(doubled as int),
        doubled + MORTON_CENTER_TWICE >= 0 ==> r == (doubled + MORTON_CENTER_TWICE) / 2,
{
    let s: i64 = doubled + MORTON_CENTER_TWICE;
    if s < 0 {
        0
    } else {
        (s / 2) as u32
    }
}

} // verus!
