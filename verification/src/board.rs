//! Board representation: two 64-bit occupancy masks, one per player.
//!
//! Cell (x, y, z), with each coordinate in [0, 4), maps to bit index
//! `x + 4*y + 16*z` of a `u64`.

use vstd::prelude::*;

verus! {

/// The bit index of cell (x, y, z) under the fixed linearization.
pub open spec fn cell_index(x: int, y: int, z: int) -> int {
    x + 4 * y + 16 * z
}

/// The single-bit mask of cell (x, y, z).
pub open spec fn cell_bit(x: int, y: int, z: int) -> u64 {
    1u64 << (cell_index(x, y, z) as u64)
}

/// The single-bit mask of the cell with linear index `pos`.
pub open spec fn pos_bit(pos: int) -> u64 {
    1u64 << (pos as u64)
}

/// Returns the single-bit mask of cell (x, y, z).
pub fn bit_at(x: i32, y: i32, z: i32) -> (r: u64)
    requires
        0 <= x < 4,
        0 <= y < 4,
        0 <= z < 4,
    ensures
        r == cell_bit(x as int, y as int, z as int),
{
    1u64 << ((x + 4 * y + 16 * z) as u64)
}

/// The number of set bits among the low `bits` bits of `m`.
pub open spec fn popcnt_rec(m: u64, bits: int) -> int
    decreases bits,
{
    if bits <= 0 {
        0
    } else {
        ((m & 1u64) as int) + popcnt_rec(m >> 1u64, bits - 1)
    }
}

/// The number of set bits of `m`.
pub open spec fn popcnt(m: u64) -> int {
    popcnt_rec(m, 64)
}

pub proof fn lemma_popcnt_rec_bounds(m: u64, bits: int)
    requires
        0 <= bits,
    ensures
        0 <= popcnt_rec(m, bits) <= bits,
    decreases bits,
{
    if bits > 0 {
        assert(m & 1u64 <= 1) by (bit_vector);
        lemma_popcnt_rec_bounds(m >> 1u64, bits - 1);
    }
}

pub proof fn lemma_popcnt_zero(bits: int)
    requires
        0 <= bits,
    ensures
        popcnt_rec(0u64, bits) == 0,
    decreases bits,
{
    if bits > 0 {
        assert(0u64 >> 1u64 == 0u64 && 0u64 & 1u64 == 0u64) by (bit_vector);
        lemma_popcnt_zero(bits - 1);
    }
}

/// Counting stops early once the remaining bits are all clear.
pub proof fn lemma_popcnt_rec_padded(m: u64, n: u64, k: int)
    requires
        n as int <= k <= 64,
        m >> n == 0,
    ensures
        popcnt_rec(m, k) == popcnt_rec(m, n as int),
    decreases n,
{
    if n == 0 {
        assert(m >> 0u64 == m) by (bit_vector);
        lemma_popcnt_zero(k);
    } else if k > n as int {
        assert((m >> 1u64) >> ((n - 1) as u64) == 0) by (bit_vector)
            requires m >> n == 0 && 1 <= n <= 64;
        lemma_popcnt_rec_padded(m >> 1u64, (n - 1) as u64, k - 1);
    }
}

/// Counting distributes over a disjoint union of masks.
pub proof fn lemma_popcnt_disjoint(a: u64, b: u64, n: int)
    requires
        a & b == 0,
        0 <= n <= 64,
    ensures
        popcnt_rec(a | b, n) == popcnt_rec(a, n) + popcnt_rec(b, n),
    decreases n,
{
    if n > 0 {
        assert(((a | b) & 1u64) == (a & 1u64) + (b & 1u64) && ((a | b) >> 1u64) == (a >> 1u64) | (b
            >> 1u64) && ((a >> 1u64) & (b >> 1u64)) == 0) by (bit_vector)
            requires a & b == 0;
        lemma_popcnt_disjoint(a >> 1u64, b >> 1u64, n - 1);
    }
}

/// A single-bit mask counts one.
pub proof fn lemma_popcnt_pow2(k: u64)
    requires
        k < 64,
    ensures
        popcnt(1u64 << k) == 1,
    decreases k,
{
    if k == 0 {
        assert((1u64 << 0u64) == 1u64 && 1u64 & 1u64 == 1u64 && 1u64 >> 1u64 == 0u64)
            by (bit_vector);
        lemma_popcnt_zero(63);
    } else {
        assert(((1u64 << k) & 1u64) == 0u64 && ((1u64 << k) >> 1u64) == (1u64 << (k - 1) as u64)
            && (1u64 << (k - 1) as u64) >> 63u64 == 0u64) by (bit_vector)
            requires 1 <= k < 64;
        lemma_popcnt_pow2((k - 1) as u64);
        lemma_popcnt_rec_padded(1u64 << (k - 1) as u64, 63, 64);
    }
}

/// Counts the set bits of `m`.
pub fn popcount(m: u64) -> (r: u32)
    ensures
        r as int == popcnt(m),
        r <= 64,
{
    let mut r: u32 = 0;
    let mut mm: u64 = m;
    let mut i: u32 = 0;
    while i < 64
        invariant
            0 <= i <= 64,
            r <= i,
            r as int + popcnt_rec(mm, 64 - i as int) == popcnt(m),
        decreases 64 - i,
    {
        proof {
            assert(mm & 1u64 <= 1) by (bit_vector);
            lemma_popcnt_rec_bounds(mm >> 1u64, 63 - i as int);
        }
        r = r + (mm & 1u64) as u32;
        mm = mm >> 1u64;
        i = i + 1;
    }
    r
}

/// Cube occupancy: one mask of cells held by X, one of cells held by O.
/// A well-formed board keeps the two masks disjoint.
#[derive(Clone, Copy, Debug, PartialEq, Eq, Structural)]
pub struct Board {
    pub x_mask: u64,
    pub o_mask: u64,
}

/// The two occupancy masks never claim the same cell.
pub open spec fn board_wf(b: Board) -> bool {
    b.x_mask & b.o_mask == 0
}

impl Default for Board {
    /// The empty board.
    fn default() -> (r: Self)
        ensures
            r.x_mask == 0,
            r.o_mask == 0,
    {
        Board { x_mask: 0, o_mask: 0 }
    }
}

impl Board {
    /// The empty board.
    pub fn new() -> (r: Self)
        ensures
            r.x_mask == 0,
            r.o_mask == 0,
    {
        Self::default()
    }
}

} // verus!
