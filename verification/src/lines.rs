//! The 76 winning lines of the 4x4x4 cube, as 64-bit masks.
//!
//! Generation order: 16 lines along X (for each y, z), 16 along Y
//! (for each x, z), 16 along Z (for each x, y), 8 diagonals of the
//! XY-planes (two per z-slice), 8 of the XZ-planes (two per y-slice),
//! 8 of the YZ-planes (two per x-slice), and the 4 space diagonals.

use vstd::prelude::*;
use crate::board::{bit_at, cell_bit, cell_index, lemma_popcnt_zero, popcnt, pos_bit};

verus! {

pub open spec fn x_line(y: int, z: int) -> u64 {
    cell_bit(0, y, z) | cell_bit(1, y, z) | cell_bit(2, y, z) | cell_bit(3, y, z)
}

pub open spec fn y_line(x: int, z: int) -> u64 {
    cell_bit(x, 0, z) | cell_bit(x, 1, z) | cell_bit(x, 2, z) | cell_bit(x, 3, z)
}

pub open spec fn z_line(x: int, y: int) -> u64 {
    cell_bit(x, y, 0) | cell_bit(x, y, 1) | cell_bit(x, y, 2) | cell_bit(x, y, 3)
}

pub open spec fn xy_diag_main(z: int) -> u64 {
    cell_bit(0, 0, z) | cell_bit(1, 1, z) | cell_bit(2, 2, z) | cell_bit(3, 3, z)
}

pub open spec fn xy_diag_anti(z: int) -> u64 {
    cell_bit(0, 3, z) | cell_bit(1, 2, z) | cell_bit(2, 1, z) | cell_bit(3, 0, z)
}

pub open spec fn xz_diag_main(y: int) -> u64 {
    cell_bit(0, y, 0) | cell_bit(1, y, 1) | cell_bit(2, y, 2) | cell_bit(3, y, 3)
}

pub open spec fn xz_diag_anti(y: int) -> u64 {
    cell_bit(0, y, 3) | cell_bit(1, y, 2) | cell_bit(2, y, 1) | cell_bit(3, y, 0)
}

pub open spec fn yz_diag_main(x: int) -> u64 {
    cell_bit(x, 0, 0) | cell_bit(x, 1, 1) | cell_bit(x, 2, 2) | cell_bit(x, 3, 3)
}

pub open spec fn yz_diag_anti(x: int) -> u64 {
    cell_bit(x, 0, 3) | cell_bit(x, 1, 2) | cell_bit(x, 2, 1) | cell_bit(x, 3, 0)
}

pub open spec fn space_diag(k: int) -> u64 {
    if k == 0 {
        cell_bit(0, 0, 0) | cell_bit(1, 1, 1) | cell_bit(2, 2, 2) | cell_bit(3, 3, 3)
    } else if k == 1 {
        cell_bit(0, 0, 3) | cell_bit(1, 1, 2) | cell_bit(2, 2, 1) | cell_bit(3, 3, 0)
    } else if k == 2 {
        cell_bit(0, 3, 0) | cell_bit(1, 2, 1) | cell_bit(2, 1, 2) | cell_bit(3, 0, 3)
    } else {
        cell_bit(3, 0, 0) | cell_bit(2, 1, 1) | cell_bit(1, 2, 2) | cell_bit(0, 3, 3)
    }
}

/// The i-th winning line, in generation order, for 0 <= i < 76.
pub open spec fn mask_at(i: int) -> u64 {
    if 0 <= i < 16 {
        x_line(i / 4, i % 4)
    } else if 16 <= i < 32 {
        y_line((i - 16) / 4, (i - 16) % 4)
    } else if 32 <= i < 48 {
        z_line((i - 32) / 4, (i - 32) % 4)
    } else if 48 <= i < 56 {
        if (i - 48) % 2 == 0 {
            xy_diag_main((i - 48) / 2)
        } else {
            xy_diag_anti((i - 48) / 2)
        }
    } else if 56 <= i < 64 {
        if (i - 56) % 2 == 0 {
            xz_diag_main((i - 56) / 2)
        } else {
            xz_diag_anti((i - 56) / 2)
        }
    } else if 64 <= i < 72 {
        if (i - 64) % 2 == 0 {
            yz_diag_main((i - 64) / 2)
        } else {
            yz_diag_anti((i - 64) / 2)
        }
    } else {
        space_diag(i - 72)
    }
}

/// A vector that holds the whole line table in generation order.
pub open spec fn is_line_table(s: Seq<u64>) -> bool {
    s.len() == 76 && forall|i: int| 0 <= i < 76 ==> s[i] == mask_at(i)
}

/// `mask` holds every cell of some winning line.
pub open spec fn wins(mask: u64) -> bool {
    exists|i: int| 0 <= i < 76 && (mask & #[trigger] mask_at(i)) == mask_at(i)
}

/// Builds the table of the 76 winning-line masks in generation order.
pub fn generate_win_masks() -> (v: Vec<u64>)
    ensures
        is_line_table(v@),
{
    let mut v: Vec<u64> = Vec::new();

    // Lines along the X axis.
    let mut y: i32 = 0;
    while y < 4
        invariant
            0 <= y <= 4,
            v@.len() == 4 * y,
            forall|i: int| 0 <= i < v@.len() ==> v@[i] == mask_at(i),
        decreases 4 - y,
    {
        let mut z: i32 = 0;
        while z < 4
            invariant
                0 <= y < 4,
                0 <= z <= 4,
                v@.len() == 4 * y + z,
                forall|i: int| 0 <= i < v@.len() ==> v@[i] == mask_at(i),
            decreases 4 - z,
        {
            let m = bit_at(0, y, z) | bit_at(1, y, z) | bit_at(2, y, z) | bit_at(3, y, z);
            proof {
                let i = 4 * (y as int) + (z as int);
                assert(i / 4 == y as int && i % 4 == z as int) by (nonlinear_arith)
                    requires 0 <= y < 4 && 0 <= z < 4 && i == 4 * (y as int) + (z as int);
                assert(mask_at(i) == x_line(y as int, z as int));
            }
            v.push(m);
            z += 1;
        }
        y += 1;
    }

    // Lines along the Y axis.
    let mut x: i32 = 0;
    while x < 4
        invariant
            0 <= x <= 4,
            v@.len() == 16 + 4 * x,
            forall|i: int| 0 <= i < v@.len() ==> v@[i] == mask_at(i),
        decreases 4 - x,
    {
        let mut z: i32 = 0;
        while z < 4
            invariant
                0 <= x < 4,
                0 <= z <= 4,
                v@.len() == 16 + 4 * x + z,
                forall|i: int| 0 <= i < v@.len() ==> v@[i] == mask_at(i),
            decreases 4 - z,
        {
            let m = bit_at(x, 0, z) | bit_at(x, 1, z) | bit_at(x, 2, z) | bit_at(x, 3, z);
            proof {
                let j = 4 * (x as int) + (z as int);
                assert(j / 4 == x as int && j % 4 == z as int) by (nonlinear_arith)
                    requires 0 <= x < 4 && 0 <= z < 4 && j == 4 * (x as int) + (z as int);
                assert(mask_at(16 + j) == y_line(x as int, z as int));
            }
            v.push(m);
            z += 1;
        }
        x += 1;
    }

    // Lines along the Z axis.
    let mut x: i32 = 0;
    while x < 4
        invariant
            0 <= x <= 4,
            v@.len() == 32 + 4 * x,
            forall|i: int| 0 <= i < v@.len() ==> v@[i] == mask_at(i),
        decreases 4 - x,
    {
        let mut y: i32 = 0;
        while y < 4
            invariant
                0 <= x < 4,
                0 <= y <= 4,
                v@.len() == 32 + 4 * x + y,
                forall|i: int| 0 <= i < v@.len() ==> v@[i] == mask_at(i),
            decreases 4 - y,
        {
            let m = bit_at(x, y, 0) | bit_at(x, y, 1) | bit_at(x, y, 2) | bit_at(x, y, 3);
            proof {
                let j = 4 * (x as int) + (y as int);
                assert(j / 4 == x as int && j % 4 == y as int) by (nonlinear_arith)
                    requires 0 <= x < 4 && 0 <= y < 4 && j == 4 * (x as int) + (y as int);
                assert(mask_at(32 + j) == z_line(x as int, y as int));
            }
            v.push(m);
            y += 1;
        }
        x += 1;
    }

    // Diagonals of each XY-plane.
    let mut z: i32 = 0;
    while z < 4
        invariant
            0 <= z <= 4,
            v@.len() == 48 + 2 * z,
            forall|i: int| 0 <= i < v@.len() ==> v@[i] == mask_at(i),
        decreases 4 - z,
    {
        let m1 = bit_at(0, 0, z) | bit_at(1, 1, z) | bit_at(2, 2, z) | bit_at(3, 3, z);
        let m2 = bit_at(0, 3, z) | bit_at(1, 2, z) | bit_at(2, 1, z) | bit_at(3, 0, z);
        proof {
            let j = 2 * (z as int);
            assert(j / 2 == z as int && j % 2 == 0 && (j + 1) / 2 == z as int && (j + 1) % 2 == 1)
                by (nonlinear_arith)
                requires 0 <= z < 4 && j == 2 * (z as int);
            assert(mask_at(48 + j) == xy_diag_main(z as int));
            assert(mask_at(48 + j + 1) == xy_diag_anti(z as int));
        }
        v.push(m1);
        v.push(m2);
        z += 1;
    }

    // Diagonals of each XZ-plane.
    let mut y: i32 = 0;
    while y < 4
        invariant
            0 <= y <= 4,
            v@.len() == 56 + 2 * y,
            forall|i: int| 0 <= i < v@.len() ==> v@[i] == mask_at(i),
        decreases 4 - y,
    {
        let m1 = bit_at(0, y, 0) | bit_at(1, y, 1) | bit_at(2, y, 2) | bit_at(3, y, 3);
        let m2 = bit_at(0, y, 3) | bit_at(1, y, 2) | bit_at(2, y, 1) | bit_at(3, y, 0);
        proof {
            let j = 2 * (y as int);
            assert(j / 2 == y as int && j % 2 == 0 && (j + 1) / 2 == y as int && (j + 1) % 2 == 1)
                by (nonlinear_arith)
                requires 0 <= y < 4 && j == 2 * (y as int);
            assert(mask_at(56 + j) == xz_diag_main(y as int));
            assert(mask_at(56 + j + 1) == xz_diag_anti(y as int));
        }
        v.push(m1);
        v.push(m2);
        y += 1;
    }

    // Diagonals of each YZ-plane.
    let mut x: i32 = 0;
    while x < 4
        invariant
            0 <= x <= 4,
            v@.len() == 64 + 2 * x,
            forall|i: int| 0 <= i < v@.len() ==> v@[i] == mask_at(i),
        decreases 4 - x,
    {
        let m1 = bit_at(x, 0, 0) | bit_at(x, 1, 1) | bit_at(x, 2, 2) | bit_at(x, 3, 3);
        let m2 = bit_at(x, 0, 3) | bit_at(x, 1, 2) | bit_at(x, 2, 1) | bit_at(x, 3, 0);
        proof {
            let j = 2 * (x as int);
            assert(j / 2 == x as int && j % 2 == 0 && (j + 1) / 2 == x as int && (j + 1) % 2 == 1)
                by (nonlinear_arith)
                requires 0 <= x < 4 && j == 2 * (x as int);
            assert(mask_at(64 + j) == yz_diag_main(x as int));
            assert(mask_at(64 + j + 1) == yz_diag_anti(x as int));
        }
        v.push(m1);
        v.push(m2);
        x += 1;
    }

    // The four space diagonals.
    let m1 = bit_at(0, 0, 0) | bit_at(1, 1, 1) | bit_at(2, 2, 2) | bit_at(3, 3, 3);
    let m2 = bit_at(0, 0, 3) | bit_at(1, 1, 2) | bit_at(2, 2, 1) | bit_at(3, 3, 0);
    let m3 = bit_at(0, 3, 0) | bit_at(1, 2, 1) | bit_at(2, 1, 2) | bit_at(3, 0, 3);
    let m4 = bit_at(3, 0, 0) | bit_at(2, 1, 1) | bit_at(1, 2, 2) | bit_at(0, 3, 3);
    v.push(m1);
    v.push(m2);
    v.push(m3);
    v.push(m4);

    v
}

/// True iff some line of the table is a subset of `mask`.
/// The table parameter lets callers reuse one generated table.
pub fn mask_has_win(mask: u64, masks: &Vec<u64>) -> (r: bool)
    requires
        is_line_table(masks@),
    ensures
        r == wins(mask),
{
    let mut i: usize = 0;
    let mut found = false;
    while i < masks.len()
        invariant
            is_line_table(masks@),
            0 <= i <= 76,
            found == exists|j: int| 0 <= j < i && (mask & #[trigger] mask_at(j)) == mask_at(j),
        decreases 76 - i,
    {
        let line = masks[i];
        proof {
            assert(line == mask_at(i as int));
        }
        if (mask & line) == line {
            found = true;
        }
        i += 1;
    }
    found
}

/// The first line, in generation order from `i` on, fully held by
/// either side; 0 when neither side holds a line.
pub open spec fn winning_mask_from(x: u64, o: u64, i: int) -> u64
    decreases 76 - i,
{
    if i < 0 || i >= 76 {
        0
    } else if (x & mask_at(i)) == mask_at(i) || (o & mask_at(i)) == mask_at(i) {
        mask_at(i)
    } else {
        winning_mask_from(x, o, i + 1)
    }
}


// ----------------------------------------------------------------------
// Shape of the table: 76 four-cell lines, covering every cell.
// ----------------------------------------------------------------------

/// How many of the first `n` lines pass through cell `c`.
pub open spec fn lines_through_upto(c: int, n: int) -> int
    decreases n,
{
    if n <= 0 {
        0
    } else {
        lines_through_upto(c, n - 1) + if mask_at(n - 1) & pos_bit(c) != 0 {
            1int
        } else {
            0int
        }
    }
}

/// How many of the 76 lines pass through cell `c`.
pub open spec fn lines_through(c: int) -> int {
    lines_through_upto(c, 76)
}

/// Cell `c` lies on one of the four space diagonals.
pub open spec fn on_space_diagonal(c: int) -> bool {
    (mask_at(72) | mask_at(73) | mask_at(74) | mask_at(75)) & pos_bit(c) != 0
}

/// A union of four masks keeps each of them.
proof fn lemma_or4_member(b1: u64, b2: u64, b3: u64, b4: u64, t: u64)
    requires
        t != 0,
        t == b1 || t == b2 || t == b3 || t == b4,
    ensures
        (b1 | b2 | b3 | b4) & t != 0,
{
    assert((b1 | b2 | b3 | b4) & b1 == b1 && (b1 | b2 | b3 | b4) & b2 == b2 && (b1 | b2 | b3 | b4)
        & b3 == b3 && (b1 | b2 | b3 | b4) & b4 == b4) by (bit_vector);
}

pub proof fn lemma_pos_bit_nonzero(c: int)
    requires
        0 <= c < 64,
    ensures
        pos_bit(c) != 0,
{
    let cc = c as u64;
    assert(1u64 << cc != 0) by (bit_vector)
        requires cc < 64;
}

/// A union of four distinct single-bit masks holds exactly four cells.
proof fn lemma_popcnt_four_bits(k1: u64, k2: u64, k3: u64, k4: u64)
    requires
        k1 < 64 && k2 < 64 && k3 < 64 && k4 < 64,
        k1 != k2 && k1 != k3 && k1 != k4 && k2 != k3 && k2 != k4 && k3 != k4,
    ensures
        popcnt((1u64 << k1) | (1u64 << k2) | (1u64 << k3) | (1u64 << k4)) == 4,
{
    assert((1u64 << k1) & (1u64 << k2) == 0 && ((1u64 << k1) | (1u64 << k2)) & (1u64 << k3) == 0
        && (((1u64 << k1) | (1u64 << k2)) | (1u64 << k3)) & (1u64 << k4) == 0) by (bit_vector)
        requires
            k1 < 64 && k2 < 64 && k3 < 64 && k4 < 64 && k1 != k2 && k1 != k3 && k1 != k4 && k2
                != k3 && k2 != k4 && k3 != k4,
    ;
    crate::board::lemma_popcnt_pow2(k1);
    crate::board::lemma_popcnt_pow2(k2);
    crate::board::lemma_popcnt_pow2(k3);
    crate::board::lemma_popcnt_pow2(k4);
    crate::board::lemma_popcnt_disjoint(1u64 << k1, 1u64 << k2, 64);
    crate::board::lemma_popcnt_disjoint((1u64 << k1) | (1u64 << k2), 1u64 << k3, 64);
    crate::board::lemma_popcnt_disjoint(((1u64 << k1) | (1u64 << k2)) | (1u64 << k3), 1u64 << k4,
        64);
}

/// Every line of the table holds exactly four cells.
pub proof fn lemma_line_pop4(i: int)
    requires
        0 <= i < 76,
    ensures
        popcnt(mask_at(i)) == 4,
        mask_at(i) != 0,
{
    if i < 16 {
        let y = i / 4;
        let z = i % 4;
        assert(0 <= y < 4 && 0 <= z < 4) by (nonlinear_arith)
            requires 0 <= i < 16 && y == i / 4 && z == i % 4;
        lemma_popcnt_four_bits(
            cell_index(0, y, z) as u64,
            cell_index(1, y, z) as u64,
            cell_index(2, y, z) as u64,
            cell_index(3, y, z) as u64,
        );
    } else if i < 32 {
        let j = i - 16;
        let x = j / 4;
        let z = j % 4;
        assert(0 <= x < 4 && 0 <= z < 4) by (nonlinear_arith)
            requires 0 <= j < 16 && x == j / 4 && z == j % 4;
        lemma_popcnt_four_bits(
            cell_index(x, 0, z) as u64,
            cell_index(x, 1, z) as u64,
            cell_index(x, 2, z) as u64,
            cell_index(x, 3, z) as u64,
        );
    } else if i < 48 {
        let j = i - 32;
        let x = j / 4;
        let y = j % 4;
        assert(0 <= x < 4 && 0 <= y < 4) by (nonlinear_arith)
            requires 0 <= j < 16 && x == j / 4 && y == j % 4;
        lemma_popcnt_four_bits(
            cell_index(x, y, 0) as u64,
            cell_index(x, y, 1) as u64,
            cell_index(x, y, 2) as u64,
            cell_index(x, y, 3) as u64,
        );
    } else if i < 56 {
        let j = i - 48;
        let z = j / 2;
        let p = j % 2;
        assert(0 <= z < 4 && (p == 0 || p == 1)) by (nonlinear_arith)
            requires 0 <= j < 8 && z == j / 2 && p == j % 2;
        if p == 0 {
            lemma_popcnt_four_bits(
                cell_index(0, 0, z) as u64,
                cell_index(1, 1, z) as u64,
                cell_index(2, 2, z) as u64,
                cell_index(3, 3, z) as u64,
            );
        } else {
            lemma_popcnt_four_bits(
                cell_index(0, 3, z) as u64,
                cell_index(1, 2, z) as u64,
                cell_index(2, 1, z) as u64,
                cell_index(3, 0, z) as u64,
            );
        }
    } else if i < 64 {
        let j = i - 56;
        let y = j / 2;
        let p = j % 2;
        assert(0 <= y < 4 && (p == 0 || p == 1)) by (nonlinear_arith)
            requires 0 <= j < 8 && y == j / 2 && p == j % 2;
        if p == 0 {
            lemma_popcnt_four_bits(
                cell_index(0, y, 0) as u64,
                cell_index(1, y, 1) as u64,
                cell_index(2, y, 2) as u64,
                cell_index(3, y, 3) as u64,
            );
        } else {
            lemma_popcnt_four_bits(
                cell_index(0, y, 3) as u64,
                cell_index(1, y, 2) as u64,
                cell_index(2, y, 1) as u64,
                cell_index(3, y, 0) as u64,
            );
        }
    } else if i < 72 {
        let j = i - 64;
        let x = j / 2;
        let p = j % 2;
        assert(0 <= x < 4 && (p == 0 || p == 1)) by (nonlinear_arith)
            requires 0 <= j < 8 && x == j / 2 && p == j % 2;
        if p == 0 {
            lemma_popcnt_four_bits(
                cell_index(x, 0, 0) as u64,
                cell_index(x, 1, 1) as u64,
                cell_index(x, 2, 2) as u64,
                cell_index(x, 3, 3) as u64,
            );
        } else {
            lemma_popcnt_four_bits(
                cell_index(x, 0, 3) as u64,
                cell_index(x, 1, 2) as u64,
                cell_index(x, 2, 1) as u64,
                cell_index(x, 3, 0) as u64,
            );
        }
    } else {
        let k = i - 72;
        if k == 0 {
            lemma_popcnt_four_bits(
                cell_index(0, 0, 0) as u64,
                cell_index(1, 1, 1) as u64,
                cell_index(2, 2, 2) as u64,
                cell_index(3, 3, 3) as u64,
            );
        } else if k == 1 {
            lemma_popcnt_four_bits(
                cell_index(0, 0, 3) as u64,
                cell_index(1, 1, 2) as u64,
                cell_index(2, 2, 1) as u64,
                cell_index(3, 3, 0) as u64,
            );
        } else if k == 2 {
            lemma_popcnt_four_bits(
                cell_index(0, 3, 0) as u64,
                cell_index(1, 2, 1) as u64,
                cell_index(2, 1, 2) as u64,
                cell_index(3, 0, 3) as u64,
            );
        } else {
            lemma_popcnt_four_bits(
                cell_index(3, 0, 0) as u64,
                cell_index(2, 1, 1) as u64,
                cell_index(1, 2, 2) as u64,
                cell_index(0, 3, 3) as u64,
            );
        }
    }
    lemma_popcnt_zero(64);
}

proof fn lemma_div4(i: int, base: int)
    requires
        base <= i < base + 16,
    ensures
        i == base + 4 * ((i - base) / 4) + (i - base) % 4,
        0 <= (i - base) / 4 < 4,
        0 <= (i - base) % 4 < 4,
{
    let q = (i - base) / 4;
    let p = (i - base) % 4;
    assert(i - base == 4 * q + p && 0 <= q < 4 && 0 <= p < 4) by (nonlinear_arith)
        requires 0 <= i - base < 16 && q == (i - base) / 4 && p == (i - base) % 4;
}

proof fn lemma_div2(i: int, base: int)
    requires
        base <= i < base + 8,
    ensures
        i == base + 2 * ((i - base) / 2) + (i - base) % 2,
        0 <= (i - base) / 2 < 4,
        (i - base) % 2 == 0 || (i - base) % 2 == 1,
{
    let q = (i - base) / 2;
    let p = (i - base) % 2;
    assert(i - base == 2 * q + p && 0 <= q < 4 && (p == 0 || p == 1)) by (nonlinear_arith)
        requires 0 <= i - base < 8 && q == (i - base) / 2 && p == (i - base) % 2;
}

/// A progression-shaped line holds each of its four cells.
proof fn lemma_line_has_cell(c: int, a: int, s: int, m: u64)
    requires
        0 <= a && 1 <= s && a + 3 * s < 64,
        m == pos_bit(a) | pos_bit(a + s) | pos_bit(a + 2 * s) | pos_bit(a + 3 * s),
        c == a || c == a + s || c == a + 2 * s || c == a + 3 * s,
    ensures
        m & pos_bit(c) != 0,
{
    lemma_pos_bit_nonzero(c);
    lemma_or4_member(pos_bit(a), pos_bit(a + s), pos_bit(a + 2 * s), pos_bit(a + 3 * s),
        pos_bit(c));
}

/// A cell of a progression-shaped line is one of its four cells.
proof fn lemma_cell_of_line(c: int, a: int, s: int, m: u64)
    requires
        0 <= a && 1 <= s && a + 3 * s < 64,
        m == pos_bit(a) | pos_bit(a + s) | pos_bit(a + 2 * s) | pos_bit(a + 3 * s),
        0 <= c < 64,
        m & pos_bit(c) != 0,
    ensures
        c == a || c == a + s || c == a + 2 * s || c == a + 3 * s,
{
    lemma_bit_in_four(c, a as u64, (a + s) as u64, (a + 2 * s) as u64, (a + 3 * s) as u64);
}

/// No two entries of the line table coincide: the masks fix the anchor
/// and the stride, the stride names the shape, and within one shape
/// the anchor names the slice.
pub proof fn lemma_line_table_distinct(i: int, j: int)
    requires
        0 <= i < 76,
        0 <= j < 76,
        i != j,
    ensures
        mask_at(i) != mask_at(j),
{
    let (a1, s1) = lemma_line_anchor(i);
    let (a2, s2) = lemma_line_anchor(j);
    if mask_at(i) == mask_at(j) {
        lemma_line_has_cell(a1, a1, s1, mask_at(i));
        lemma_cell_of_line(a1, a2, s2, mask_at(j));
        lemma_line_has_cell(a2, a2, s2, mask_at(j));
        lemma_cell_of_line(a2, a1, s1, mask_at(i));
        assert(a1 == a2);
        lemma_line_has_cell(a1 + s1, a1, s1, mask_at(i));
        lemma_cell_of_line(a1 + s1, a2, s2, mask_at(j));
        lemma_line_has_cell(a2 + s2, a2, s2, mask_at(j));
        lemma_cell_of_line(a2 + s2, a1, s1, mask_at(i));
        assert(s1 == s2);
        if i < 16 {
            assert(j < 16);
            lemma_div4(i, 0);
            lemma_div4(j, 0);
        } else if i < 32 {
            assert(16 <= j < 32);
            lemma_div4(i, 16);
            lemma_div4(j, 16);
        } else if i < 48 {
            assert(32 <= j < 48);
            lemma_div4(i, 32);
            lemma_div4(j, 32);
        } else if i < 56 {
            lemma_div2(i, 48);
            assert(48 <= j < 56);
            lemma_div2(j, 48);
        } else if i < 64 {
            lemma_div2(i, 56);
            assert(56 <= j < 64);
            lemma_div2(j, 56);
        } else if i < 72 {
            lemma_div2(i, 64);
            assert(64 <= j < 72);
            lemma_div2(j, 64);
        }
        assert(false);
    }
}

/// Every line of the table holds exactly four cells; in particular no
/// line mask is zero.
pub proof fn lemma_line_table_shape()
    ensures
        forall|i: int| 0 <= i < 76 ==> popcnt(#[trigger] mask_at(i)) == 4,
        forall|i: int| 0 <= i < 76 ==> #[trigger] mask_at(i) != 0,
        forall|i: int, j: int|
            0 <= i < 76 && 0 <= j < 76 && i != j ==> #[trigger] mask_at(i) != #[trigger] mask_at(j),
{
    assert forall|i: int| 0 <= i < 76 implies popcnt(#[trigger] mask_at(i)) == 4 && mask_at(i)
        != 0 by {
        lemma_line_pop4(i);
    }
    assert forall|i: int, j: int|
        0 <= i < 76 && 0 <= j < 76 && i != j implies #[trigger] mask_at(i) != #[trigger] mask_at(
        j,
    ) by {
        lemma_line_table_distinct(i, j);
    }
}

proof fn lemma_count_nonneg(c: int, n: int)
    requires
        0 <= n,
    ensures
        lines_through_upto(c, n) >= 0,
    decreases n,
{
    if n > 0 {
        lemma_count_nonneg(c, n - 1);
    }
}

proof fn lemma_count_mono(c: int, a: int, b: int)
    requires
        0 <= a <= b,
    ensures
        lines_through_upto(c, a) <= lines_through_upto(c, b),
    decreases b - a,
{
    if a < b {
        lemma_count_mono(c, a, b - 1);
        lemma_count_nonneg(c, a);
    }
}

/// Chains four distinct lines through `c` into a count of four.
proof fn lemma_four_members(c: int, i1: int, i2: int, i3: int, i4: int)
    requires
        0 <= i1 < i2 < i3 < i4 < 76,
        mask_at(i1) & pos_bit(c) != 0,
        mask_at(i2) & pos_bit(c) != 0,
        mask_at(i3) & pos_bit(c) != 0,
        mask_at(i4) & pos_bit(c) != 0,
    ensures
        lines_through(c) >= 4,
{
    lemma_count_nonneg(c, i1);
    lemma_count_mono(c, i1 + 1, i2);
    lemma_count_mono(c, i2 + 1, i3);
    lemma_count_mono(c, i3 + 1, i4);
    lemma_count_mono(c, i4 + 1, 76);
}

/// Chains seven distinct lines through `c` into a count of seven.
proof fn lemma_seven_members(c: int, i1: int, i2: int, i3: int, i4: int, i5: int, i6: int, i7: int)
    requires
        0 <= i1 < i2 < i3 < i4 < i5 < i6 < i7 < 76,
        mask_at(i1) & pos_bit(c) != 0,
        mask_at(i2) & pos_bit(c) != 0,
        mask_at(i3) & pos_bit(c) != 0,
        mask_at(i4) & pos_bit(c) != 0,
        mask_at(i5) & pos_bit(c) != 0,
        mask_at(i6) & pos_bit(c) != 0,
        mask_at(i7) & pos_bit(c) != 0,
    ensures
        lines_through(c) >= 7,
{
    lemma_count_nonneg(c, i1);
    lemma_count_mono(c, i1 + 1, i2);
    lemma_count_mono(c, i2 + 1, i3);
    lemma_count_mono(c, i3 + 1, i4);
    lemma_count_mono(c, i4 + 1, i5);
    lemma_count_mono(c, i5 + 1, i6);
    lemma_count_mono(c, i6 + 1, i7);
    lemma_count_mono(c, i7 + 1, 76);
}

/// The coordinates of cell `c`, and the three axis lines through it.
proof fn lemma_cell_decompose(c: int) -> (xyz: (int, int, int))
    requires
        0 <= c < 64,
    ensures
        0 <= xyz.0 < 4 && 0 <= xyz.1 < 4 && 0 <= xyz.2 < 4,
        c == cell_index(xyz.0, xyz.1, xyz.2),
{
    let z = c / 16;
    let r = c % 16;
    assert(c == 16 * z + r && 0 <= r < 16 && 0 <= z < 4) by (nonlinear_arith)
        requires 0 <= c < 64 && z == c / 16 && r == c % 16;
    let y = r / 4;
    let x = r % 4;
    assert(r == 4 * y + x && 0 <= x < 4 && 0 <= y < 4) by (nonlinear_arith)
        requires 0 <= r < 16 && y == r / 4 && x == r % 4;
    (x, y, z)
}

/// The axis line of the given slice is the table entry its index names.
proof fn lemma_axis_line_at(a: int, b: int)
    requires
        0 <= a < 4,
        0 <= b < 4,
    ensures
        mask_at(4 * a + b) == x_line(a, b),
        mask_at(16 + 4 * a + b) == y_line(a, b),
        mask_at(32 + 4 * a + b) == z_line(a, b),
{
    let j = 4 * a + b;
    assert(j / 4 == a && j % 4 == b) by (nonlinear_arith)
        requires 0 <= a < 4 && 0 <= b < 4 && j == 4 * a + b;
}

/// The plane-diagonal pair of a slice sits at the table index its
/// slice names.
proof fn lemma_diag_line_at(s: int)
    requires
        0 <= s < 4,
    ensures
        mask_at(48 + 2 * s) == xy_diag_main(s),
        mask_at(48 + 2 * s + 1) == xy_diag_anti(s),
        mask_at(56 + 2 * s) == xz_diag_main(s),
        mask_at(56 + 2 * s + 1) == xz_diag_anti(s),
        mask_at(64 + 2 * s) == yz_diag_main(s),
        mask_at(64 + 2 * s + 1) == yz_diag_anti(s),
{
    let j = 2 * s;
    assert(j / 2 == s && j % 2 == 0 && (j + 1) / 2 == s && (j + 1) % 2 == 1) by (nonlinear_arith)
        requires 0 <= s < 4 && j == 2 * s;
}

/// Every cell lies on at least four lines: its three axis lines and at
/// least one plane diagonal.
#[verifier::rlimit(100)]
pub proof fn lemma_cell_coverage(c: int)
    requires
        0 <= c < 64,
    ensures
        lines_through(c) >= 4,
{
    let (x, y, z) = lemma_cell_decompose(c);
    lemma_pos_bit_nonzero(c);
    lemma_axis_line_at(y, z);
    lemma_axis_line_at(x, z);
    lemma_axis_line_at(x, y);
    lemma_diag_line_at(z);
    lemma_diag_line_at(y);
    lemma_diag_line_at(x);
    let i1 = 4 * y + z;
    let i2 = 16 + 4 * x + z;
    let i3 = 32 + 4 * x + y;
    lemma_or4_member(cell_bit(0, y, z), cell_bit(1, y, z), cell_bit(2, y, z), cell_bit(3, y, z),
        pos_bit(c));
    lemma_or4_member(cell_bit(x, 0, z), cell_bit(x, 1, z), cell_bit(x, 2, z), cell_bit(x, 3, z),
        pos_bit(c));
    lemma_or4_member(cell_bit(x, y, 0), cell_bit(x, y, 1), cell_bit(x, y, 2), cell_bit(x, y, 3),
        pos_bit(c));
    if y == x {
        lemma_or4_member(cell_bit(0, 0, z), cell_bit(1, 1, z), cell_bit(2, 2, z),
            cell_bit(3, 3, z), pos_bit(c));
        lemma_four_members(c, i1, i2, i3, 48 + 2 * z);
    } else if y == 3 - x {
        lemma_or4_member(cell_bit(0, 3, z), cell_bit(1, 2, z), cell_bit(2, 1, z),
            cell_bit(3, 0, z), pos_bit(c));
        lemma_four_members(c, i1, i2, i3, 48 + 2 * z + 1);
    } else if z == x {
        lemma_or4_member(cell_bit(0, y, 0), cell_bit(1, y, 1), cell_bit(2, y, 2),
            cell_bit(3, y, 3), pos_bit(c));
        lemma_four_members(c, i1, i2, i3, 56 + 2 * y);
    } else if z == 3 - x {
        lemma_or4_member(cell_bit(0, y, 3), cell_bit(1, y, 2), cell_bit(2, y, 1),
            cell_bit(3, y, 0), pos_bit(c));
        lemma_four_members(c, i1, i2, i3, 56 + 2 * y + 1);
    } else if z == y {
        lemma_or4_member(cell_bit(x, 0, 0), cell_bit(x, 1, 1), cell_bit(x, 2, 2),
            cell_bit(x, 3, 3), pos_bit(c));
        lemma_four_members(c, i1, i2, i3, 64 + 2 * x);
    } else {
        assert(z == 3 - y);
        lemma_or4_member(cell_bit(x, 0, 3), cell_bit(x, 1, 2), cell_bit(x, 2, 1),
            cell_bit(x, 3, 0), pos_bit(c));
        lemma_four_members(c, i1, i2, i3, 64 + 2 * x + 1);
    }
}

proof fn lemma_or4_comm(b1: u64, b2: u64, b3: u64, b4: u64)
    ensures
        (b1 | b2 | b3 | b4) == (b4 | b3 | b2 | b1),
{
    assert((b1 | b2 | b3 | b4) == (b4 | b3 | b2 | b1)) by (bit_vector);
}

/// Every line of the table is an arithmetic progression of four cells:
/// an anchor cell plus a stride taken three times. The stride is the
/// line's shape (axis or diagonal family), the anchor its slice, and
/// the pair recovers the table index.
proof fn lemma_line_anchor(i: int) -> (r: (int, int))
    requires
        0 <= i < 76,
    ensures
        ({
            let (a, s) = r;
            &&& 0 <= a && 1 <= s && a + 3 * s < 64
            &&& mask_at(i) == pos_bit(a) | pos_bit(a + s) | pos_bit(a + 2 * s) | pos_bit(a + 3 * s)
            &&& (0 <= i < 16 ==> s == 1 && a == 4 * (i / 4) + 16 * (i % 4))
            &&& (16 <= i < 32 ==> s == 4 && a == ((i - 16) / 4) + 16 * ((i - 16) % 4))
            &&& (32 <= i < 48 ==> s == 16 && a == ((i - 32) / 4) + 4 * ((i - 32) % 4))
            &&& (48 <= i < 56 && (i - 48) % 2 == 0 ==> s == 5 && a == 16 * ((i - 48) / 2))
            &&& (48 <= i < 56 && (i - 48) % 2 == 1 ==> s == 3 && a == 3 + 16 * ((i - 48) / 2))
            &&& (56 <= i < 64 && (i - 56) % 2 == 0 ==> s == 17 && a == 4 * ((i - 56) / 2))
            &&& (56 <= i < 64 && (i - 56) % 2 == 1 ==> s == 15 && a == 3 + 4 * ((i - 56) / 2))
            &&& (64 <= i < 72 && (i - 64) % 2 == 0 ==> s == 20 && a == (i - 64) / 2)
            &&& (64 <= i < 72 && (i - 64) % 2 == 1 ==> s == 12 && a == 12 + (i - 64) / 2)
            &&& (i == 72 ==> s == 21 && a == 0)
            &&& (i == 73 ==> s == 11 && a == 15)
            &&& (i == 74 ==> s == 13 && a == 12)
            &&& (i == 75 ==> s == 19 && a == 3)
        }),
{
    if i < 16 {
        let y = i / 4;
        let z = i % 4;
        assert(0 <= y < 4 && 0 <= z < 4 && i == 4 * y + z) by (nonlinear_arith)
            requires 0 <= i < 16 && y == i / 4 && z == i % 4;
        (4 * y + 16 * z, 1)
    } else if i < 32 {
        let j = i - 16;
        let x = j / 4;
        let z = j % 4;
        assert(0 <= x < 4 && 0 <= z < 4 && j == 4 * x + z) by (nonlinear_arith)
            requires 0 <= j < 16 && x == j / 4 && z == j % 4;
        (x + 16 * z, 4)
    } else if i < 48 {
        let j = i - 32;
        let x = j / 4;
        let y = j % 4;
        assert(0 <= x < 4 && 0 <= y < 4 && j == 4 * x + y) by (nonlinear_arith)
            requires 0 <= j < 16 && x == j / 4 && y == j % 4;
        (x + 4 * y, 16)
    } else if i < 56 {
        let j = i - 48;
        let z = j / 2;
        let p = j % 2;
        assert(0 <= z < 4 && (p == 0 || p == 1) && j == 2 * z + p) by (nonlinear_arith)
            requires 0 <= j < 8 && z == j / 2 && p == j % 2;
        if p == 0 {
            (16 * z, 5)
        } else {
            lemma_or4_comm(cell_bit(0, 3, z), cell_bit(1, 2, z), cell_bit(2, 1, z),
                cell_bit(3, 0, z));
            (3 + 16 * z, 3)
        }
    } else if i < 64 {
        let j = i - 56;
        let y = j / 2;
        let p = j % 2;
        assert(0 <= y < 4 && (p == 0 || p == 1) && j == 2 * y + p) by (nonlinear_arith)
            requires 0 <= j < 8 && y == j / 2 && p == j % 2;
        if p == 0 {
            (4 * y, 17)
        } else {
            lemma_or4_comm(cell_bit(0, y, 3), cell_bit(1, y, 2), cell_bit(2, y, 1),
                cell_bit(3, y, 0));
            (3 + 4 * y, 15)
        }
    } else if i < 72 {
        let j = i - 64;
        let x = j / 2;
        let p = j % 2;
        assert(0 <= x < 4 && (p == 0 || p == 1) && j == 2 * x + p) by (nonlinear_arith)
            requires 0 <= j < 8 && x == j / 2 && p == j % 2;
        if p == 0 {
            (x, 20)
        } else {
            lemma_or4_comm(cell_bit(x, 0, 3), cell_bit(x, 1, 2), cell_bit(x, 2, 1),
                cell_bit(x, 3, 0));
            (12 + x, 12)
        }
    } else if i == 72 {
        (0, 21)
    } else if i == 73 {
        lemma_or4_comm(cell_bit(0, 0, 3), cell_bit(1, 1, 2), cell_bit(2, 2, 1), cell_bit(3, 3, 0));
        (15, 11)
    } else if i == 74 {
        (12, 13)
    } else {
        (3, 19)
    }
}

/// A single bit below 64 that meets a union of four single-bit masks
/// is one of the four.
proof fn lemma_bit_in_four(c: int, k1: u64, k2: u64, k3: u64, k4: u64)
    requires
        0 <= c < 64,
        k1 < 64 && k2 < 64 && k3 < 64 && k4 < 64,
        ((1u64 << k1) | (1u64 << k2) | (1u64 << k3) | (1u64 << k4)) & pos_bit(c) != 0,
    ensures
        c == k1 || c == k2 || c == k3 || c == k4,
{
    let cc = c as u64;
    assert(cc == k1 || cc == k2 || cc == k3 || cc == k4) by (bit_vector)
        requires
            ((1u64 << k1) | (1u64 << k2) | (1u64 << k3) | (1u64 << k4)) & (1u64 << cc) != 0 && cc
                < 64 && k1 < 64 && k2 < 64 && k3 < 64 && k4 < 64,
    ;
}

/// A cell of a space diagonal lies on seven lines: three axis lines,
/// one diagonal of each plane family, and its space diagonal.
#[verifier::rlimit(100)]
pub proof fn lemma_diagonal_cell_coverage(c: int)
    requires
        0 <= c < 64,
        on_space_diagonal(c),
    ensures
        lines_through(c) >= 7,
{
    let (x, y, z) = lemma_cell_decompose(c);
    lemma_pos_bit_nonzero(c);
    lemma_axis_line_at(y, z);
    lemma_axis_line_at(x, z);
    lemma_axis_line_at(x, y);
    lemma_diag_line_at(z);
    lemma_diag_line_at(y);
    lemma_diag_line_at(x);
    let i1 = 4 * y + z;
    let i2 = 16 + 4 * x + z;
    let i3 = 32 + 4 * x + y;
    lemma_or4_member(cell_bit(0, y, z), cell_bit(1, y, z), cell_bit(2, y, z), cell_bit(3, y, z),
        pos_bit(c));
    lemma_or4_member(cell_bit(x, 0, z), cell_bit(x, 1, z), cell_bit(x, 2, z), cell_bit(x, 3, z),
        pos_bit(c));
    lemma_or4_member(cell_bit(x, y, 0), cell_bit(x, y, 1), cell_bit(x, y, 2), cell_bit(x, y, 3),
        pos_bit(c));

    // Which space diagonal holds the cell fixes its coordinate pattern.
    let t = pos_bit(c);
    let m1 = mask_at(72);
    let m2 = mask_at(73);
    let m3 = mask_at(74);
    let m4 = mask_at(75);
    assert(m1 & t != 0 || m2 & t != 0 || m3 & t != 0 || m4 & t != 0) by (bit_vector)
        requires (m1 | m2 | m3 | m4) & t != 0;
    if m1 & t != 0 {
        lemma_bit_in_four(c, cell_index(0, 0, 0) as u64, cell_index(1, 1, 1) as u64,
            cell_index(2, 2, 2) as u64, cell_index(3, 3, 3) as u64);
    } else if m2 & t != 0 {
        lemma_bit_in_four(c, cell_index(0, 0, 3) as u64, cell_index(1, 1, 2) as u64,
            cell_index(2, 2, 1) as u64, cell_index(3, 3, 0) as u64);
    } else if m3 & t != 0 {
        lemma_bit_in_four(c, cell_index(0, 3, 0) as u64, cell_index(1, 2, 1) as u64,
            cell_index(2, 1, 2) as u64, cell_index(3, 0, 3) as u64);
    } else {
        lemma_bit_in_four(c, cell_index(3, 0, 0) as u64, cell_index(2, 1, 1) as u64,
            cell_index(1, 2, 2) as u64, cell_index(0, 3, 3) as u64);
    }
    assert((y == x || y == 3 - x) && (z == x || z == 3 - x) && (z == y || z == 3 - y));
    let i7: int = if m1 & t != 0 {
        72
    } else if m2 & t != 0 {
        73
    } else if m3 & t != 0 {
        74
    } else {
        75
    };

    let i4 = if y == x {
        lemma_or4_member(cell_bit(0, 0, z), cell_bit(1, 1, z), cell_bit(2, 2, z),
            cell_bit(3, 3, z), pos_bit(c));
        48 + 2 * z
    } else {
        lemma_or4_member(cell_bit(0, 3, z), cell_bit(1, 2, z), cell_bit(2, 1, z),
            cell_bit(3, 0, z), pos_bit(c));
        48 + 2 * z + 1
    };
    let i5 = if z == x {
        lemma_or4_member(cell_bit(0, y, 0), cell_bit(1, y, 1), cell_bit(2, y, 2),
            cell_bit(3, y, 3), pos_bit(c));
        56 + 2 * y
    } else {
        lemma_or4_member(cell_bit(0, y, 3), cell_bit(1, y, 2), cell_bit(2, y, 1),
            cell_bit(3, y, 0), pos_bit(c));
        56 + 2 * y + 1
    };
    let i6 = if z == y {
        lemma_or4_member(cell_bit(x, 0, 0), cell_bit(x, 1, 1), cell_bit(x, 2, 2),
            cell_bit(x, 3, 3), pos_bit(c));
        64 + 2 * x
    } else {
        lemma_or4_member(cell_bit(x, 0, 3), cell_bit(x, 1, 2), cell_bit(x, 2, 1),
            cell_bit(x, 3, 0), pos_bit(c));
        64 + 2 * x + 1
    };
    lemma_seven_members(c, i1, i2, i3, i4, i5, i6, i7);
}

} // verus!
