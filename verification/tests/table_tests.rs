use qubic_engine::{bit_at, generate_win_masks};

#[test]
fn line_table_has_76_entries_of_four_cells() {
    let masks = generate_win_masks();
    assert_eq!(masks.len(), 76);
    for &m in &masks {
        assert_eq!(m.count_ones(), 4);
    }
}

#[test]
fn line_table_is_duplicate_free() {
    let masks = generate_win_masks();
    for i in 0..masks.len() {
        for j in 0..i {
            assert_ne!(masks[i], masks[j], "lines {} and {} coincide", i, j);
        }
    }
}

#[test]
fn line_table_category_counts() {
    // 16 + 16 + 16 axis lines, 8 + 8 + 8 plane diagonals, 4 space
    // diagonals, in generation order.
    let masks = generate_win_masks();
    // First X-axis line: cells (0..4, 0, 0).
    assert_eq!(masks[0], 0xF);
    // First Y-axis line: cells (0, 0..4, 0).
    assert_eq!(masks[16], 0x1111);
    // First Z-axis line: cells (0, 0, 0..4).
    assert_eq!(masks[32], 0x0001_0001_0001_0001);
    // Main space diagonal: cells (d, d, d).
    let space_main = bit_at(0, 0, 0) | bit_at(1, 1, 1) | bit_at(2, 2, 2) | bit_at(3, 3, 3);
    assert_eq!(masks[72], space_main);
}

#[test]
fn every_cell_lies_on_four_or_seven_lines() {
    let masks = generate_win_masks();
    let space: u64 = masks[72] | masks[73] | masks[74] | masks[75];
    for c in 0..64u64 {
        let bit = 1u64 << c;
        let count = masks.iter().filter(|&&m| m & bit != 0).count();
        if space & bit != 0 {
            assert_eq!(count, 7, "cell {} on a space diagonal", c);
        } else {
            assert_eq!(count, 4, "cell {}", c);
        }
        assert!(count >= 4);
    }
}
