use hmg::bitboard::Bitboard;
use hmg::geometry::{diagonal_block_mask, generate_diagonal_moves, generate_orthogonal_moves,
    generate_retractor_captures, generate_stradler_captures, orthogonal_block_mask};
use hmg::tables::{diag_magic, magic_index, orth_magic, stradler_magic, MagicTable, TableKind};

#[test]
fn throwaway_count_test() {
    let orth = MagicTable::new(TableKind::Orthogonal);
    let diag = MagicTable::new(TableKind::Diagonal);
    for i in 0..64 {
        assert_eq!(orth.throwaway(i) + orthogonal_block_mask(i).0.count_ones() as u8, 64);
        assert_eq!(diag.throwaway(i) + diagonal_block_mask(i).0.count_ones() as u8, 64);
    }
}

#[test]
fn orth_lookup_test() {
    let table = MagicTable::new(TableKind::Orthogonal);
    for square in 0..64 {
        let square_magic: u64 = orth_magic(square);
        let max_blockers = generate_orthogonal_moves(square, Bitboard(0));

        // blocker_subset represents the board
        let mut blocker_subset: Bitboard = Bitboard(0);
        blocker_subset.0 = blocker_subset.0.wrapping_sub(max_blockers.0) & max_blockers.0;

        while !blocker_subset.is_empty() {
            let relevant_blockers = Bitboard(blocker_subset.0 & orthogonal_block_mask(square).0);
            let index = magic_index(relevant_blockers, square_magic, table.throwaway(square));

            let magic_result = table.entry(index + table.offset(square));
            assert_eq!(magic_result, generate_orthogonal_moves(square, blocker_subset));

            blocker_subset.0 = blocker_subset.0.wrapping_sub(max_blockers.0) & max_blockers.0;
        }
    }
}

#[test]
fn diag_lookup_test() {
    let table = MagicTable::new(TableKind::Diagonal);
    for square in 0..64 {
        let square_magic = diag_magic(square);
        let max_blockers = generate_diagonal_moves(square, Bitboard(0));
        let mut blocker_subset = Bitboard(0);

        blocker_subset.0 = blocker_subset.0.wrapping_sub(max_blockers.0) & max_blockers.0;

        while !blocker_subset.is_empty() {
            let relevant_blockers = Bitboard(blocker_subset.0 & diagonal_block_mask(square).0);
            let index = magic_index(relevant_blockers, square_magic, table.throwaway(square));
            let magic_result = table.entry(index + table.offset(square));

            assert_eq!(magic_result, generate_diagonal_moves(square, blocker_subset));

            blocker_subset.0 = blocker_subset.0.wrapping_sub(max_blockers.0) & max_blockers.0;
        }
    }
}

#[test]
fn stradler_capture_test() {
    let table = MagicTable::new(TableKind::Stradler);
    for square in 0..64 {
        let square_magic = stradler_magic(square);
        let potential_buddies = table.mask(square);
        let mut buddy_subset = Bitboard(0);

        buddy_subset.0 = buddy_subset.0.wrapping_sub(potential_buddies.0) & potential_buddies.0;

        while !buddy_subset.is_empty() {
            let index = magic_index(buddy_subset, square_magic, table.throwaway(square));
            let magic_result = table.entry(index + table.offset(square));

            assert_eq!(magic_result, generate_stradler_captures(square, buddy_subset));

            buddy_subset.0 = buddy_subset.0.wrapping_sub(potential_buddies.0) & potential_buddies.0;
        }
    }
}

#[test]
fn table_sizes() {
    assert_eq!(MagicTable::new(TableKind::Orthogonal).len(), 102400);
    assert_eq!(MagicTable::new(TableKind::Diagonal).len(), 5248);
    assert_eq!(MagicTable::new(TableKind::Stradler).len(), 576);
    assert_eq!(MagicTable::new(TableKind::Retractor).len(), 4 * 8 + 24 * 32 + 36 * 256);
}

#[test]
fn relevant_blocker_counts() {
    // a rook mask has 10 squares in the centre and 12 in a corner
    assert_eq!(orthogonal_block_mask(27).0.count_ones(), 10);
    assert_eq!(orthogonal_block_mask(0).0.count_ones(), 12);
    assert_eq!(orthogonal_block_mask(0).0, 0x0001_0101_0101_017E);
    assert_eq!(diagonal_block_mask(0).0, 0x0040_2010_0804_0200);
}

#[test]
fn lookup_agrees_with_reference() {
    let orth = MagicTable::new(TableKind::Orthogonal);
    let retr = MagicTable::new(TableKind::Retractor);
    let boards = [0u64, 0xFFFF_0000_0000_FFFF, 0x0000_0010_1000_0000, 0x8142_2418_1824_4281];
    for &b in boards.iter() {
        for s in 0..64 {
            let relevant = Bitboard(b & orth.mask(s).0);
            assert_eq!(orth.lookup(s, Bitboard(b)), generate_orthogonal_moves(s, relevant));
            assert_eq!(orth.lookup(s, Bitboard(b)), generate_orthogonal_moves(s, Bitboard(b)));
            let near = Bitboard(b & retr.mask(s).0);
            assert_eq!(retr.lookup(s, Bitboard(b)), generate_retractor_captures(s, near));
        }
    }
}

#[test]
fn magic_index_value() {
    assert_eq!(magic_index(Bitboard(1), 0x8000_0000_0000_0000, 63), 1);
    assert_eq!(magic_index(Bitboard(3), 0x4000_0000_0000_0000, 62), 3);
    assert_eq!(magic_index(Bitboard(2), 0xC000_0000_0000_0001, 60), 8);
}

#[test]
fn throwaway_plus_mask_is_sixty_four_for_every_table() {
    for kind in [TableKind::Orthogonal, TableKind::Diagonal, TableKind::Stradler, TableKind::Retractor] {
        let table = MagicTable::new(kind);
        for s in 0..64 {
            assert_eq!(table.throwaway(s) as u32 + table.mask(s).0.count_ones(), 64);
        }
    }
}

#[test]
fn retractor_lookup_matches_reference() {
    // the retractor multipliers are not collision-free on the neighbour
    // masks; the lookup still answers every subset exactly
    let table = MagicTable::new(TableKind::Retractor);
    for square in 0..64 {
        let neighbours = table.mask(square);
        let mut subset = Bitboard(0);
        subset.0 = subset.0.wrapping_sub(neighbours.0) & neighbours.0;
        while !subset.is_empty() {
            assert_eq!(table.lookup(square, subset), generate_retractor_captures(square, subset));
            subset.0 = subset.0.wrapping_sub(neighbours.0) & neighbours.0;
        }
    }
}
