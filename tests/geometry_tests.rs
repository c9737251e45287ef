use hmg::bitboard::Bitboard;
use hmg::geometry::{death_squares, generate_diagonal_moves, generate_orthogonal_moves,
    generate_retractor_captures, generate_stradler_captures, king_mask, buddy_mask, num_to_edge,
    retractor_captured_square, springer_captured_square, springer_landing_square, step_square};

#[test]
fn orthogonal_slides_stop_on_and_include_blocker() {
    // rook on a1, blocker on a3: a2, a3 and the first rank
    let r = generate_orthogonal_moves(0, Bitboard(1 << 16));
    assert_eq!(r.0, (1 << 8) | (1 << 16) | 0xFE);
    assert_eq!(generate_orthogonal_moves(0, Bitboard(0)).0, 0x0101_0101_0101_01FE);
}

#[test]
fn diagonal_slides() {
    assert_eq!(generate_diagonal_moves(0, Bitboard(0)).0, 0x8040_2010_0804_0200);
    // from d4 with a blocker on f6
    let r = generate_diagonal_moves(27, Bitboard(1 << 45));
    assert!(r.0 & (1 << 45) != 0);
    assert!(r.0 & (1 << 54) == 0);
}

#[test]
fn king_and_buddy_masks() {
    assert_eq!(king_mask(0).0, 0x302);
    assert_eq!(king_mask(27).0.count_ones(), 8);
    assert_eq!(buddy_mask(0).0, (1 << 16) | (1 << 2));
    assert_eq!(buddy_mask(27).0.count_ones(), 4);
}

#[test]
fn stradler_custodian_squares() {
    // stradler arriving on e4 with a buddy on g4 captures on f4
    assert_eq!(generate_stradler_captures(28, Bitboard(1 << 30)).0, 1 << 29);
    assert_eq!(generate_stradler_captures(28, Bitboard(0)).0, 0);
}

#[test]
fn retractor_withdrawals() {
    // retractor on d4 with a piece on d5 captures by stepping to d3
    assert_eq!(generate_retractor_captures(27, Bitboard(1 << 35)).0, 1 << 19);
    assert_eq!(retractor_captured_square(27, 19), Some(35));
    assert_eq!(retractor_captured_square(27, 11), None);
    assert_eq!(retractor_captured_square(0, 1), None);
}

#[test]
fn springer_leaps() {
    assert_eq!(springer_landing_square(0, 16), Some(24));
    assert_eq!(springer_landing_square(0, 56), None);
    assert_eq!(springer_landing_square(0, 17), None);
    assert_eq!(springer_landing_square(0, 18), Some(27));
    assert_eq!(springer_captured_square(0, 24), Some(16));
    assert_eq!(springer_captured_square(0, 9), None);
    assert_eq!(springer_landing_square(27, 36), Some(45));
}

#[test]
fn death_square_corners() {
    // coordinator on a5, king on e1: a1 and e5
    assert_eq!(death_squares(32, 4), (Some(0), Some(36)));
    assert_eq!(death_squares(32, 0), (None, None));
}

#[test]
fn edge_distances_and_steps() {
    assert_eq!(num_to_edge(0, 0), 7);
    assert_eq!(num_to_edge(0, 3), 0);
    assert_eq!(num_to_edge(27, 4), 4);
    assert_eq!(step_square(27, 5, 2), Some(13));
    assert_eq!(step_square(7, 1, 1), None);
}
