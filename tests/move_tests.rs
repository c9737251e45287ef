use hmg::moves::{Move, MoveList};
use hmg::types::Piece;

const G1: usize = 6;
const E2: usize = 12;
const E4: usize = 28;
const C5: usize = 34;

#[test]
fn simple_move_test() {
    // stradler moves from e2->e4 and captures stradler on f4
    let m: u32 = (E2 as u32) | ((E4 as u32) << 6)
        | ((Piece::Stradler.to_code()) << 12) | ((Piece::Stradler.to_code()) << 18);

    let test_move = Move(m);

    assert_eq!(test_move.get_from(), E2);
    assert_eq!(test_move.get_to(), E4);

    assert_eq!(test_move.get_piece(), Piece::Stradler);

    assert_eq!(test_move.get_c2_piece(), Piece::Stradler);
}

#[test]
fn move_construction_test() {
    let mut m = Move(0);

    m.set_from(G1);
    m.set_to(C5);

    m.set_piece(Piece::Springer);
    m.set_c1_piece(Piece::Stradler);

    assert_eq!(m.get_from(), G1);
    assert_eq!(m.get_to(), C5);

    assert_eq!(m.get_piece(), Piece::Springer);
    assert_eq!(m.get_c1_piece(), Piece::Stradler);
}

#[test]
fn move_word_layout() {
    let m = Move::build(63, 0, Piece::King, Piece::Retractor, Piece::Springer, Piece::Coordinator,
        Piece::Immobilizer, true, false, true, false);
    assert_eq!(m.0 & 0x3f, 63);
    assert_eq!((m.0 >> 6) & 0x3f, 0);
    assert_eq!((m.0 >> 12) & 7, 7);
    assert_eq!((m.0 >> 15) & 7, 5);
    assert_eq!((m.0 >> 18) & 7, 3);
    assert_eq!((m.0 >> 21) & 7, 2);
    assert_eq!((m.0 >> 24) & 7, 6);
    assert_eq!((m.0 >> 27) & 0xf, 0b0101);
    assert!(m.get_c5_bit() && !m.get_c6_bit() && m.get_c7_bit() && !m.get_c8_bit());
    assert_eq!(m.get_c3_piece(), Piece::Coordinator);
    assert_eq!(m.get_c4_piece(), Piece::Immobilizer);
}

#[test]
fn capture_flag_of_moves() {
    let quiet = Move::build(12, 28, Piece::Stradler, Piece::Empty, Piece::Empty, Piece::Empty, Piece::Empty,
        false, false, false, false);
    assert!(!quiet.is_capture());
    assert_eq!(quiet.get_capture_bits(), 0);
    let flagged = Move::build(12, 28, Piece::Coordinator, Piece::Empty, Piece::Empty, Piece::Empty, Piece::Empty,
        false, false, false, true);
    assert!(flagged.is_capture());
    assert_eq!(flagged.get_capture_bits(), 1 << 15);
    let mut slot = Move::empty();
    slot.set_c4_piece(Piece::Chameleon);
    assert!(slot.is_capture());
}

#[test]
fn move_list_push_and_get() {
    let mut list = MoveList::new();
    assert_eq!(list.len(), 0);
    assert!(list.get(0).is_none());
    list.add_move(Move(5));
    list.add_move(Move(9));
    assert_eq!(list.len(), 2);
    assert_eq!(list.get(1), Some(Move(9)));
    assert!(list.get(2).is_none());
    let words: Vec<u32> = list.iter().iter().map(|m| m.0).collect();
    assert_eq!(words, vec![5, 9]);
}
