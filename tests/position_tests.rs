use hmg::bitboard::Bitboard;
use hmg::moves::Move;
use hmg::position::{Position, ReadFenError};
use hmg::types::{Color, Piece};

const START_POS_BITBOARDS: [Bitboard; 16] = [
    Bitboard(0xFFFF), Bitboard(0xFF00), Bitboard(0x1), Bitboard(0x42),
    Bitboard(0x24), Bitboard(0x8), Bitboard(0x80), Bitboard(0x10),
    Bitboard(0xffff000000000000), Bitboard(0xff000000000000), Bitboard(0x8000000000000000), Bitboard(0x4200000000000000),
    Bitboard(0x2400000000000000), Bitboard(0x800000000000000), Bitboard(0x100000000000000), Bitboard(0x1000000000000000),
];

#[test]
fn start_position_test() {
    let start_position = Position::from_start_position();

    assert_eq!(start_position.to_play(), Color::White);
    assert_eq!(start_position.halfmoves(), 0);
    assert_eq!(start_position.fullmoves(), 1);

    for i in 0..16 {
        assert_eq!(start_position.bitboard(i), START_POS_BITBOARDS[i]);
    }
}

#[test]
fn bad_fen_test() {
    let position: Result<Position, ReadFenError> =
        Position::from_FEN("rnbqkbnr/pppppppp/8/8/8/8/PPPPPPPP/RNBQKBNR w KQkq - 0 1");

    assert!(position.is_err());
}

#[test]
fn fen_fields_are_read() {
    let p = Position::from_FEN("4k3/8/8/8/5p2/8/4P3/4K3 b 17 -").unwrap();
    assert_eq!(p.to_play(), Color::Black);
    assert_eq!(p.halfmoves(), 17);
    assert_eq!(p.fullmoves(), 0);
    assert_eq!(p.piece_on(12), Piece::Stradler);
    assert_eq!(p.piece_on(29), Piece::Stradler);
    assert_eq!(p.piece_on(4), Piece::King);
    assert_eq!(p.piece_on(60), Piece::King);
    assert_eq!(p.bitboard(0).0, (1 << 12) | (1 << 4));
    assert_eq!(p.bitboard(8).0, (1 << 29) | (1 << 60));
    let q = Position::from_FEN("8/8/8/8/8/8/8/8 w +3 4294967295").unwrap();
    assert_eq!(q.halfmoves(), 3);
    assert_eq!(q.fullmoves(), 4294967295);
}

#[test]
fn malformed_fen_is_refused() {
    for fen in [
        "",
        "8/8/8/8/8/8/8/8",
        "8/8/8/8/8/8/8/8 w 0",
        "8/8/8/8/8/8/8/8 x 0 1",
        "8/8/8/8/8/8/8/8 w 0 1 extra",
        "8/8/8/8/8/8/8 w 0 1",
        "8/8/8/8/8/8/8/8/8 w 0 1",
        "9/8/8/8/8/8/8/8 w 0 1",
        "7/8/8/8/8/8/8/8 w 0 1",
        "ppppppppp/8/8/8/8/8/8/8 w 0 1",
        "8/8/8/8/8/8/8/7x w 0 1",
        "8/8/8/8/8/8/8/8 w -1 1",
        "8/8/8/8/8/8/8/8 w 0 4294967296",
        "8/8/8/8/8/8/8/8  w 0 1",
        "8/8/8/8/8/8/8/8 w + 1",
    ] {
        assert_eq!(Position::from_FEN(fen).err(), Some(ReadFenError {}), "{}", fen);
    }
}

fn snapshot(p: &Position) -> (Vec<u64>, Vec<Piece>, Color, u32) {
    let bbs = (0..16).map(|i| p.bitboard(i).0).collect();
    let cells = (0..64).map(|s| p.piece_on(s)).collect();
    (bbs, cells, p.to_play(), p.halfmoves())
}

fn assert_reversible(fen: &str) {
    let mut p = Position::from_FEN(fen).unwrap();
    let before = snapshot(&p);
    let moves = p.generate_moves();
    assert!(moves.len() > 0);
    for m in moves.iter() {
        p.make_move(*m);
        assert_ne!(p.to_play(), before.2);
        p.unmake_move(*m);
        assert_eq!(snapshot(&p), before);
    }
}

#[test]
fn make_unmake_restores_every_position() {
    assert_reversible("unbqkbnr/pppppppp/8/8/8/8/PPPPPPPP/RNBQKBNU w 0 1");
    assert_reversible("4k3/8/8/8/5pP1/8/4P3/4K3 w 0 1");
    assert_reversible("4k3/8/8/p7/8/8/8/N3K3 w 0 1");
    assert_reversible("4k3/8/8/3p4/3Q4/8/8/4K3 w 0 1");
    assert_reversible("4k3/8/8/8/4p3/8/8/R3K3 w 0 1");
    assert_reversible("u3k3/pppppppp/8/8/2rbB3/8/PPPPPPPP/RNBQKBNU b 5 9");
}

#[test]
fn start_position_has_thirty_two_moves() {
    let p = Position::from_start_position();
    let moves = p.generate_moves();
    assert_eq!(moves.len(), 32);
    for m in moves.iter() {
        assert_eq!(m.get_piece(), Piece::Stradler);
        assert!(!m.is_capture());
    }
}

#[test]
fn start_moves_are_legal() {
    let mut p = Position::from_start_position();
    let moves = p.generate_moves();
    for m in moves.iter() {
        assert!(p.is_move_legal(*m));
    }
    assert!(!p.is_attacking_king());
    assert!(!p.is_checkmate());
}

fn find(p: &Position, from: usize, to: usize) -> Option<Move> {
    let moves = p.generate_moves();
    moves.iter().iter().copied().find(|m| m.get_from() == from && m.get_to() == to)
}

#[test]
fn stradler_custodian_capture() {
    // e2-e4 with no buddy on g4: no capture
    let p = Position::from_FEN("4k3/8/8/8/5p2/8/4P3/4K3 w 0 1").unwrap();
    let m = find(&p, 12, 28).unwrap();
    assert_eq!(m.get_c2_piece(), Piece::Empty);
    assert!(!m.is_capture());
    // with a stradler on g4 the stradler on f4 is taken (east slot)
    let mut p = Position::from_FEN("4k3/8/8/8/5pP1/8/4P3/4K3 w 0 1").unwrap();
    let m = find(&p, 12, 28).unwrap();
    assert_eq!(m.get_c2_piece(), Piece::Stradler);
    assert_eq!(m.get_c1_piece(), Piece::Empty);
    p.make_move(m);
    assert_eq!(p.piece_on(29), Piece::Empty);
    assert_eq!(p.bitboard(9).0, 0);
    p.unmake_move(m);
    assert_eq!(p.piece_on(29), Piece::Stradler);
}

#[test]
fn king_displaces_stradler() {
    let p = Position::from_FEN("8/8/8/8/8/8/4p3/4K3 w 0 1").unwrap();
    let m = find(&p, 4, 12).unwrap();
    assert_eq!(m.get_c1_piece(), Piece::Stradler);
    assert!(m.is_capture());
}

#[test]
fn springer_leaps_over_victim() {
    let mut p = Position::from_FEN("4k3/8/8/8/8/p7/8/N3K3 w 0 1").unwrap();
    let m = find(&p, 0, 24).unwrap();
    assert_eq!(m.get_c1_piece(), Piece::Stradler);
    p.make_move(m);
    assert_eq!(p.piece_on(16), Piece::Empty);
    assert_eq!(p.piece_on(24), Piece::Springer);
    assert_eq!(p.to_play(), Color::Black);
    assert_eq!(p.halfmoves(), 1);
    p.unmake_move(m);
    assert_eq!(p.piece_on(16), Piece::Stradler);
    assert_eq!(p.piece_on(0), Piece::Springer);
}

#[test]
fn retractor_withdraws() {
    let p = Position::from_FEN("4k3/8/8/3p4/3Q4/8/8/4K3 w 0 1").unwrap();
    let m = find(&p, 27, 19).unwrap();
    assert_eq!(m.get_c1_piece(), Piece::Stradler);
    let quiet = find(&p, 27, 11).unwrap();
    assert!(!quiet.is_capture());
}

#[test]
fn coordinator_death_squares() {
    // coordinator a1 to a5 with king e1: corner e5 holds an enemy stradler
    let p = Position::from_FEN("4k3/8/8/4p3/8/8/8/R3K3 w 0 1").unwrap();
    let m = find(&p, 0, 32).unwrap();
    assert_eq!(m.get_c2_piece(), Piece::Stradler);
    assert_eq!(m.get_c1_piece(), Piece::Empty);
}

#[test]
fn immobilized_pieces_do_not_move() {
    // the white stradler on b2 stands next to the black immobilizer on c1
    let p = Position::from_FEN("4k3/8/8/8/8/8/1P6/2u1K3 w 0 1").unwrap();
    let moves = p.generate_moves();
    assert!(moves.iter().iter().all(|m| m.get_from() != 9));
}

#[test]
fn attacked_king_is_seen() {
    // White king e1 next to the black king e2: white can take it
    let mut p = Position::from_FEN("8/8/8/8/8/8/4k3/4K3 w 0 1").unwrap();
    assert!(p.is_attacking_king());
    let before = snapshot(&p);
    let _ = p.is_checkmate();
    assert_eq!(snapshot(&p), before);
}

#[test]
fn start_position_matches_its_fen() {
    let built = Position::from_start_position();
    let read = Position::from_FEN("unbqkbnr/pppppppp/8/8/8/8/PPPPPPPP/RNBQKBNU w 0 1").unwrap();
    assert_eq!(snapshot(&built), snapshot(&read));
    assert_eq!(built.fullmoves(), read.fullmoves());
}

#[test]
fn king_is_a_custodian_buddy() {
    let p = Position::from_FEN("4k3/8/8/8/5pK1/8/4P3/8 w 0 1").unwrap();
    let m = find(&p, 12, 28).unwrap();
    assert_eq!(m.get_c2_piece(), Piece::Stradler);
}

#[test]
fn distant_kings_are_not_attacked() {
    let mut p = Position::from_FEN("4k3/8/8/8/8/8/8/4K3 w 0 1").unwrap();
    assert!(!p.is_attacking_king());
}

#[test]
fn moves_are_not_repeated() {
    let p = Position::from_start_position();
    let moves = p.generate_moves();
    let words: Vec<u32> = moves.iter().iter().map(|m| m.0).collect();
    for i in 0..words.len() {
        for j in i + 1..words.len() {
            assert_ne!(words[i], words[j]);
        }
    }
}
