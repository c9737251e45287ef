//! A game position: sixteen bitboards, a mailbox and the side to move.
use vstd::prelude::*;
use crate::bitboard::{Bitboard, bit, squares, lsb, lemma_and_not, lemma_or, lemma_single, lemma_squares_ext, lemma_empty_full};
use crate::types::{Color, Piece, slot, slot_index};
use crate::fen::{BoardRead, read_board, read_byte, board_ok, board_of, letter_to_piece, lemma_read_stays_bad, split_spaces, fen_ok, split_fields, parse_number, number_value, fullmove_value};
use crate::geometry::{sq, lemma_sq, step, step_ok, death, springer_victim, retractor_victim, same_square,
    step_square, death_squares, springer_captured_square, retractor_captured_square};
use crate::moves::Move;
use vstd::string::StringSliceAdditionalSpecFns;

verus! {

/// The one error of position input: a FEN string that is not well formed.
#[derive(Debug, PartialEq, Eq, Structural)]
pub struct ReadFenError {}

/// A position. Slot `tag(c)` of `bitboards` holds the squares of colour `c`,
/// slot `tag(c) + code(p)` those of its pieces of class `p`; `board` holds the
/// class on each square.
#[derive(Clone, Debug)]
pub struct Position {
    board: Vec<Piece>,
    bitboards: Vec<Bitboard>,
    zobrist_hash: u64,
    to_play: Color,
    halfmoves: u32,
    fullmoves: u32,
}

/// The class on square `s` in the starting position: from a1 the first rank
/// `R N B Q K B N U`, stradlers on the second and seventh ranks, and from a8
/// the eighth rank `u n b q k b n r`.
pub open spec fn start_piece(s: int) -> Piece {
    if s == 0 || s == 63 { Piece::Coordinator }
    else if s == 1 || s == 6 || s == 57 || s == 62 { Piece::Springer }
    else if s == 2 || s == 5 || s == 58 || s == 61 { Piece::Chameleon }
    else if s == 3 || s == 59 { Piece::Retractor }
    else if s == 4 || s == 60 { Piece::King }
    else if s == 7 || s == 56 { Piece::Immobilizer }
    else if (8 <= s < 16) || (48 <= s < 56) { Piece::Stradler }
    else { Piece::Empty }
}

fn start_piece_at(s: usize) -> (r: Piece)
    ensures
        r == start_piece(s as int),
{
    if s == 0 || s == 63 { Piece::Coordinator }
    else if s == 1 || s == 6 || s == 57 || s == 62 { Piece::Springer }
    else if s == 2 || s == 5 || s == 58 || s == 61 { Piece::Chameleon }
    else if s == 3 || s == 59 { Piece::Retractor }
    else if s == 4 || s == 60 { Piece::King }
    else if s == 7 || s == 56 { Piece::Immobilizer }
    else if (8 <= s && s < 16) || (48 <= s && s < 56) { Piece::Stradler }
    else { Piece::Empty }
}

/// Square of the lowest set bit of `w`, if any.
pub open spec fn first_square(w: u64) -> Option<int> {
    if w == 0 { None } else { Some(lsb(w)) }
}

/// Square of the second-lowest set bit of `w`, if any.
pub open spec fn second_square(w: u64) -> Option<int> {
    if w == 0 { None } else { first_square(w & ((w - 1) as u64)) }
}

/// Death square `i` of a piece arriving on `to` with a partner that may be absent.
pub open spec fn death_with(to: int, partner: Option<int>, i: int) -> Option<int> {
    match partner {
        Some(k) => death(to, k, i),
        None => None,
    }
}

/// Custodian square in direction `d` of a stradler arriving on `to` from
/// `from`: one step away, when the square two steps away exists and is not
/// the square the stradler left.
pub open spec fn custodian_square(to: int, from: int, d: int) -> Option<int> {
    if step_ok(to, d, 2) && step(to, d, 2) != from { Some(step(to, d, 1)) } else { None }
}

pub open spec fn flag_piece(b: bool, p: Piece) -> Piece {
    if b { p } else { Piece::Empty }
}

/// One capture a move makes: the square and the class taken there
/// (`Empty`: the slot captures nothing).
pub type Capture = (Option<int>, Piece);

/// Executable captures `r` stand for the captures `cs` of the model.
pub open spec fn same_captures(r: Seq<(Option<usize>, Piece)>, cs: Seq<Capture>) -> bool {
    &&& r.len() == cs.len()
    &&& forall|i: int| 0 <= i < r.len() ==> same_square(#[trigger] r[i].0, cs[i].0) && r[i].1 == cs[i].1
    &&& forall|i: int| 0 <= i < r.len() && (#[trigger] r[i].0).is_some() ==> r[i].0.unwrap() < 64
}

pub(crate) fn first_of(w: u64) -> (r: Option<usize>)
    ensures
        same_square(r, first_square(w)),
        r.is_some() ==> r.unwrap() < 64,
{
    if w == 0 {
        None
    } else {
        Some(Bitboard(w).bitscanforward())
    }
}

pub(crate) fn second_of(w: u64) -> (r: Option<usize>)
    ensures
        same_square(r, second_square(w)),
        r.is_some() ==> r.unwrap() < 64,
{
    if w == 0 {
        None
    } else {
        first_of(w & (w - 1))
    }
}

pub(crate) fn death_of(to: usize, partner: Option<usize>, Ghost(p): Ghost<Option<int>>, i: usize) -> (r: Option<usize>)
    requires
        to < 64,
        partner.is_some() ==> partner.unwrap() < 64,
        same_square(partner, p),
        i < 2,
    ensures
        same_square(r, death_with(to as int, p, i as int)),
        r.is_some() ==> r.unwrap() < 64,
{
    match partner {
        Some(k) => {
            let d = death_squares(to, k);
            if i == 0 { d.0 } else { d.1 }
        },
        None => None,
    }
}

/// Appends the four captures that chameleons flag for a move to `to`: each
/// chameleon's two death squares, taking a piece of class `p`.
fn push_flags(r: &mut Vec<(Option<usize>, Piece)>, to: usize, c0: Option<usize>, c1: Option<usize>,
    Ghost(q0): Ghost<Option<int>>, Ghost(q1): Ghost<Option<int>>, m: Move, p: Piece)
    requires
        to < 64,
        c0.is_some() ==> c0.unwrap() < 64,
        c1.is_some() ==> c1.unwrap() < 64,
        same_square(c0, q0),
        same_square(c1, q1),
    ensures
        final(r)@.len() == old(r)@.len() + 4,
        forall|i: int| 0 <= i < old(r)@.len() ==> #[trigger] final(r)@[i] == old(r)@[i],
        same_square(final(r)@[old(r)@.len() as int].0, death_with(to as int, q0, 0)),
        final(r)@[old(r)@.len() as int].1 == flag_piece(m.c5(), p),
        same_square(final(r)@[old(r)@.len() as int + 1].0, death_with(to as int, q0, 1)),
        final(r)@[old(r)@.len() as int + 1].1 == flag_piece(m.c6(), p),
        same_square(final(r)@[old(r)@.len() as int + 2].0, death_with(to as int, q1, 0)),
        final(r)@[old(r)@.len() as int + 2].1 == flag_piece(m.c7(), p),
        same_square(final(r)@[old(r)@.len() as int + 3].0, death_with(to as int, q1, 1)),
        final(r)@[old(r)@.len() as int + 3].1 == flag_piece(m.c8(), p),
        forall|i: int| old(r)@.len() <= i < final(r)@.len() && (#[trigger] final(r)@[i].0).is_some() ==> final(r)@[i].0.unwrap() < 64,
{
    r.push((death_of(to, c0, Ghost(q0), 0), if m.get_c5_bit() { p } else { Piece::Empty }));
    r.push((death_of(to, c0, Ghost(q0), 1), if m.get_c6_bit() { p } else { Piece::Empty }));
    r.push((death_of(to, c1, Ghost(q1), 0), if m.get_c7_bit() { p } else { Piece::Empty }));
    r.push((death_of(to, c1, Ghost(q1), 1), if m.get_c8_bit() { p } else { Piece::Empty }));
}

pub(crate) fn custodian_of(to: usize, from: usize, d: usize) -> (r: Option<usize>)
    requires
        to < 64,
        d < 4,
    ensures
        same_square(r, custodian_square(to as int, from as int, d as int)),
        r.is_some() ==> r.unwrap() < 64,
{
    match step_square(to, d, 2) {
        Some(b) => {
            if b != from {
                step_square(to, d, 1)
            } else {
                None
            }
        },
        None => None,
    }
}

impl Position {
    /// Square of the mover's king, if any.
    pub open spec fn king_of(self, c: Color) -> Option<int> {
        first_square(self.bbw(slot(c, Piece::King)))
    }

    pub open spec fn coordinator_of(self, c: Color) -> Option<int> {
        first_square(self.bbw(slot(c, Piece::Coordinator)))
    }

    /// Square of chameleon `i` (0 or 1, lowest first) of colour `c`.
    pub open spec fn chameleon_of(self, c: Color, i: int) -> Option<int> {
        let w = self.bbw(slot(c, Piece::Chameleon));
        if i == 0 { first_square(w) } else { second_square(w) }
    }

    /// The captures of `m` played by `c`, slot by slot, as the geometry of its
    /// class places them: custodian squares for a stradler; death squares with
    /// the king, and with each of two chameleons for the king alone, for a
    /// coordinator; the square leapt over for a springer; the square withdrawn
    /// from for a retractor; the destination, the death squares with the
    /// coordinator, and those of the chameleons for the coordinator alone, for
    /// a king.
    pub open spec fn captures(self, m: Move, c: Color) -> Seq<Capture> {
        let to = m.to_sq();
        let from = m.from_sq();
        let c0 = self.chameleon_of(c, 0);
        let c1 = self.chameleon_of(c, 1);
        match m.piece() {
            Piece::Stradler => seq![
                (custodian_square(to, from, 0), m.c1()),
                (custodian_square(to, from, 1), m.c2()),
                (custodian_square(to, from, 2), m.c3()),
                (custodian_square(to, from, 3), m.c4()),
            ],
            Piece::Coordinator => seq![
                (death_with(to, self.king_of(c), 0), m.c1()),
                (death_with(to, self.king_of(c), 1), m.c2()),
                (death_with(to, c0, 0), flag_piece(m.c5(), Piece::King)),
                (death_with(to, c0, 1), flag_piece(m.c6(), Piece::King)),
                (death_with(to, c1, 0), flag_piece(m.c7(), Piece::King)),
                (death_with(to, c1, 1), flag_piece(m.c8(), Piece::King)),
            ],
            Piece::Springer => seq![(springer_victim(from, to), m.c1())],
            Piece::Retractor => seq![(retractor_victim(from, to), m.c1())],
            Piece::King => seq![
                (Some(to), m.c1()),
                (death_with(to, self.coordinator_of(c), 0), m.c2()),
                (death_with(to, self.coordinator_of(c), 1), m.c3()),
                (death_with(to, c0, 0), flag_piece(m.c5(), Piece::Coordinator)),
                (death_with(to, c0, 1), flag_piece(m.c6(), Piece::Coordinator)),
                (death_with(to, c1, 0), flag_piece(m.c7(), Piece::Coordinator)),
                (death_with(to, c1, 1), flag_piece(m.c8(), Piece::Coordinator)),
            ],
            _ => seq![],
        }
    }

    /// Square `s` is taken by one of the first `k` captures of `cs`.
    pub open spec fn taken_before(cs: Seq<Capture>, k: int, s: int) -> bool
        decreases k,
    {
        if k <= 0 {
            false
        } else {
            Position::taken_before(cs, k - 1, s) || (cs[k - 1].1 != Piece::Empty && cs[k - 1].0 == Some(s))
        }
    }

    /// Square `s` is taken by one of the captures `cs`.
    pub open spec fn taken(cs: Seq<Capture>, s: int) -> bool {
        Position::taken_before(cs, cs.len() as int, s)
    }

    /// `m` can be played by the side to move: its piece stands on its origin,
    /// its destination is empty (a king may also land on an enemy piece, which
    /// its first slot records), and every capture slot names the class of an
    /// enemy piece standing on the square the geometry gives.
    pub open spec fn can_make(self, m: Move) -> bool {
        self.playable(m) && self.half() < 0xFFFF_FFFF
    }

    /// Every move of `l` is playable.
    pub open spec fn all_playable(self, l: Seq<Move>) -> bool {
        forall|i: int| 0 <= i < l.len() ==> self.playable(#[trigger] l[i])
    }

    /// The geometric part of `can_make`.
    pub open spec fn playable(self, m: Move) -> bool {
        let c = self.side();
        let cs = self.captures(m, c);
        &&& self.wf()
        &&& self.holds(c, m.piece(), m.from_sq())
        &&& (self.piece_at(m.to_sq()) == Piece::Empty
            || (m.piece() == Piece::King && m.c1() == self.piece_at(m.to_sq()) && self.occupied_by(c.flip(), m.to_sq())))
        &&& forall|i: int| 0 <= i < cs.len() && (#[trigger] cs[i]).1 != Piece::Empty
            ==> cs[i].0.is_some() && self.holds(c.flip(), cs[i].1, cs[i].0.unwrap())
    }

    /// `q` is `self` after `m`: captured squares and the origin emptied, the
    /// piece on its destination, the other side to move, one more half-move.
    pub open spec fn made(self, m: Move, q: Position) -> bool {
        let c = self.side();
        let cs = self.captures(m, c);
        &&& q.wf()
        &&& q.side() == c.flip()
        &&& q.half() == self.half() + 1
        &&& q.full() == self.full()
        &&& q.hash() == self.hash()
        &&& q.holds(c, m.piece(), m.to_sq())
        &&& !q.occupied_by(c.flip(), m.to_sq())
        &&& forall|s: int| 0 <= s < 64 && s != m.to_sq() ==> #[trigger] q.piece_at(s) == (
            if s == m.from_sq() || Position::taken(cs, s) { Piece::Empty } else { self.piece_at(s) })
        &&& forall|s: int| 0 <= s < 64 && s != m.to_sq() && s != m.from_sq() && !Position::taken(cs, s)
            ==> #[trigger] q.occupied_by(Color::White, s) == self.occupied_by(Color::White, s)
        &&& forall|s: int| 0 <= s < 64 && s != m.to_sq() && s != m.from_sq() && !Position::taken(cs, s)
            ==> #[trigger] q.occupied_by(Color::Black, s) == self.occupied_by(Color::Black, s)
    }

    fn stradler_captures(&self, m: Move, c: Color) -> (r: Vec<(Option<usize>, Piece)>)
        requires
            self.bb_len() == 16,
            m.piece() == Piece::Stradler,
        ensures
            same_captures(r@, self.captures(m, c)),
    {
        let from = m.get_from();
        let to = m.get_to();
        let mut r: Vec<(Option<usize>, Piece)> = Vec::new();
        r.push((custodian_of(to, from, 0), m.get_c1_piece()));
        r.push((custodian_of(to, from, 1), m.get_c2_piece()));
        r.push((custodian_of(to, from, 2), m.get_c3_piece()));
        r.push((custodian_of(to, from, 3), m.get_c4_piece()));
        r
    }

    fn coordinator_captures(&self, m: Move, c: Color) -> (r: Vec<(Option<usize>, Piece)>)
        requires
            self.bb_len() == 16,
            m.piece() == Piece::Coordinator,
        ensures
            same_captures(r@, self.captures(m, c)),
    {
        let to = m.get_to();
        let cham = self.bitboards[slot_index(c, Piece::Chameleon)].0;
        let c0 = first_of(cham);
        let c1 = second_of(cham);
        let k = first_of(self.bitboards[slot_index(c, Piece::King)].0);
        let mut r: Vec<(Option<usize>, Piece)> = Vec::new();
        r.push((death_of(to, k, Ghost(self.king_of(c)), 0), m.get_c1_piece()));
        r.push((death_of(to, k, Ghost(self.king_of(c)), 1), m.get_c2_piece()));
        push_flags(&mut r, to, c0, c1, Ghost(self.chameleon_of(c, 0)), Ghost(self.chameleon_of(c, 1)), m, Piece::King);
        r
    }

    #[verifier::rlimit(40)]
    fn king_captures(&self, m: Move, c: Color) -> (r: Vec<(Option<usize>, Piece)>)
        requires
            self.bb_len() == 16,
            m.piece() == Piece::King,
        ensures
            same_captures(r@, self.captures(m, c)),
    {
        let to = m.get_to();
        let cham = self.bitboards[slot_index(c, Piece::Chameleon)].0;
        let c0 = first_of(cham);
        let c1 = second_of(cham);
        let co = first_of(self.bitboards[slot_index(c, Piece::Coordinator)].0);
        let mut r: Vec<(Option<usize>, Piece)> = Vec::new();
        r.push((Some(to), m.get_c1_piece()));
        r.push((death_of(to, co, Ghost(self.coordinator_of(c)), 0), m.get_c2_piece()));
        r.push((death_of(to, co, Ghost(self.coordinator_of(c)), 1), m.get_c3_piece()));
        push_flags(&mut r, to, c0, c1, Ghost(self.chameleon_of(c, 0)), Ghost(self.chameleon_of(c, 1)), m, Piece::Coordinator);
        let ghost cs = self.captures(m, c);
        assert(r@.len() == cs.len());
        assert(same_square(r@[0].0, cs[0].0) && r@[0].1 == cs[0].1);
        assert(same_square(r@[1].0, cs[1].0) && r@[1].1 == cs[1].1);
        assert(same_square(r@[2].0, cs[2].0) && r@[2].1 == cs[2].1);
        r
    }

    /// The captures of `m` played by `c`, computed.
    fn capture_list(&self, m: Move, c: Color) -> (r: Vec<(Option<usize>, Piece)>)
        requires
            self.bb_len() == 16,
        ensures
            same_captures(r@, self.captures(m, c)),
    {
        let from = m.get_from();
        let to = m.get_to();
        let mut r: Vec<(Option<usize>, Piece)> = Vec::new();
        match m.get_piece() {
            Piece::Stradler => self.stradler_captures(m, c),
            Piece::Coordinator => self.coordinator_captures(m, c),
            Piece::Springer => {
                r.push((springer_captured_square(from, to), m.get_c1_piece()));
                r
            },
            Piece::Retractor => {
                r.push((retractor_captured_square(from, to), m.get_c1_piece()));
                r
            },
            Piece::King => self.king_captures(m, c),
            _ => r,
        }
    }

    /// `m` can be taken back: the side that played it is the one not to move,
    /// its piece stands on its destination and its origin is empty, every
    /// capture slot names a square other than the origin that is empty (or is
    /// the destination), and two slots naming one square name one class.
    pub open spec fn can_unmake(self, m: Move) -> bool {
        let c = self.side().flip();
        let cs = self.captures(m, c);
        &&& self.wf()
        &&& self.half() > 0
        &&& self.holds(c, m.piece(), m.to_sq())
        &&& self.piece_at(m.from_sq()) == Piece::Empty
        &&& forall|i: int| 0 <= i < cs.len() && (#[trigger] cs[i]).1 != Piece::Empty
            ==> cs[i].0.is_some() && cs[i].0.unwrap() != m.from_sq()
                && (self.piece_at(cs[i].0.unwrap()) == Piece::Empty || cs[i].0.unwrap() == m.to_sq())
        &&& forall|i: int, j: int| 0 <= i < cs.len() && 0 <= j < cs.len() && (#[trigger] cs[i]).1 != Piece::Empty
            && (#[trigger] cs[j]).1 != Piece::Empty && cs[i].0 == cs[j].0 ==> cs[i].1 == cs[j].1
    }

    /// `r` is `self` with `m` taken back: the piece back on its origin, every
    /// captured piece back on its square, the destination otherwise empty,
    /// the other side to move and one half-move fewer.
    pub open spec fn unmade(self, m: Move, r: Position) -> bool {
        let c = self.side().flip();
        let cs = self.captures(m, c);
        &&& r.wf()
        &&& r.side() == c
        &&& r.half() == self.half() - 1
        &&& r.full() == self.full()
        &&& r.hash() == self.hash()
        &&& r.holds(c, m.piece(), m.from_sq())
        &&& !r.occupied_by(c.flip(), m.from_sq())
        &&& forall|i: int| 0 <= i < cs.len() && (#[trigger] cs[i]).1 != Piece::Empty
            ==> r.holds(c.flip(), cs[i].1, cs[i].0.unwrap()) && !r.occupied_by(c, cs[i].0.unwrap())
        &&& forall|s: int| 0 <= s < 64 && s != m.from_sq() && !Position::taken(cs, s) ==> #[trigger] r.piece_at(s) == (
            if s == m.to_sq() { Piece::Empty } else { self.piece_at(s) })
        &&& forall|s: int| 0 <= s < 64 && s != m.from_sq() && s != m.to_sq() && !Position::taken(cs, s)
            ==> #[trigger] r.occupied_by(Color::White, s) == self.occupied_by(Color::White, s)
        &&& forall|s: int| 0 <= s < 64 && s != m.from_sq() && s != m.to_sq() && !Position::taken(cs, s)
            ==> #[trigger] r.occupied_by(Color::Black, s) == self.occupied_by(Color::Black, s)
    }

    pub closed spec fn board_seq(self) -> Seq<Piece> {
        self.board@
    }

    /// Word in bitboard slot `i`.
    pub closed spec fn bbw(self, i: int) -> u64 {
        self.bitboards@[i].0
    }

    pub closed spec fn side(self) -> Color {
        self.to_play
    }

    pub closed spec fn half(self) -> u32 {
        self.halfmoves
    }

    pub closed spec fn full(self) -> u32 {
        self.fullmoves
    }

    pub closed spec fn hash(self) -> u64 {
        self.zobrist_hash
    }

    /// Class of the piece on `s` (`Empty` if none).
    pub open spec fn piece_at(self, s: int) -> Piece {
        self.board_seq()[s]
    }

    /// A piece of colour `c` stands on `s`.
    pub open spec fn occupied_by(self, c: Color, s: int) -> bool {
        bit(self.bbw(c.tag()), s)
    }

    /// Square `s` holds a piece of colour `c` and class `p`.
    pub open spec fn holds(self, c: Color, p: Piece, s: int) -> bool {
        p != Piece::Empty && self.piece_at(s) == p && self.occupied_by(c, s)
    }

    /// Mailbox and bitboards agree on square `s`.
    pub open spec fn cell_ok(self, s: int) -> bool {
        let w = bit(self.bbw(0), s);
        let b = bit(self.bbw(8), s);
        &&& !(w && b)
        &&& (self.piece_at(s) == Piece::Empty <==> !(w || b))
        &&& forall|k: int| 1 <= k < 8 ==> (#[trigger] bit(self.bbw(k), s) <==> (w && self.piece_at(s).code() == k))
        &&& forall|k: int| 1 <= k < 8 ==> (#[trigger] bit(self.bbw(8 + k), s) <==> (b && self.piece_at(s).code() == k))
    }

    /// The invariant of a position: on every square the mailbox and the
    /// bitboards agree, the colour occupancies are disjoint and each is the
    /// union of that colour's piece bitboards, and piece bitboards are disjoint.
    pub open spec fn wf(self) -> bool {
        &&& self.board_seq().len() == 64
        &&& self.bb_len() == 16
        &&& forall|s: int| 0 <= s < 64 ==> #[trigger] self.cell_ok(s)
    }

    pub closed spec fn bb_len(self) -> int {
        self.bitboards@.len() as int
    }

    pub closed spec fn bb_seq(self) -> Seq<Bitboard> {
        self.bitboards@
    }

    /// Two positions have the same pieces on the same squares.
    pub open spec fn same_cells(self, o: Position) -> bool {
        forall|s: int| 0 <= s < 64 ==> #[trigger] self.piece_at(s) == o.piece_at(s)
            && self.occupied_by(Color::White, s) == o.occupied_by(Color::White, s)
            && self.occupied_by(Color::Black, s) == o.occupied_by(Color::Black, s)
    }

    /// Same side to move, counters and hash.
    pub open spec fn same_state(self, o: Position) -> bool {
        self.side() == o.side() && self.half() == o.half() && self.full() == o.full() && self.hash() == o.hash()
    }

    /// Positions with the same mailbox and bitboards agree on every
    /// property of their pieces.
    pub proof fn lemma_same_pieces(self, o: Position)
        requires
            self.board_seq() == o.board_seq(),
            self.bb_seq() == o.bb_seq(),
        ensures
            self.wf() == o.wf(),
            forall|st: BoardRead| self.matches_read(st) == o.matches_read(st),
            self.same_cells(o),
    {
        assert forall|s: int| self.cell_ok(s) == o.cell_ok(s) by {
            assert forall|k: int| self.bbw(k) == o.bbw(k) by {}
        }
        assert forall|s: int, c: Color| self.occupied_by(c, s) == o.occupied_by(c, s) by {
            assert forall|k: int| self.bbw(k) == o.bbw(k) by {}
        }
        assert forall|st: BoardRead| self.matches_read(st) == o.matches_read(st) by {
            assert forall|s: int| self.piece_at(s) == o.piece_at(s)
                && self.occupied_by(Color::White, s) == o.occupied_by(Color::White, s)
                && self.occupied_by(Color::Black, s) == o.occupied_by(Color::Black, s) by {}
        }
    }

    /// Positions equal in every bitboard, the mailbox and the state allow the
    /// same moves.
    pub proof fn lemma_same_moves(self, o: Position, m: Move)
        requires
            self.board_seq() == o.board_seq(),
            self.bb_seq() == o.bb_seq(),
            self.same_state(o),
        ensures
            self.playable(m) == o.playable(m),
            self.can_make(m) == o.can_make(m),
            self.can_unmake(m) == o.can_unmake(m),
            self.wf() == o.wf(),
            forall|q: Position| #[trigger] self.made(m, q) == o.made(m, q),
            forall|q: Position| #[trigger] self.unmade(m, q) == o.unmade(m, q),
            forall|k: int| #[trigger] self.bbw(k) == o.bbw(k),
            forall|s: int| #[trigger] self.piece_at(s) == o.piece_at(s),
            self.side() == o.side(),
    {
        self.lemma_same_pieces(o);
        assert forall|s: int| self.piece_at(s) == o.piece_at(s) by {}
        assert forall|k: int| self.bbw(k) == o.bbw(k) by {}
        assert forall|c: Color| self.captures(m, c) == o.captures(m, c) by {
            assert(self.king_of(c) == o.king_of(c));
            assert(self.coordinator_of(c) == o.coordinator_of(c));
            assert(self.chameleon_of(c, 0) == o.chameleon_of(c, 0));
            assert(self.chameleon_of(c, 1) == o.chameleon_of(c, 1));
        }
    }

    /// Two well-formed positions with the same pieces on the same squares
    /// are identical in every bitboard and in the mailbox.
    pub proof fn lemma_ext(self, o: Position)
        requires
            self.wf(),
            o.wf(),
            self.same_cells(o),
        ensures
            self.board_seq() == o.board_seq(),
            self.bb_seq() == o.bb_seq(),
    {
        assert forall|i: int| 0 <= i < 16 implies self.bitboards@[i] == o.bitboards@[i] by {
            assert forall|s: int| squares(self.bbw(i)).contains(s) == squares(o.bbw(i)).contains(s) by {
                if 0 <= s < 64 {
                    assert(self.cell_ok(s));
                    assert(o.cell_ok(s));
                    assert(self.same_cells(o));
                    assert(self.piece_at(s) == o.piece_at(s));
                    if i == 0 || i == 8 {
                    } else if i < 8 {
                        assert(bit(self.bbw(i), s) == bit(o.bbw(i), s));
                    } else {
                        assert(bit(self.bbw(8 + (i - 8)), s) == bit(o.bbw(8 + (i - 8)), s));
                    }
                }
            }
            assert(squares(self.bbw(i)) =~= squares(o.bbw(i)));
            lemma_squares_ext(self.bbw(i), o.bbw(i));
        }
        assert(self.bitboards@ =~= o.bitboards@);
        assert forall|s: int| 0 <= s < 64 implies self.board@[s] == o.board@[s] by {
            assert(self.piece_at(s) == o.piece_at(s));
        }
        assert(self.board@ =~= o.board@);
    }

    /// The position with no pieces, White to move, all counters zero.
    fn create_empty() -> (r: Position)
        ensures
            r.wf(),
            forall|s: int| 0 <= s < 64 ==> #[trigger] r.piece_at(s) == Piece::Empty,
            r.side() == Color::White,
            r.half() == 0,
            r.full() == 0,
            r.hash() == 0,
    {
        proof {
            lemma_empty_full();
        }
        let r = Position {
            board: vec![Piece::Empty; 64],
            bitboards: vec![Bitboard(0); 16],
            zobrist_hash: 0,
            to_play: Color::White,
            halfmoves: 0,
            fullmoves: 0,
        };
        assert forall|s: int| 0 <= s < 64 implies #[trigger] r.cell_ok(s) by {
            assert forall|k: int| 0 <= k < 16 implies !bit(r.bbw(k), s) by {
                assert(r.bbw(k) == 0);
                assert(!squares(0).contains(s));
            }
        }
        r
    }

    /// Sets (`on`) or clears bit `s` of bitboard slot `i`.
    fn write_bit(&mut self, i: usize, s: usize, on: bool)
        requires
            old(self).bb_len() == 16,
            i < 16,
            s < 64,
        ensures
            final(self).bb_len() == 16,
            final(self).board_seq() == old(self).board_seq(),
            final(self).same_state(*old(self)),
            forall|j: int| 0 <= j < 16 && j != i ==> #[trigger] final(self).bbw(j) == old(self).bbw(j),
            forall|t: int| #[trigger] bit(final(self).bbw(i as int), t) == if t == s { on } else { bit(old(self).bbw(i as int), t) },
    {
        let w = self.bitboards[i].0;
        let one = 1u64 << s as u64;
        proof {
            lemma_single(s as u64);
            lemma_or(w, one);
            lemma_and_not(w, one);
        }
        let nw = if on { w | one } else { w & !one };
        assert forall|t: int| #[trigger] bit(nw, t) == if t == s { on } else { bit(w, t) } by {
            assert(squares(nw).contains(t) == bit(nw, t));
            assert(squares(w).contains(t) == bit(w, t));
        }
        self.bitboards.set(i, Bitboard(nw));
    }

    /// Puts a piece of colour `color` and class `piece` on `square`, which is
    /// empty or already holds that very piece.
    fn place_piece(&mut self, color: Color, piece: Piece, square: usize)
        requires
            old(self).wf(),
            square < 64,
            piece != Piece::Empty,
            old(self).piece_at(square as int) == Piece::Empty || old(self).holds(color, piece, square as int),
        ensures
            final(self).wf(),
            final(self).same_state(*old(self)),
            final(self).holds(color, piece, square as int),
            forall|t: int| 0 <= t < 64 && t != square ==> #[trigger] final(self).piece_at(t) == old(self).piece_at(t)
                && final(self).occupied_by(Color::White, t) == old(self).occupied_by(Color::White, t)
                && final(self).occupied_by(Color::Black, t) == old(self).occupied_by(Color::Black, t),
            !final(self).occupied_by(color.flip(), square as int),
    {
        let ghost o = *self;
        assert(o.cell_ok(square as int));
        let ci = color.index();
        let pi = slot_index(color, piece);
        self.write_bit(ci, square, true);
        let ghost o1 = *self;
        self.write_bit(pi, square, true);
        let ghost o2 = *self;
        self.board.set(square, piece);
        assert(self.board_seq() == o.board_seq().update(square as int, piece));
        assert forall|k: int, t: int| 0 <= k < 16 implies #[trigger] bit(self.bbw(k), t)
            == if t == square && (k == ci || k == pi) { true } else { bit(o.bbw(k), t) } by {
            assert(self.bbw(k) == o2.bbw(k));
            if k != pi {
                assert(o2.bbw(k) == o1.bbw(k));
            }
            if k != ci {
                assert(o1.bbw(k) == o.bbw(k));
            }
        }
        assert forall|t: int| 0 <= t < 64 implies #[trigger] self.cell_ok(t) by {
            assert(o.cell_ok(t));
        }
    }

    /// Takes off `square` the piece of colour `color` and class `piece`; the
    /// square may already be empty.
    fn remove_piece(&mut self, color: Color, piece: Piece, square: usize)
        requires
            old(self).wf(),
            square < 64,
            piece != Piece::Empty,
            old(self).piece_at(square as int) == Piece::Empty || old(self).holds(color, piece, square as int),
        ensures
            final(self).wf(),
            final(self).same_state(*old(self)),
            final(self).piece_at(square as int) == Piece::Empty,
            forall|t: int| 0 <= t < 64 && t != square ==> #[trigger] final(self).piece_at(t) == old(self).piece_at(t)
                && final(self).occupied_by(Color::White, t) == old(self).occupied_by(Color::White, t)
                && final(self).occupied_by(Color::Black, t) == old(self).occupied_by(Color::Black, t),
    {
        let ghost o = *self;
        assert(o.cell_ok(square as int));
        let ci = color.index();
        let pi = slot_index(color, piece);
        self.write_bit(ci, square, false);
        let ghost o1 = *self;
        self.write_bit(pi, square, false);
        let ghost o2 = *self;
        self.board.set(square, Piece::Empty);
        assert(self.board_seq() == o.board_seq().update(square as int, Piece::Empty));
        assert forall|k: int, t: int| 0 <= k < 16 implies #[trigger] bit(self.bbw(k), t)
            == if t == square && (k == ci || k == pi) { false } else { bit(o.bbw(k), t) } by {
            assert(self.bbw(k) == o2.bbw(k));
            if k != pi {
                assert(o2.bbw(k) == o1.bbw(k));
            }
            if k != ci {
                assert(o1.bbw(k) == o.bbw(k));
            }
        }
        assert forall|t: int| 0 <= t < 64 implies #[trigger] self.cell_ok(t) by {
            assert(o.cell_ok(t));
        }
    }

    /// The position's cells are those the placement reader `st` has built.
    pub open spec fn matches_read(self, st: BoardRead) -> bool {
        &&& st.pieces.len() == 64
        &&& st.black.len() == 64
        &&& forall|s: int| 0 <= s < 64 ==> #[trigger] self.piece_at(s) == st.pieces[s]
            && self.occupied_by(Color::Black, s) == (st.pieces[s] != Piece::Empty && st.black[s])
            && self.occupied_by(Color::White, s) == (st.pieces[s] != Piece::Empty && !st.black[s])
    }

    /// Colour of the piece on `s` (White if empty).
    fn color_on(&self, s: usize) -> (r: Color)
        requires
            self.wf(),
            s < 64,
        ensures
            r == Color::Black <==> self.occupied_by(Color::Black, s as int),
    {
        if (self.bitboards[8].0 >> s as u64) & 1 == 1 { Color::Black } else { Color::White }
    }

    /// Builds the pieces of a placement field.
    fn read_placement(field: &Vec<u8>) -> (r: Option<Position>)
        ensures
            r.is_some() == board_ok(field@),
            r.is_some() ==> r.unwrap().wf() && r.unwrap().matches_read(board_of(field@))
                && r.unwrap().side() == Color::White && r.unwrap().half() == 0
                && r.unwrap().full() == 0 && r.unwrap().hash() == 0,
    {
        let mut pos = Position::create_empty();
        let mut rank: usize = 7;
        let mut file: usize = 0;
        let mut i: usize = 0;
        assert(field@.subrange(0, 0) =~= Seq::<u8>::empty());
        assert(read_board(field@.subrange(0, 0)) == crate::fen::board_start());
        assert forall|t: int| 0 <= t < 64 implies #[trigger] pos.piece_at(t) == crate::fen::board_start().pieces[t]
            && pos.occupied_by(Color::Black, t) == false && pos.occupied_by(Color::White, t) == false by {
            assert(pos.cell_ok(t));
        }
        assert(pos.matches_read(read_board(field@.subrange(0, 0))));
        while i < field.len()
            invariant
                i <= field@.len(),
                pos.wf(),
                pos.side() == Color::White && pos.half() == 0 && pos.full() == 0 && pos.hash() == 0,
                read_board(field@.subrange(0, i as int)).ok,
                read_board(field@.subrange(0, i as int)).rank == rank,
                read_board(field@.subrange(0, i as int)).file == file,
                rank <= 7,
                file <= 8,
                pos.matches_read(read_board(field@.subrange(0, i as int))),
            decreases field.len() - i,
        {
            let c = field[i];
            let ghost st = read_board(field@.subrange(0, i as int));
            assert(field@.subrange(0, i + 1).drop_last() =~= field@.subrange(0, i as int));
            assert(field@.subrange(0, i + 1).last() == c);
            let ghost nst = read_byte(st, c);
            assert(read_board(field@.subrange(0, i + 1)) == nst);
            if 49 <= c && c <= 56 {
                let n = (c - 48) as usize;
                if file + n > 8 {
                    proof { lemma_read_stays_bad(field@, i + 1); }
                    return None;
                }
                file = file + n;
            } else if c == 47 {
                if file != 8 || rank == 0 {
                    proof { lemma_read_stays_bad(field@, i + 1); }
                    return None;
                }
                rank = rank - 1;
                file = 0;
            } else {
                let p = letter_to_piece(c);
                if p == Piece::Empty || file >= 8 {
                    proof { lemma_read_stays_bad(field@, i + 1); }
                    return None;
                }
                let s = rank * 8 + file;
                proof { lemma_sq(file as int, rank as int); }
                assert(s == sq(file as int, rank as int));
                let color = if 65 <= c && c <= 90 { Color::White } else { Color::Black };
                let prev = pos.board[s];
                if prev != Piece::Empty {
                    let pc = pos.color_on(s);
                    proof {
                        assert(pos.cell_ok(s as int));
                    }
                    pos.remove_piece(pc, prev, s);
                }
                pos.place_piece(color, p, s);
                file = file + 1;
                assert(pos.matches_read(nst)) by {
                    assert forall|t: int| 0 <= t < 64 implies #[trigger] pos.piece_at(t) == nst.pieces[t]
                        && pos.occupied_by(Color::Black, t) == (nst.pieces[t] != Piece::Empty && nst.black[t])
                        && pos.occupied_by(Color::White, t) == (nst.pieces[t] != Piece::Empty && !nst.black[t]) by {
                        assert(pos.cell_ok(t));
                    }
                }
            }
            i = i + 1;
        }
        assert(field@.subrange(0, field@.len() as int) =~= field@);
        if rank != 0 || file != 8 {
            return None;
        }
        Some(pos)
    }

    /// The position a well-formed FEN string describes.
    pub open spec fn fen_position(self, b: Seq<u8>) -> bool {
        let f = split_spaces(b);
        &&& self.wf()
        &&& self.matches_read(board_of(f[0]))
        &&& self.side() == (if f[1] == seq![119u8] { Color::White } else { Color::Black })
        &&& self.half() == number_value(f[2])
        &&& self.full() == fullmove_value(f[3])
        &&& self.hash() == 0
    }

    /// Reads a position from FEN: `<ranks> <w|b> <halfmoves> <fullmoves>`,
    /// the fields separated by single spaces; a full-move field `-` reads as 0.
    #[allow(non_snake_case)]
    pub fn from_FEN(fen: &str) -> (r: Result<Position, ReadFenError>)
        ensures
            r.is_ok() == fen_ok(fen.spec_bytes()),
            match r {
                Ok(p) => p.fen_position(fen.spec_bytes()),
                Err(_) => true,
            },
    {
        let bytes = fen.as_bytes();
        let fields = split_fields(bytes);
        let ghost f = split_spaces(bytes@);
        if fields.len() != 4 {
            return Err(ReadFenError {});
        }
        assert(fields@[0]@ == f[0] && fields@[1]@ == f[1] && fields@[2]@ == f[2] && fields@[3]@ == f[3]);
        let mut pos = match Position::read_placement(&fields[0]) {
            Some(p) => p,
            None => return Err(ReadFenError {}),
        };
        let ghost p0 = pos;
        let side = &fields[1];
        if side.len() == 1 && side[0] == 119 {
            assert(side@ =~= seq![119u8]);
            pos.to_play = Color::White;
        } else if side.len() == 1 && side[0] == 98 {
            assert(side@ =~= seq![98u8]);
            pos.to_play = Color::Black;
        } else {
            assert(side@ != seq![119u8]);
            assert(side@ != seq![98u8]);
            return Err(ReadFenError {});
        }
        pos.halfmoves = match parse_number(&fields[2]) {
            Some(n) => n,
            None => return Err(ReadFenError {}),
        };
        let full = &fields[3];
        if full.len() == 1 && full[0] == 45 {
            assert(full@ =~= seq![45u8]);
            pos.fullmoves = 0;
        } else {
            assert(full@ != seq![45u8]);
            pos.fullmoves = match parse_number(full) {
                Some(n) => n,
                None => return Err(ReadFenError {}),
            };
        }
        proof {
            p0.lemma_same_pieces(pos);
        }
        Ok(pos)
    }

    /// The starting position `unbqkbnr/pppppppp/8/8/8/8/PPPPPPPP/RNBQKBNU w 0 1`:
    /// White to move, no half-moves, full-move number 1.
    pub fn from_start_position() -> (r: Position)
        ensures
            r.wf(),
            forall|s: int| 0 <= s < 64 ==> #[trigger] r.piece_at(s) == start_piece(s)
                && r.occupied_by(Color::White, s) == (start_piece(s) != Piece::Empty && s < 16)
                && r.occupied_by(Color::Black, s) == (start_piece(s) != Piece::Empty && s >= 48),
            r.side() == Color::White,
            r.half() == 0,
            r.full() == 1,
    {
        let mut pos = Position::create_empty();
        let mut s: usize = 0;
        assert forall|t: int| 0 <= t < 64 implies !#[trigger] pos.occupied_by(Color::White, t) by {
            assert(pos.cell_ok(t));
        }
        assert forall|t: int| 0 <= t < 64 implies !#[trigger] pos.occupied_by(Color::Black, t) by {
            assert(pos.cell_ok(t));
        }
        while s < 64
            invariant
                s <= 64,
                pos.wf(),
                pos.side() == Color::White && pos.half() == 0 && pos.full() == 0,
                forall|t: int| 0 <= t < 64 ==> #[trigger] pos.piece_at(t) == if t < s { start_piece(t) } else { Piece::Empty },
                forall|t: int| 0 <= t < 64 ==> #[trigger] pos.occupied_by(Color::White, t)
                    == (t < s && start_piece(t) != Piece::Empty && t < 16),
                forall|t: int| 0 <= t < 64 ==> #[trigger] pos.occupied_by(Color::Black, t)
                    == (t < s && start_piece(t) != Piece::Empty && t >= 48),
            decreases 64 - s,
        {
            let p = start_piece_at(s);
            if p != Piece::Empty {
                let c = if s < 16 { Color::White } else { Color::Black };
                let ghost before = pos;
                assert(before.cell_ok(s as int));
                pos.place_piece(c, p, s);
                assert(pos.cell_ok(s as int));
                assert forall|t: int| 0 <= t < 64 implies #[trigger] pos.occupied_by(Color::White, t)
                    == (t < s + 1 && start_piece(t) != Piece::Empty && t < 16) by {
                    if t != s {
                        assert(pos.piece_at(t) == before.piece_at(t));
                    }
                }
                assert forall|t: int| 0 <= t < 64 implies #[trigger] pos.occupied_by(Color::Black, t)
                    == (t < s + 1 && start_piece(t) != Piece::Empty && t >= 48) by {
                    if t != s {
                        assert(pos.piece_at(t) == before.piece_at(t));
                    }
                }
            }
            s = s + 1;
        }
        let ghost p1 = pos;
        assert(s == 64);
        pos.fullmoves = 1;
        proof {
            p1.lemma_same_pieces(pos);
            assert forall|t: int| 0 <= t < 64 implies #[trigger] pos.piece_at(t) == start_piece(t)
                && pos.occupied_by(Color::White, t) == (start_piece(t) != Piece::Empty && t < 16)
                && pos.occupied_by(Color::Black, t) == (start_piece(t) != Piece::Empty && t >= 48) by {
                assert(p1.piece_at(t) == start_piece(t));
                assert(p1.occupied_by(Color::White, t) == (start_piece(t) != Piece::Empty && t < 16));
                assert(p1.occupied_by(Color::Black, t) == (start_piece(t) != Piece::Empty && t >= 48));
            }
        }
        pos
    }

    pub fn to_play(&self) -> (r: Color)
        ensures
            r == self.side(),
    {
        self.to_play
    }

    pub fn halfmoves(&self) -> (r: u32)
        ensures
            r == self.half(),
    {
        self.halfmoves
    }

    pub fn fullmoves(&self) -> (r: u32)
        ensures
            r == self.full(),
    {
        self.fullmoves
    }

    /// Bitboard slot `i`: colour occupancy at 0 and 8, piece classes after each.
    pub fn bitboard(&self, i: usize) -> (r: Bitboard)
        requires
            self.wf(),
            i < 16,
        ensures
            r.0 == self.bbw(i as int),
    {
        self.bitboards[i]
    }

    /// Class of the piece on `s`.
    pub fn piece_on(&self, s: usize) -> (r: Piece)
        requires
            self.wf(),
            s < 64,
        ensures
            r == self.piece_at(s as int),
    {
        self.board[s]
    }

    /// Plays `m`: removes what it captures, moves its piece, passes the move
    /// to the other side and counts one more half-move.
    pub fn make_move(&mut self, m: Move)
        requires
            old(self).can_make(m),
        ensures
            old(self).made(m, *final(self)),
    {
        let ghost p0 = *self;
        let us = self.to_play;
        let them = us.opposite();
        let from = m.get_from();
        let to = m.get_to();
        let piece = m.get_piece();
        let caps = self.capture_list(m, us);
        let ghost cs = p0.captures(m, us);
        let mut i: usize = 0;
        while i < caps.len()
            invariant
                p0.can_make(m),
                us == p0.side(),
                them == us.flip(),
                cs == p0.captures(m, us),
                same_captures(caps@, cs),
                i <= caps@.len(),
                self.wf(),
                self.same_state(p0),
                forall|s: int| 0 <= s < 64 ==> #[trigger] self.piece_at(s)
                    == if Position::taken_before(cs, i as int, s) { Piece::Empty } else { p0.piece_at(s) },
                forall|s: int| 0 <= s < 64 ==> #[trigger] self.occupied_by(Color::White, s)
                    == (!Position::taken_before(cs, i as int, s) && p0.occupied_by(Color::White, s)),
                forall|s: int| 0 <= s < 64 ==> #[trigger] self.occupied_by(Color::Black, s)
                    == (!Position::taken_before(cs, i as int, s) && p0.occupied_by(Color::Black, s)),
            decreases caps.len() - i,
        {
            let (sq_opt, p) = caps[i];
            if p != Piece::Empty {
                assert(cs[i as int].1 != Piece::Empty);
                let s = sq_opt.unwrap();
                assert(p0.holds(them, p, s as int));
                let ghost before = *self;
                self.remove_piece(them, p, s);
                assert(self.cell_ok(s as int));
                assert(cs[i as int].0 == Some(s as int));
                assert forall|t: int| 0 <= t < 64 implies
                    #[trigger] self.occupied_by(Color::White, t) == (!Position::taken_before(cs, i + 1, t) && p0.occupied_by(Color::White, t)) by {
                    if t != s {
                        assert(self.piece_at(t) == before.piece_at(t));
                        assert(before.occupied_by(Color::White, t) == (!Position::taken_before(cs, i as int, t) && p0.occupied_by(Color::White, t)));
                    } else {
                        assert(self.cell_ok(t));
                    }
                }
                assert forall|t: int| 0 <= t < 64 implies
                    #[trigger] self.occupied_by(Color::Black, t) == (!Position::taken_before(cs, i + 1, t) && p0.occupied_by(Color::Black, t)) by {
                    if t != s {
                        assert(self.piece_at(t) == before.piece_at(t));
                        assert(before.occupied_by(Color::Black, t) == (!Position::taken_before(cs, i as int, t) && p0.occupied_by(Color::Black, t)));
                    } else {
                        assert(self.cell_ok(t));
                    }
                }
            }
            i = i + 1;
        }
        assert(self.holds(us, piece, from as int)) by {
            assert(p0.holds(us, piece, from as int));
            if Position::taken_before(cs, cs.len() as int, from as int) {
                lemma_taken_enemy(p0, m, cs, cs.len() as int, from as int);
                assert(p0.cell_ok(from as int));
            }
            assert(self.cell_ok(from as int));
        }
        self.remove_piece(us, piece, from);
        assert(self.piece_at(to as int) == Piece::Empty) by {
            if p0.piece_at(to as int) != Piece::Empty {
                assert(cs[0].0 == Some(to as int));
                assert(Position::taken_before(cs, 1, to as int));
                lemma_taken_mono(cs, 1, cs.len() as int, to as int);
            }
        }
        let ghost p1 = *self;
        self.place_piece(us, piece, to);
        let ghost p2 = *self;
        self.to_play = them;
        self.halfmoves = self.halfmoves + 1;
        proof {
            p2.lemma_same_pieces(*self);
            assert forall|s: int| 0 <= s < 64 && s != to implies #[trigger] self.piece_at(s) == (
                if s == from || Position::taken(cs, s) { Piece::Empty } else { p0.piece_at(s) }) by {
                if 0 <= s < 64 && s != to {
                    assert(p2.piece_at(s) == p1.piece_at(s));
                }
            }
            assert forall|s: int| 0 <= s < 64 && s != to && s != from && !Position::taken(cs, s)
                implies #[trigger] self.occupied_by(Color::White, s) == p0.occupied_by(Color::White, s) by {
                assert(p2.piece_at(s) == p1.piece_at(s));
            }
            assert forall|s: int| 0 <= s < 64 && s != to && s != from && !Position::taken(cs, s)
                implies #[trigger] self.occupied_by(Color::Black, s) == p0.occupied_by(Color::Black, s) by {
                assert(p2.piece_at(s) == p1.piece_at(s));
            }
            assert(p2.cell_ok(to as int));
        }
    }

    /// Takes back `m`, the last move played: the piece returns to its origin
    /// and every piece it captured returns to its square.
    pub fn unmake_move(&mut self, m: Move)
        requires
            old(self).can_unmake(m),
        ensures
            old(self).unmade(m, *final(self)),
    {
        let ghost q = *self;
        let them = self.to_play;
        let us = them.opposite();
        let from = m.get_from();
        let to = m.get_to();
        let piece = m.get_piece();
        let caps = self.capture_list(m, us);
        let ghost cs = q.captures(m, us);
        self.to_play = us;
        self.halfmoves = self.halfmoves - 1;
        let ghost q1 = *self;
        proof {
            q.lemma_same_pieces(q1);
        }
        self.remove_piece(us, piece, to);
        let ghost q2 = *self;
        assert(q2.cell_ok(from as int));
        self.place_piece(us, piece, from);
        let ghost q3 = *self;
        assert forall|s: int| 0 <= s < 64 && s != from implies #[trigger] q3.piece_at(s)
            == if s == to { Piece::Empty } else { q.piece_at(s) } by {
            assert(q2.piece_at(s) == q1.piece_at(s) || s == to);
        }
        assert forall|s: int| 0 <= s < 64 && s != from && s != to implies
            #[trigger] q3.occupied_by(Color::White, s) == q.occupied_by(Color::White, s) by {
            assert(q3.piece_at(s) == q2.piece_at(s));
            assert(q2.piece_at(s) == q1.piece_at(s));
        }
        assert forall|s: int| 0 <= s < 64 && s != from && s != to implies
            #[trigger] q3.occupied_by(Color::Black, s) == q.occupied_by(Color::Black, s) by {
            assert(q3.piece_at(s) == q2.piece_at(s));
            assert(q2.piece_at(s) == q1.piece_at(s));
        }
        assert(q.piece_at(to as int) == piece);
        assert(q3.cell_ok(to as int));
        let mut i: usize = 0;
        while i < caps.len()
            invariant
                q.can_unmake(m),
                from == m.from_sq(),
                to == m.to_sq(),
                piece == m.piece(),
                us == q.side().flip(),
                them == us.flip(),
                cs == q.captures(m, us),
                same_captures(caps@, cs),
                i <= caps@.len(),
                self.wf(),
                self.side() == us,
                self.half() == q.half() - 1,
                self.full() == q.full(),
                self.hash() == q.hash(),
                self.holds(us, piece, from as int),
                !self.occupied_by(them, from as int),
                forall|j: int| 0 <= j < i && (#[trigger] cs[j]).1 != Piece::Empty
                    ==> self.holds(them, cs[j].1, cs[j].0.unwrap()) && !self.occupied_by(us, cs[j].0.unwrap()),
                forall|s: int| 0 <= s < 64 && s != from && !Position::taken_before(cs, i as int, s) ==> #[trigger] self.piece_at(s)
                    == if s == to { Piece::Empty } else { q.piece_at(s) },
                forall|s: int| 0 <= s < 64 && s != from && s != to && !Position::taken_before(cs, i as int, s)
                    ==> #[trigger] self.occupied_by(Color::White, s) == q.occupied_by(Color::White, s),
                forall|s: int| 0 <= s < 64 && s != from && s != to && !Position::taken_before(cs, i as int, s)
                    ==> #[trigger] self.occupied_by(Color::Black, s) == q.occupied_by(Color::Black, s),
            decreases caps.len() - i,
        {
            let (sq_opt, p) = caps[i];
            if p != Piece::Empty {
                assert(cs[i as int].1 != Piece::Empty);
                let s = sq_opt.unwrap();
                assert(cs[i as int].0 == Some(s as int));
                proof {
                    let c = q.side().flip();
                    assert(c == us);
                    assert(q.captures(m, c) == cs);
                    let ii = i as int;
                    assert(0 <= ii < cs.len() && cs[ii].1 != Piece::Empty);
                    assert(cs[ii].0.is_some() && cs[ii].0.unwrap() != m.from_sq()
                        && (q.piece_at(cs[ii].0.unwrap()) == Piece::Empty || cs[ii].0.unwrap() == m.to_sq()));
                }
                assert(s != from);
                assert(q.piece_at(s as int) == Piece::Empty || s == to);
                let ghost before = *self;
                proof {
                    if Position::taken_before(cs, i as int, s as int) {
                        lemma_taken_holds(before, cs, i as int, i as int, s as int, them);
                    } else {
                        assert(before.cell_ok(s as int));
                    }
                }
                self.place_piece(them, p, s);
                assert(self.cell_ok(s as int));
                assert(self.piece_at(from as int) == before.piece_at(from as int));
                assert(self.cell_ok(from as int));
                assert forall|j: int| 0 <= j < i + 1 && (#[trigger] cs[j]).1 != Piece::Empty
                    implies self.holds(them, cs[j].1, cs[j].0.unwrap()) && !self.occupied_by(us, cs[j].0.unwrap()) by {
                    if j < i && cs[j].0.unwrap() != s {
                        assert(self.piece_at(cs[j].0.unwrap()) == before.piece_at(cs[j].0.unwrap()));
                    }
                }
                assert forall|t: int| 0 <= t < 64 && t != from && !Position::taken_before(cs, i + 1, t)
                    implies #[trigger] self.piece_at(t) == if t == to { Piece::Empty } else { q.piece_at(t) } by {
                    assert(self.piece_at(t) == before.piece_at(t));
                }
                assert forall|t: int| 0 <= t < 64 && t != from && t != to && !Position::taken_before(cs, i + 1, t)
                    implies #[trigger] self.occupied_by(Color::White, t) == q.occupied_by(Color::White, t) by {
                    assert(self.piece_at(t) == before.piece_at(t));
                }
                assert forall|t: int| 0 <= t < 64 && t != from && t != to && !Position::taken_before(cs, i + 1, t)
                    implies #[trigger] self.occupied_by(Color::Black, t) == q.occupied_by(Color::Black, t) by {
                    assert(self.piece_at(t) == before.piece_at(t));
                }
            }
            i = i + 1;
        }
    }
}

/// A square already restored by one of the first `k` slots holds the class
/// that slot `i` names.
proof fn lemma_taken_holds(r: Position, cs: Seq<Capture>, i: int, k: int, s: int, them: Color)
    requires
        0 <= k <= i < cs.len(),
        cs[i].1 != Piece::Empty,
        cs[i].0 == Some(s),
        Position::taken_before(cs, k, s),
        forall|j: int| 0 <= j < i && (#[trigger] cs[j]).1 != Piece::Empty
            ==> r.holds(them, cs[j].1, cs[j].0.unwrap()),
        forall|a: int, b: int| 0 <= a < cs.len() && 0 <= b < cs.len() && (#[trigger] cs[a]).1 != Piece::Empty
            && (#[trigger] cs[b]).1 != Piece::Empty && cs[a].0 == cs[b].0 ==> cs[a].1 == cs[b].1,
    ensures
        r.holds(them, cs[i].1, s),
    decreases k,
{
    if Position::taken_before(cs, k - 1, s) {
        lemma_taken_holds(r, cs, i, k - 1, s, them);
    } else {
        assert(cs[k - 1].1 != Piece::Empty && cs[k - 1].0 == Some(s));
        assert(cs[k - 1].1 == cs[i].1);
    }
}

/// The slot that takes square `s`.
proof fn lemma_taken_index(cs: Seq<Capture>, k: int, s: int) -> (i: int)
    requires
        0 <= k <= cs.len(),
        Position::taken_before(cs, k, s),
    ensures
        0 <= i < k,
        cs[i].1 != Piece::Empty,
        cs[i].0 == Some(s),
    decreases k,
{
    if Position::taken_before(cs, k - 1, s) {
        lemma_taken_index(cs, k - 1, s)
    } else {
        k - 1
    }
}

/// A slot naming square `s` takes it.
proof fn lemma_index_taken(cs: Seq<Capture>, i: int, k: int, s: int)
    requires
        0 <= i < k <= cs.len(),
        cs[i].1 != Piece::Empty,
        cs[i].0 == Some(s),
    ensures
        Position::taken_before(cs, k, s),
    decreases k,
{
    if i < k - 1 {
        lemma_index_taken(cs, i, k - 1, s);
    }
}

/// The bitboard of the `k`s of colour `c` holds exactly the squares where
/// such a piece stands.
pub proof fn lemma_word_squares(p: Position, c: Color, k: Piece, s: int)
    requires
        p.wf(),
        k != Piece::Empty,
    ensures
        bit(p.bbw(slot(c, k)), s) <==> (0 <= s < 64 && p.holds(c, k, s)),
{
    if 0 <= s < 64 {
        assert(p.cell_ok(s));
        if c == Color::White {
            assert(bit(p.bbw(k.code()), s) <==> (bit(p.bbw(0), s) && p.piece_at(s).code() == k.code()));
        } else {
            assert(bit(p.bbw(8 + k.code()), s) <==> (bit(p.bbw(8), s) && p.piece_at(s).code() == k.code()));
        }
    }
}

/// Two well-formed positions with the same `k`s of colour `c` have the same
/// bitboard for them.
proof fn lemma_word_same(p: Position, q: Position, c: Color, k: Piece)
    requires
        p.wf(),
        q.wf(),
        k != Piece::Empty,
        forall|s: int| 0 <= s < 64 ==> #[trigger] p.holds(c, k, s) == q.holds(c, k, s),
    ensures
        p.bbw(slot(c, k)) == q.bbw(slot(c, k)),
{
    assert forall|s: int| squares(p.bbw(slot(c, k))).contains(s) == squares(q.bbw(slot(c, k))).contains(s) by {
        lemma_word_squares(p, c, k, s);
        lemma_word_squares(q, c, k, s);
    }
    assert(squares(p.bbw(slot(c, k))) =~= squares(q.bbw(slot(c, k))));
    lemma_squares_ext(p.bbw(slot(c, k)), q.bbw(slot(c, k)));
}

/// After `m`, the mover's pieces of any class but the one that moved stand
/// where they stood.
proof fn lemma_made_keeps(p: Position, m: Move, q: Position, k: Piece)
    requires
        p.can_make(m),
        p.made(m, q),
        k != Piece::Empty,
        k != m.piece(),
    ensures
        p.bbw(slot(p.side(), k)) == q.bbw(slot(p.side(), k)),
{
    let c = p.side();
    let cs = p.captures(m, c);
    assert forall|s: int| 0 <= s < 64 implies #[trigger] p.holds(c, k, s) == q.holds(c, k, s) by {
        assert(p.cell_ok(s));
        assert(q.cell_ok(s));
        if s == m.to_sq() {
            assert(!q.holds(c, k, s));
            if p.piece_at(s) != Piece::Empty {
                assert(p.occupied_by(c.flip(), s));
                if c == Color::White {
                    assert(!p.occupied_by(Color::White, s));
                } else {
                    assert(!p.occupied_by(Color::Black, s));
                }
            }
        } else if s == m.from_sq() {
        } else if Position::taken(cs, s) {
            lemma_taken_enemy(p, m, cs, cs.len() as int, s);
            if c == Color::White {
                assert(!p.occupied_by(Color::White, s));
            } else {
                assert(!p.occupied_by(Color::Black, s));
            }
        } else {
            if c == Color::White {
                assert(q.occupied_by(Color::White, s) == p.occupied_by(Color::White, s));
            } else {
                assert(q.occupied_by(Color::Black, s) == p.occupied_by(Color::Black, s));
            }
        }
    }
    lemma_word_same(p, q, c, k);
}

/// Reversibility and consistency: a move that can be made can be taken back
/// from the position it leads to, and taking it back restores the position
/// exactly: every bitboard, the mailbox, the side to move, the counters.
/// Both positions satisfy the invariant (mailbox and bitboards agree).
pub proof fn lemma_make_unmake(p: Position, m: Move, q: Position, r: Position)
    requires
        p.can_make(m),
        p.made(m, q),
    ensures
        q.wf(),
        q.can_unmake(m),
        q.unmade(m, r) ==> r.wf() && r.board_seq() == p.board_seq() && r.bb_seq() == p.bb_seq() && r.same_state(p),
{
    let c = p.side();
    let from = m.from_sq();
    let to = m.to_sq();
    assert(p.cell_ok(from));
    assert(p.cell_ok(to));
    assert(from != to);
    if m.piece() != Piece::King {
        lemma_made_keeps(p, m, q, Piece::King);
    }
    if m.piece() != Piece::Coordinator {
        lemma_made_keeps(p, m, q, Piece::Coordinator);
    }
    if m.piece() != Piece::Chameleon {
        lemma_made_keeps(p, m, q, Piece::Chameleon);
    }
    assert(q.side().flip() == c);
    let cs = p.captures(m, c);
    assert(q.captures(m, c) == cs);
    assert forall|i: int| 0 <= i < cs.len() && (#[trigger] cs[i]).1 != Piece::Empty
        implies cs[i].0.is_some() && cs[i].0.unwrap() != from
            && (q.piece_at(cs[i].0.unwrap()) == Piece::Empty || cs[i].0.unwrap() == to) by {
        let s = cs[i].0.unwrap();
        assert(p.holds(c.flip(), cs[i].1, s));
        assert(p.cell_ok(s));
        assert(p.cell_ok(from));
        if c == Color::White {
            assert(p.occupied_by(Color::White, from));
            assert(p.occupied_by(Color::Black, s));
        } else {
            assert(p.occupied_by(Color::Black, from));
            assert(p.occupied_by(Color::White, s));
        }
        assert(s != from);
        lemma_index_taken(cs, i, cs.len() as int, s);
    }
    assert(q.can_unmake(m));
    if q.unmade(m, r) {
        assert forall|s: int| 0 <= s < 64 implies #[trigger] r.piece_at(s) == p.piece_at(s)
            && r.occupied_by(Color::White, s) == p.occupied_by(Color::White, s)
            && r.occupied_by(Color::Black, s) == p.occupied_by(Color::Black, s) by {
            assert(p.cell_ok(s));
            assert(r.cell_ok(s));
            if s == from {
            } else if Position::taken(cs, s) {
                let i = lemma_taken_index(cs, cs.len() as int, s);
                assert(r.holds(c.flip(), cs[i].1, s));
            } else if s == to {
                if p.piece_at(to) != Piece::Empty {
                    assert(cs[0].0 == Some(to));
                    lemma_index_taken(cs, 0, cs.len() as int, to);
                }
            } else {
                assert(q.piece_at(s) == p.piece_at(s));
            }
        }
        p.lemma_ext(r);
    }
}

/// The position after a move is determined: two positions that both are
/// `p` after `m` are identical.
pub proof fn lemma_made_unique(p: Position, m: Move, q1: Position, q2: Position)
    requires
        p.made(m, q1),
        p.made(m, q2),
    ensures
        q1.board_seq() == q2.board_seq(),
        q1.bb_seq() == q2.bb_seq(),
        q1.same_state(q2),
{
    let c = p.side();
    let cs = p.captures(m, c);
    assert forall|s: int| 0 <= s < 64 implies #[trigger] q1.piece_at(s) == q2.piece_at(s)
        && q1.occupied_by(Color::White, s) == q2.occupied_by(Color::White, s)
        && q1.occupied_by(Color::Black, s) == q2.occupied_by(Color::Black, s) by {
        assert(q1.cell_ok(s));
        assert(q2.cell_ok(s));
        if s == m.to_sq() {
            if c == Color::White {
                assert(q1.occupied_by(Color::White, s) && q2.occupied_by(Color::White, s));
            } else {
                assert(q1.occupied_by(Color::Black, s) && q2.occupied_by(Color::Black, s));
            }
        }
    }
    q1.lemma_ext(q2);
}

/// Moves that agree on every field capture the same squares and lead to
/// the same positions.
pub proof fn lemma_same_fields(p: Position, a: Move, b: Move)
    requires
        a.same_fields(b),
    ensures
        forall|c: Color| p.captures(a, c) == p.captures(b, c),
        forall|q: Position| #[trigger] p.made(a, q) == p.made(b, q),
        p.can_make(a) == p.can_make(b),
{
    assert forall|c: Color| p.captures(a, c) == p.captures(b, c) by {}
}

/// A captured square held an enemy piece before the move.
proof fn lemma_taken_enemy(p: Position, m: Move, cs: Seq<Capture>, k: int, s: int)
    requires
        p.can_make(m),
        cs == p.captures(m, p.side()),
        0 <= k <= cs.len(),
        Position::taken_before(cs, k, s),
    ensures
        p.occupied_by(p.side().flip(), s),
    decreases k,
{
    if Position::taken_before(cs, k - 1, s) {
        lemma_taken_enemy(p, m, cs, k - 1, s);
    } else {
        assert(cs[k - 1].1 != Piece::Empty);
    }
}

proof fn lemma_taken_mono(cs: Seq<Capture>, j: int, k: int, s: int)
    requires
        0 <= j <= k,
        Position::taken_before(cs, j, s),
    ensures
        Position::taken_before(cs, k, s),
    decreases k - j,
{
    if j < k {
        lemma_taken_mono(cs, j, k - 1, s);
    }
}

} // verus!
