//! Pseudo-legal move generation, class by class.
use vstd::prelude::*;
use crate::bitboard::{Bitboard, bit, squares, lemma_and_not, lemma_or, lemma_and, lemma_empty_full};
use crate::types::{Color, Piece, slot, slot_index};
use crate::moves::{Move, MoveList};
use crate::geometry::{orth_reach, diag_reach, king_ring, same_square, step, step_square, generate_orthogonal_moves,
    generate_diagonal_moves, king_mask, springer_landing_square,
    retractor_captured_square, lemma_springer_round_trip, springer_landing, springer_victim, retractor_victim};
use crate::position::{Position, lemma_make_unmake, death_with, custodian_square, custodian_of, first_of, second_of, death_of, lemma_word_squares};

verus! {

/// Bit `s` of `w`, computed.
fn bit_set(w: u64, s: usize) -> (r: bool)
    requires
        s < 64,
    ensures
        r == bit(w, s as int),
{
    (w >> s as u64) & 1 == 1
}

/// The class of the piece of colour `c` on `sq`; `Empty` if there is none.
fn piece_of_color(pos: &Position, sq: Option<usize>, Ghost(q): Ghost<Option<int>>, c: Color) -> (r: Piece)
    requires
        pos.wf(),
        sq.is_some() ==> sq.unwrap() < 64,
        same_square(sq, q),
    ensures
        r != Piece::Empty ==> sq.is_some() && pos.holds(c, r, sq.unwrap() as int),
        r == enemy_piece(*pos, c, q),
{
    match sq {
        Some(s) => {
            if bit_set(pos.bitboard(c.index()).0, s) {
                assert(pos.cell_ok(s as int));
                pos.piece_on(s)
            } else {
                Piece::Empty
            }
        },
        None => Piece::Empty,
    }
}

/// The class of the piece of colour `c` on `sq`; `Empty` if there is none.
pub open spec fn enemy_piece(p: Position, c: Color, sq: Option<int>) -> Piece {
    match sq {
        Some(s) => if p.occupied_by(c, s) { p.piece_at(s) } else { Piece::Empty },
        None => Piece::Empty,
    }
}

/// Capture slot `d` of a stradler of `us` arriving on `to` from `from`: the
/// enemy piece one step away when a friendly stradler or the friendly king
/// stands two steps away, or an enemy stradler there when a friendly
/// chameleon does.
pub open spec fn stradler_capture(p: Position, us: Color, to: int, from: int, d: int) -> Piece {
    match custodian_square(to, from, d) {
        Some(s) => {
            let b = step(to, d, 2);
            if bit(p.bbw(slot(us, Piece::Stradler)), b) || bit(p.bbw(slot(us, Piece::King)), b) {
                enemy_piece(p, us.flip(), Some(s))
            } else if bit(p.bbw(slot(us, Piece::Chameleon)), b) && enemy_piece(p, us.flip(), Some(s)) == Piece::Stradler {
                Piece::Stradler
            } else {
                Piece::Empty
            }
        },
        None => Piece::Empty,
    }
}

/// `m` is a move the generator makes for the side to move of `p`, pieces
/// on `imm` staying put: its origin and destination follow its class's rule
/// and every capture slot holds what the class's geometry finds.
pub open spec fn generated(p: Position, m: Move, imm: Set<int>) -> bool {
    let us = p.side();
    let them = us.flip();
    let total = p.bbw(0) | p.bbw(8);
    let f = m.from_sq();
    let t = m.to_sq();
    let e = Piece::Empty;
    match m.piece() {
        Piece::Stradler => bit(p.bbw(slot(us, Piece::Stradler)), f) && !imm.contains(f)
            && orth_reach(f, total).contains(t) && !bit(total, t)
            && m.is_move(f, t, Piece::Stradler, stradler_capture(p, us, t, f, 0), stradler_capture(p, us, t, f, 1),
                stradler_capture(p, us, t, f, 2), stradler_capture(p, us, t, f, 3), false, false, false, false),
        Piece::Coordinator => lowest_outside(p.bbw(slot(us, Piece::Coordinator)), imm, f) && slide_dest(f, total, t)
            && m.is_move(f, t, Piece::Coordinator,
                enemy_piece(p, them, death_with(t, p.king_of(us), 0)),
                enemy_piece(p, them, death_with(t, p.king_of(us), 1)), e, e,
                enemy_piece(p, them, death_with(t, p.chameleon_of(us, 0), 0)) == Piece::King,
                enemy_piece(p, them, death_with(t, p.chameleon_of(us, 0), 1)) == Piece::King,
                enemy_piece(p, them, death_with(t, p.chameleon_of(us, 1), 0)) == Piece::King,
                enemy_piece(p, them, death_with(t, p.chameleon_of(us, 1), 1)) == Piece::King),
        Piece::Springer => bit(p.bbw(slot(us, Piece::Springer)), f) && !imm.contains(f) && (
            (slide_dest(f, total, t) && m.is_move(f, t, Piece::Springer, e, e, e, e, false, false, false, false))
            || (springer_victim(f, t).is_some()
                && orth_reach(f, total).union(diag_reach(f, total)).contains(springer_victim(f, t).unwrap())
                && bit(p.bbw(them.tag()), springer_victim(f, t).unwrap())
                && springer_landing(f, springer_victim(f, t).unwrap()) == Some(t) && !bit(total, t)
                && m.is_move(f, t, Piece::Springer, p.piece_at(springer_victim(f, t).unwrap()), e, e, e,
                    false, false, false, false))),
        Piece::Retractor => lowest_outside(p.bbw(slot(us, Piece::Retractor)), imm, f) && slide_dest(f, total, t)
            && m.is_move(f, t, Piece::Retractor, enemy_piece(p, them, retractor_victim(f, t)), e, e, e,
                false, false, false, false),
        Piece::Immobilizer => lowest_outside(p.bbw(slot(us, Piece::Immobilizer)), imm.union(near_chameleons(p, us)), f)
            && slide_dest(f, total, t)
            && m.is_move(f, t, Piece::Immobilizer, e, e, e, e, false, false, false, false),
        Piece::King => lowest_outside(p.bbw(slot(us, Piece::King)), imm, f) && king_ring(f).contains(t)
            && !p.occupied_by(us, t)
            && m.is_move(f, t, Piece::King, p.piece_at(t),
                enemy_piece(p, them, death_with(t, p.coordinator_of(us), 0)),
                enemy_piece(p, them, death_with(t, p.coordinator_of(us), 1)), e,
                enemy_piece(p, them, death_with(t, p.chameleon_of(us, 0), 0)) == Piece::Coordinator,
                enemy_piece(p, them, death_with(t, p.chameleon_of(us, 0), 1)) == Piece::Coordinator,
                enemy_piece(p, them, death_with(t, p.chameleon_of(us, 1), 0)) == Piece::Coordinator,
                enemy_piece(p, them, death_with(t, p.chameleon_of(us, 1), 1)) == Piece::Coordinator),
        _ => false,
    }
}

/// Every origin and destination the rules of a class allow has a move in
/// `r` (for springers, with its capture slot).
#[verifier::opaque]
pub open spec fn complete(p: Position, r: Seq<Move>) -> bool {
    let us = p.side();
    let total = p.bbw(0) | p.bbw(8);
    let imm = immobile_set(p, us);
    &&& forall|f: int, t: int| bit(p.bbw(slot(us, Piece::Stradler)), f) && !imm.contains(f)
        && orth_reach(f, total).contains(t) && !bit(total, t)
        ==> #[trigger] has_move(r, f, t, Piece::Stradler)
    &&& forall|f: int, t: int| lowest_outside(p.bbw(slot(us, Piece::Coordinator)), imm, f)
        && slide_dest(f, total, t) ==> #[trigger] has_move(r, f, t, Piece::Coordinator)
    &&& forall|f: int, t: int| bit(p.bbw(slot(us, Piece::Springer)), f) && !imm.contains(f)
        && slide_dest(f, total, t) ==> #[trigger] has_move_taking(r, f, t, Piece::Springer, Piece::Empty)
    &&& forall|f: int, v: int| bit(p.bbw(slot(us, Piece::Springer)), f) && !imm.contains(f)
        && orth_reach(f, total).union(diag_reach(f, total)).contains(v) && bit(p.bbw(us.flip().tag()), v)
        && springer_landing(f, v).is_some() && !bit(total, springer_landing(f, v).unwrap())
        ==> #[trigger] has_move_taking(r, f, springer_landing(f, v).unwrap(), Piece::Springer, p.piece_at(v))
    &&& forall|f: int, t: int| lowest_outside(p.bbw(slot(us, Piece::Retractor)), imm, f)
        && slide_dest(f, total, t) ==> #[trigger] has_move(r, f, t, Piece::Retractor)
    &&& forall|f: int, t: int| lowest_outside(p.bbw(slot(us, Piece::Immobilizer)), imm.union(near_chameleons(p, us)), f)
        && slide_dest(f, total, t) ==> #[trigger] has_move(r, f, t, Piece::Immobilizer)
    &&& forall|f: int, t: int| lowest_outside(p.bbw(slot(us, Piece::King)), imm, f)
        && king_ring(f).contains(t) && !p.occupied_by(us, t) ==> #[trigger] has_move(r, f, t, Piece::King)
}

/// Some move the generator makes in `p`, once made, leaves colour `c`
/// without a king.
#[verifier::opaque]
pub open spec fn attacks_king(p: Position, c: Color) -> bool {
    exists|m: Move, q: Position| generated(p, m, immobile_set(p, p.side())) && #[trigger] p.made(m, q)
        && q.bbw(slot(c, Piece::King)) == 0
}

/// Positions equal in every bitboard, the mailbox and the state have the
/// same generated moves.
#[verifier::spinoff_prover]
#[verifier::rlimit(100)]
proof fn lemma_generated_same(p: Position, o: Position, m: Move)
    requires
        forall|k: int| #[trigger] p.bbw(k) == o.bbw(k),
        forall|s: int| #[trigger] p.piece_at(s) == o.piece_at(s),
        p.side() == o.side(),
    ensures
        immobile_set(p, p.side()) == immobile_set(o, o.side()),
        generated(p, m, immobile_set(p, p.side())) == generated(o, m, immobile_set(o, o.side())),
{
    let us = p.side();
    assert forall|c: Color, s: int| #[trigger] p.occupied_by(c, s) == o.occupied_by(c, s) by {
        assert(p.bbw(c.tag()) == o.bbw(c.tag()));
    }
    assert forall|c: Color, sq: Option<int>| #[trigger] enemy_piece(p, c, sq) == enemy_piece(o, c, sq) by {}
    assert forall|t: int, f: int, d: int| #[trigger] stradler_capture(p, us, t, f, d) == stradler_capture(o, us, t, f, d) by {
        assert(p.bbw(slot(us, Piece::Stradler)) == o.bbw(slot(us, Piece::Stradler)));
        assert(p.bbw(slot(us, Piece::King)) == o.bbw(slot(us, Piece::King)));
        assert(p.bbw(slot(us, Piece::Chameleon)) == o.bbw(slot(us, Piece::Chameleon)));
    }
    assert(p.king_of(us) == o.king_of(us));
    assert(p.coordinator_of(us) == o.coordinator_of(us));
    assert(p.chameleon_of(us, 0) == o.chameleon_of(us, 0));
    assert(p.chameleon_of(us, 1) == o.chameleon_of(us, 1));
    assert(p.bbw(slot(us.flip(), Piece::Immobilizer)) == o.bbw(slot(us.flip(), Piece::Immobilizer)));
    assert(p.bbw(slot(us.flip(), Piece::Chameleon)) == o.bbw(slot(us.flip(), Piece::Chameleon)));
    assert(near_chameleons(p, us) =~= near_chameleons(o, us));
    assert(p.bbw(0) == o.bbw(0) && p.bbw(8) == o.bbw(8));
    assert(p.bbw(us.flip().tag()) == o.bbw(us.flip().tag()));
    assert(p.bbw(slot(us, Piece::Coordinator)) == o.bbw(slot(us, Piece::Coordinator)));
    assert(p.bbw(slot(us, Piece::Springer)) == o.bbw(slot(us, Piece::Springer)));
    assert(p.bbw(slot(us, Piece::Retractor)) == o.bbw(slot(us, Piece::Retractor)));
    assert(p.bbw(slot(us, Piece::Immobilizer)) == o.bbw(slot(us, Piece::Immobilizer)));
}

/// Positions equal in every bitboard, the mailbox and the state attack the
/// same kings.
#[verifier::spinoff_prover]
proof fn lemma_attacks_same(p: Position, o: Position, c: Color)
    requires
        p.board_seq() == o.board_seq(),
        p.bb_seq() == o.bb_seq(),
        p.same_state(o),
    ensures
        attacks_king(p, c) == attacks_king(o, c),
{
    reveal(attacks_king);
    p.lemma_same_moves(o, Move(0));
    if attacks_king(p, c) {
        let (m, q) = choose|m: Move, q: Position| generated(p, m, immobile_set(p, p.side())) && #[trigger] p.made(m, q)
            && q.bbw(slot(c, Piece::King)) == 0;
        lemma_generated_same(p, o, m);
        p.lemma_same_moves(o, m);
        assert(generated(o, m, immobile_set(o, o.side())) && o.made(m, q));
    }
    if attacks_king(o, c) {
        let (m, q) = choose|m: Move, q: Position| generated(o, m, immobile_set(o, o.side())) && #[trigger] o.made(m, q)
            && q.bbw(slot(c, Piece::King)) == 0;
        lemma_generated_same(p, o, m);
        p.lemma_same_moves(o, m);
        assert(generated(p, m, immobile_set(p, p.side())) && p.made(m, q));
    }
}

/// Every move the generator makes in `p` has a move with the same fields in `l`.
#[verifier::opaque]
pub open spec fn covers(p: Position, l: Seq<Move>, imm: Set<int>) -> bool {
    forall|m: Move| #[trigger] generated(p, m, imm) ==> exists|j: int| 0 <= j < l.len() && (#[trigger] l[j]).same_fields(m)
}

/// Every position that `m` leads to from `p` attacks the king of `c`.
#[verifier::opaque]
pub open spec fn reply_takes_king(p: Position, m: Move, c: Color) -> bool {
    forall|q: Position| #[trigger] p.made(m, q) ==> attacks_king(q, c)
}

/// Once a position `q` that `m` leads to is known, whether every such
/// position attacks a king is whether `q` does.
proof fn lemma_after_move(p0: Position, m: Move, q: Position, us: Color)
    requires
        p0.made(m, q),
    ensures
        reply_takes_king(p0, m, us) == attacks_king(q, us),
{
    reveal(reply_takes_king);
    assert forall|q2: Position| #[trigger] p0.made(m, q2) implies attacks_king(q2, us) == attacks_king(q, us) by {
        crate::position::lemma_made_unique(p0, m, q, q2);
        lemma_attacks_same(q, q2, us);
    }
}

/// Moves with the same fields have the same replies.
proof fn lemma_reply_same_fields(p0: Position, a: Move, b: Move, us: Color)
    requires
        a.same_fields(b),
    ensures
        reply_takes_king(p0, a, us) == reply_takes_king(p0, b, us),
{
    reveal(reply_takes_king);
    crate::position::lemma_same_fields(p0, a, b);
    if reply_takes_king(p0, a, us) {
        assert forall|q: Position| #[trigger] p0.made(b, q) implies attacks_king(q, us) by {
            assert(p0.made(a, q));
        }
    }
    if reply_takes_king(p0, b, us) {
        assert forall|q: Position| #[trigger] p0.made(a, q) implies attacks_king(q, us) by {
            assert(p0.made(b, q));
        }
    }
}

/// After every move the generator makes in `p`, the opponent can take the
/// king of the side to move of `p`.
#[verifier::opaque]
pub open spec fn checkmated(p: Position) -> bool {
    forall|m: Move| #[trigger] generated(p, m, immobile_set(p, p.side())) ==> reply_takes_king(p, m, p.side())
}

/// For a list that holds exactly the generated moves (up to fields), every
/// list move is answered exactly when every generated move is.
#[verifier::spinoff_prover]
proof fn lemma_answered_all(p0: Position, l: Seq<Move>, imm: Set<int>, us: Color)
    requires
        covers(p0, l, imm),
        all_generated(p0, l, imm),
        imm == immobile_set(p0, p0.side()),
        us == p0.side(),
    ensures
        (forall|j: int| 0 <= j < l.len() ==> reply_takes_king(p0, #[trigger] l[j], us)) == checkmated(p0),
{
    reveal(covers);
    reveal(checkmated);
    if forall|j: int| 0 <= j < l.len() ==> reply_takes_king(p0, #[trigger] l[j], us) {
        assert forall|m: Move| #[trigger] generated(p0, m, imm) implies reply_takes_king(p0, m, us) by {
            let j = choose|j: int| 0 <= j < l.len() && (#[trigger] l[j]).same_fields(m);
            lemma_reply_same_fields(p0, l[j], m, us);
        }
    }
    if forall|m: Move| #[trigger] generated(p0, m, imm) ==> reply_takes_king(p0, m, us) {
        assert forall|j: int| 0 <= j < l.len() implies reply_takes_king(p0, #[trigger] l[j], us) by {
            assert(generated(p0, l[j], imm));
        }
    }
}

/// Every move of `l` is one the generator makes.
pub open spec fn all_generated(p: Position, l: Seq<Move>, imm: Set<int>) -> bool {
    forall|i: int| 0 <= i < l.len() ==> generated(p, #[trigger] l[i], imm)
}

/// A square outside the occupancy `total` is empty.
proof fn lemma_empty_square(pos: Position, total: u64, t: int)
    requires
        pos.wf(),
        total == pos.bbw(0) | pos.bbw(8),
        0 <= t < 64,
        !bit(total, t),
    ensures
        pos.piece_at(t) == Piece::Empty,
        !pos.occupied_by(Color::White, t),
        !pos.occupied_by(Color::Black, t),
{
    lemma_or(pos.bbw(0), pos.bbw(8));
    assert(squares(total).contains(t) == bit(total, t));
    assert(pos.cell_ok(t));
}

/// `l` holds a move of a `k` from `f` to `t`.
pub open spec fn has_move(l: Seq<Move>, f: int, t: int, k: Piece) -> bool {
    exists|i: int| 0 <= i < l.len() && (#[trigger] l[i]).from_sq() == f && l[i].to_sq() == t && l[i].piece() == k
}

/// `f` is the lowest square of `own` outside `immobile`.
pub open spec fn lowest_free(own: u64, immobile: u64, f: int) -> bool {
    bit(own, f) && !bit(immobile, f) && forall|g: int| 0 <= g < f ==> !(bit(own, g) && !bit(immobile, g))
}

/// Squares next to the enemy immobilizer (the lowest, if there are several),
/// where pieces of `us` do not move.
pub open spec fn immobile_set(p: Position, us: Color) -> Set<int> {
    let w = p.bbw(slot(us.flip(), Piece::Immobilizer));
    if w == 0 { Set::empty() } else { king_ring(crate::bitboard::lsb(w)) }
}

/// Squares next to an enemy chameleon, where the immobilizer of `us` does not move.
pub open spec fn near_chameleons(p: Position, us: Color) -> Set<int> {
    Set::new(|t: int| exists|c: int| bit(p.bbw(slot(us.flip(), Piece::Chameleon)), c) && #[trigger] king_ring(c).contains(t))
}

/// `f` is the lowest square of `own` outside `imm`.
pub open spec fn lowest_outside(own: u64, imm: Set<int>, f: int) -> bool {
    bit(own, f) && !imm.contains(f) && forall|g: int| 0 <= g < f ==> !(bit(own, g) && !imm.contains(g))
}

/// `t` is an empty square that a slider on `f` reaches along a line.
pub open spec fn slide_dest(f: int, total: u64, t: int) -> bool {
    orth_reach(f, total).union(diag_reach(f, total)).contains(t) && !bit(total, t)
}

/// The lowest square of `own & !immobile`, found by a scan, is the one
/// `lowest_free` describes.
proof fn lemma_lowest(own: u64, immobile: u64, from: int, f: int)
    requires
        squares(own & !immobile).contains(from),
        forall|j: int| 0 <= j < from ==> !squares(own & !immobile).contains(j),
        lowest_free(own, immobile, f),
    ensures
        f == from,
{
    lemma_and_not(own, immobile);
    if f < from {
        assert(squares(own & !immobile).contains(f));
    } else if from < f {
        assert(bit(own, from) && !bit(immobile, from));
    }
}

proof fn lemma_lowest_outside(own: u64, immobile: u64, imm: Set<int>, from: int)
    requires
        squares(own & !immobile).contains(from),
        forall|j: int| 0 <= j < from ==> !squares(own & !immobile).contains(j),
        forall|g: int| bit(immobile, g) <==> imm.contains(g),
    ensures
        lowest_outside(own, imm, from),
{
    lemma_and_not(own, immobile);
    assert forall|g: int| 0 <= g < from implies !(bit(own, g) && !imm.contains(g)) by {
        assert(!squares(own & !immobile).contains(g));
    }
}

proof fn lemma_no_lowest(own: u64, immobile: u64, f: int)
    requires
        own & !immobile == 0,
    ensures
        !lowest_free(own, immobile, f),
{
    lemma_and_not(own, immobile);
    lemma_empty_full();
    if lowest_free(own, immobile, f) {
        assert(squares(own & !immobile).contains(f));
    }
}

/// `l` holds a move of a `k` from `f` to `t` whose first capture slot is `c`.
pub open spec fn has_move_taking(l: Seq<Move>, f: int, t: int, k: Piece, c: Piece) -> bool {
    exists|i: int| 0 <= i < l.len() && (#[trigger] l[i]).from_sq() == f && l[i].to_sq() == t && l[i].piece() == k
        && l[i].c1() == c
}

/// Appends a playable move to a list of playable moves.
fn push_playable(pos: &Position, list: &mut MoveList, m: Move, Ghost(imm): Ghost<Set<int>>)
    requires
        pos.all_playable(old(list)@),
        pos.playable(m),
        all_generated(*pos, old(list)@, imm),
        generated(*pos, m, imm),
    ensures
        final(list)@ == old(list)@.push(m),
        pos.all_playable(final(list)@),
        all_generated(*pos, final(list)@, imm),
        has_move(final(list)@, m.from_sq(), m.to_sq(), m.piece()),
        forall|f: int, t: int, k: Piece| has_move(old(list)@, f, t, k) ==> #[trigger] has_move(final(list)@, f, t, k),
        has_move_taking(final(list)@, m.from_sq(), m.to_sq(), m.piece(), m.c1()),
        forall|f: int, t: int, k: Piece, c: Piece| has_move_taking(old(list)@, f, t, k, c)
            ==> #[trigger] has_move_taking(final(list)@, f, t, k, c),
{
    let ghost before = list@;
    list.add_move(m);
    assert forall|i: int| 0 <= i < list@.len() implies pos.playable(#[trigger] list@[i]) by {
        if i < before.len() {
            assert(list@[i] == before[i]);
        }
    }
    assert forall|i: int| 0 <= i < list@.len() implies generated(*pos, #[trigger] list@[i], imm) by {
        if i < before.len() {
            assert(list@[i] == before[i]);
        }
    }
    assert(list@[before.len() as int] == m);
    assert forall|f: int, t: int, k: Piece| has_move(before, f, t, k) implies #[trigger] has_move(list@, f, t, k) by {
        let i = choose|i: int| 0 <= i < before.len() && (#[trigger] before[i]).from_sq() == f && before[i].to_sq() == t
            && before[i].piece() == k;
        assert(list@[i] == before[i]);
    }
    assert forall|f: int, t: int, k: Piece, c: Piece| has_move_taking(before, f, t, k, c)
        implies #[trigger] has_move_taking(list@, f, t, k, c) by {
        let i = choose|i: int| 0 <= i < before.len() && (#[trigger] before[i]).from_sq() == f && before[i].to_sq() == t
            && before[i].piece() == k && before[i].c1() == c;
        assert(list@[i] == before[i]);
    }
}

/// A list that holds only generated moves and has every allowed origin and
/// destination holds every generated move.
proof fn lemma_covers(p: Position, l: Seq<Move>)
    requires
        p.wf(),
        all_generated(p, l, immobile_set(p, p.side())),
        complete(p, l),
    ensures
        forall|m: Move| #[trigger] generated(p, m, immobile_set(p, p.side()))
            ==> exists|i: int| 0 <= i < l.len() && (#[trigger] l[i]).same_fields(m),
{
    reveal(complete);
    let us = p.side();
    let total = p.bbw(0) | p.bbw(8);
    let imm = immobile_set(p, us);
    assert forall|m: Move| #[trigger] generated(p, m, imm)
        implies exists|i: int| 0 <= i < l.len() && (#[trigger] l[i]).same_fields(m) by {
        let f = m.from_sq();
        let t = m.to_sq();
        let k = m.piece();
        if k == Piece::Springer {
            if slide_dest(f, total, t) && m.is_move(f, t, Piece::Springer, Piece::Empty, Piece::Empty,
                Piece::Empty, Piece::Empty, false, false, false, false) {
                assert(has_move_taking(l, f, t, Piece::Springer, Piece::Empty));
                let i = choose|i: int| 0 <= i < l.len() && (#[trigger] l[i]).from_sq() == f
                    && l[i].to_sq() == t && l[i].piece() == Piece::Springer && l[i].c1() == Piece::Empty;
                assert(generated(p, l[i], imm));
                if springer_victim(f, t).is_some() {
                    let v = springer_victim(f, t).unwrap();
                    if bit(p.bbw(us.flip().tag()), v) {
                        assert(p.cell_ok(v));
                        if us == Color::White {
                            assert(p.occupied_by(Color::Black, v));
                        } else {
                            assert(p.occupied_by(Color::White, v));
                        }
                        assert(p.piece_at(v) != Piece::Empty);
                    }
                }
                assert(l[i].same_fields(m));
            } else {
                let v = springer_victim(f, t).unwrap();
                assert(springer_landing(f, v) == Some(t));
                assert(has_move_taking(l, f, springer_landing(f, v).unwrap(), Piece::Springer, p.piece_at(v)));
                let i = choose|i: int| 0 <= i < l.len() && (#[trigger] l[i]).from_sq() == f
                    && l[i].to_sq() == t && l[i].piece() == Piece::Springer && l[i].c1() == p.piece_at(v);
                assert(generated(p, l[i], imm));
                assert(p.cell_ok(v));
                if us == Color::White {
                    assert(p.occupied_by(Color::Black, v));
                } else {
                    assert(p.occupied_by(Color::White, v));
                }
                assert(p.piece_at(v) != Piece::Empty);
                assert(l[i].same_fields(m));
            }
        } else {
            if k == Piece::Stradler {
                assert(has_move(l, f, t, k));
            } else if k == Piece::Coordinator {
                assert(has_move(l, f, t, k));
            } else if k == Piece::Retractor {
                assert(has_move(l, f, t, k));
            } else if k == Piece::Immobilizer {
                assert(has_move(l, f, t, k));
            } else {
                assert(k == Piece::King);
                assert(has_move(l, f, t, k));
            }
            let i = choose|i: int| 0 <= i < l.len() && (#[trigger] l[i]).from_sq() == f
                && l[i].to_sq() == t && l[i].piece() == k;
            assert(generated(p, l[i], imm));
            assert(l[i].same_fields(m));
        }
    }
}

impl Position {
    /// Capture slot `d` of a stradler arriving on `to` from `from`: the enemy
    /// piece one step away when a friendly stradler or king stands two steps
    /// away, or an enemy stradler there when a friendly chameleon does.
    fn stradler_slot(&self, to: usize, from: usize, d: usize, us: Color) -> (r: Piece)
        requires
            self.wf(),
            to < 64,
            d < 4,
        ensures
            r != Piece::Empty ==> custodian_square(to as int, from as int, d as int).is_some()
                && self.holds(us.flip(), r, custodian_square(to as int, from as int, d as int).unwrap()),
            r == stradler_capture(*self, us, to as int, from as int, d as int),
    {
        let them = us.opposite();
        let sq = custodian_of(to, from, d);
        match sq {
            None => Piece::Empty,
            Some(s) => {
                let b = step_square(to, d, 2).unwrap();
                if bit_set(self.bitboard(slot_index(us, Piece::Stradler)).0, b)
                    || bit_set(self.bitboard(slot_index(us, Piece::King)).0, b) {
                    piece_of_color(self, Some(s), Ghost(Some(s as int)), them)
                } else if bit_set(self.bitboard(slot_index(us, Piece::Chameleon)).0, b)
                    && piece_of_color(self, Some(s), Ghost(Some(s as int)), them) == Piece::Stradler {
                    Piece::Stradler
                } else {
                    Piece::Empty
                }
            },
        }
    }

    /// Adds the moves of every stradler of `us` not in `immobile`: one for
    /// each empty square it slides to orthogonally.
    fn gen_stradlers(&self, list: &mut MoveList, us: Color, immobile: u64, Ghost(imm): Ghost<Set<int>>, total: u64)
        requires
            self.wf(),
            us == self.side(),
            total == self.bbw(0) | self.bbw(8),
            self.all_playable(old(list)@),
            all_generated(*self, old(list)@, imm),
            forall|g: int| bit(immobile, g) <==> imm.contains(g),
        ensures
            self.all_playable(final(list)@),
            all_generated(*self, final(list)@, imm),
            forall|f: int, t: int, k: Piece| has_move(old(list)@, f, t, k) ==> #[trigger] has_move(final(list)@, f, t, k),
            forall|f: int, t: int| bit(self.bbw(slot(us, Piece::Stradler)), f) && !bit(immobile, f)
                && orth_reach(f, total).contains(t) && !bit(total, t)
                ==> #[trigger] has_move(final(list)@, f, t, Piece::Stradler),
    {
        let ghost l0 = list@;
        let own = self.bitboard(slot_index(us, Piece::Stradler)).0;
        let mut froms = Bitboard(own & !immobile);
        proof {
            lemma_and_not(own, immobile);
        }
        while !froms.is_empty()
            invariant
                self.wf(),
                us == self.side(),
                total == self.bbw(0) | self.bbw(8),
                own == self.bbw(slot(us, Piece::Stradler)),
                self.all_playable(list@),
                all_generated(*self, list@, imm),
                forall|g: int| bit(immobile, g) <==> imm.contains(g),
                forall|s: int| #[trigger] froms@.contains(s) ==> bit(own, s) && !bit(immobile, s),
                forall|f: int, t: int, k: Piece| has_move(l0, f, t, k) ==> #[trigger] has_move(list@, f, t, k),
                forall|f: int, t: int| bit(own, f) && !bit(immobile, f) && !froms@.contains(f)
                    && orth_reach(f, total).contains(t) && !bit(total, t)
                    ==> #[trigger] has_move(list@, f, t, Piece::Stradler),
            decreases froms.0,
        {
            let ghost froms_before = froms@;
            let from = froms.pop_lsb();
            proof {
                lemma_word_squares(*self, us, Piece::Stradler, from as int);
            }
            let reach = generate_orthogonal_moves(from, Bitboard(total)).0;
            let mut tos = Bitboard(reach & !total);
            proof {
                lemma_and_not(reach, total);
            }
            let ghost l1 = list@;
            while !tos.is_empty()
                invariant
                    self.wf(),
                    us == self.side(),
                    total == self.bbw(0) | self.bbw(8),
                    from < 64,
                    self.holds(us, Piece::Stradler, from as int),
                    self.all_playable(list@),
                    all_generated(*self, list@, imm),
                    forall|g: int| bit(immobile, g) <==> imm.contains(g),
                    bit(self.bbw(slot(us, Piece::Stradler)), from as int) && !imm.contains(from as int),
                forall|g: int| bit(immobile, g) <==> imm.contains(g),
                all_generated(*self, list@, imm),
                    forall|t: int| #[trigger] tos@.contains(t) ==> !bit(total, t) && orth_reach(from as int, total).contains(t),
                    forall|f: int, t: int, k: Piece| has_move(l1, f, t, k) ==> #[trigger] has_move(list@, f, t, k),
                    forall|t: int| orth_reach(from as int, total).contains(t) && !bit(total, t) && !tos@.contains(t)
                        ==> #[trigger] has_move(list@, from as int, t, Piece::Stradler),
                decreases tos.0,
            {
                let to = tos.pop_lsb();
                proof {
                    lemma_empty_square(*self, total, to as int);
                }
                let north = self.stradler_slot(to, from, 0, us);
                let east = self.stradler_slot(to, from, 1, us);
                let south = self.stradler_slot(to, from, 2, us);
                let west = self.stradler_slot(to, from, 3, us);
                let m = Move::build(from, to, Piece::Stradler, north, east, south, west, false, false, false, false);
                assert(self.playable(m)) by {
                    assert(self.captures(m, us).len() == 4);
                }
                push_playable(self, list, m, Ghost(imm));
            }
            assert forall|f: int, t: int| bit(own, f) && !bit(immobile, f) && !froms@.contains(f)
                && orth_reach(f, total).contains(t) && !bit(total, t)
                implies #[trigger] has_move(list@, f, t, Piece::Stradler) by {
                if f != from {
                    assert(!froms_before.contains(f));
                    assert(has_move(l1, f, t, Piece::Stradler));
                } else {
                    assert(squares(reach).contains(t));
                    assert(squares(reach & !total).contains(t));
                    assert(tos@ == Set::<int>::empty()) by {
                        lemma_empty_full();
                    }
                    assert(!tos@.contains(t));
                }
            }
        }
        proof {
            lemma_empty_full();
        }
    }

    /// Empty squares a slider on `from` reaches, orthogonally and diagonally.
    fn slide_targets(from: usize, total: u64) -> (r: Bitboard)
        requires
            from < 64,
        ensures
            forall|t: int| #[trigger] r@.contains(t) ==> 0 <= t < 64 && !bit(total, t),
            r@ == orth_reach(from as int, total).union(diag_reach(from as int, total)).difference(squares(total)),
    {
        let o = generate_orthogonal_moves(from, Bitboard(total)).0;
        let d = generate_diagonal_moves(from, Bitboard(total)).0;
        proof {
            lemma_and_not(o | d, total);
            lemma_or(o, d);
        }
        Bitboard((o | d) & !total)
    }

    /// The coordinator move from `from` to the empty square `to`, recording
    /// the enemy pieces on its death squares with the king and the enemy king
    /// on those with each chameleon.
    #[verifier::rlimit(40)]
    fn coordinator_move(&self, from: usize, to: usize, king: Option<usize>, c0: Option<usize>, c1: Option<usize>,
        us: Color) -> (m: Move)
        requires
            self.wf(),
            us == self.side(),
            from < 64,
            to < 64,
            self.holds(us, Piece::Coordinator, from as int),
            self.piece_at(to as int) == Piece::Empty,
            same_square(king, self.king_of(us)),
            same_square(c0, self.chameleon_of(us, 0)),
            same_square(c1, self.chameleon_of(us, 1)),
            king.is_some() ==> king.unwrap() < 64,
            c0.is_some() ==> c0.unwrap() < 64,
            c1.is_some() ==> c1.unwrap() < 64,
        ensures
            self.playable(m),
            m.from_sq() == from && m.to_sq() == to && m.piece() == Piece::Coordinator,
            m.is_move(from as int, to as int, Piece::Coordinator,
                enemy_piece(*self, us.flip(), death_with(to as int, self.king_of(us), 0)),
                enemy_piece(*self, us.flip(), death_with(to as int, self.king_of(us), 1)), Piece::Empty, Piece::Empty,
                enemy_piece(*self, us.flip(), death_with(to as int, self.chameleon_of(us, 0), 0)) == Piece::King,
                enemy_piece(*self, us.flip(), death_with(to as int, self.chameleon_of(us, 0), 1)) == Piece::King,
                enemy_piece(*self, us.flip(), death_with(to as int, self.chameleon_of(us, 1), 0)) == Piece::King,
                enemy_piece(*self, us.flip(), death_with(to as int, self.chameleon_of(us, 1), 1)) == Piece::King),
    {
        let them = us.opposite();
        let d0 = death_of(to, king, Ghost(self.king_of(us)), 0);
        let d1 = death_of(to, king, Ghost(self.king_of(us)), 1);
        let e0 = death_of(to, c0, Ghost(self.chameleon_of(us, 0)), 0);
        let e1 = death_of(to, c0, Ghost(self.chameleon_of(us, 0)), 1);
        let e2 = death_of(to, c1, Ghost(self.chameleon_of(us, 1)), 0);
        let e3 = death_of(to, c1, Ghost(self.chameleon_of(us, 1)), 1);
        let k0 = piece_of_color(self, d0, Ghost(death_with(to as int, self.king_of(us), 0)), them);
        let k1 = piece_of_color(self, d1, Ghost(death_with(to as int, self.king_of(us), 1)), them);
        let f5 = piece_of_color(self, e0, Ghost(death_with(to as int, self.chameleon_of(us, 0), 0)), them) == Piece::King;
        let f6 = piece_of_color(self, e1, Ghost(death_with(to as int, self.chameleon_of(us, 0), 1)), them) == Piece::King;
        let f7 = piece_of_color(self, e2, Ghost(death_with(to as int, self.chameleon_of(us, 1), 0)), them) == Piece::King;
        let f8 = piece_of_color(self, e3, Ghost(death_with(to as int, self.chameleon_of(us, 1), 1)), them) == Piece::King;
        let m = Move::build(from, to, Piece::Coordinator, k0, k1, Piece::Empty, Piece::Empty, f5, f6, f7, f8);
        let ghost cs = self.captures(m, us);
        assert(cs.len() == 6);
        assert(forall|i: int| 0 <= i < cs.len() && (#[trigger] cs[i]).1 != Piece::Empty
            ==> cs[i].0.is_some() && self.holds(us.flip(), cs[i].1, cs[i].0.unwrap()));
        m
    }

    /// Adds the moves of the first coordinator of `us`, unless it is in `immobile`.
    fn gen_coordinator(&self, list: &mut MoveList, us: Color, immobile: u64, Ghost(imm): Ghost<Set<int>>, total: u64)
        requires
            self.wf(),
            us == self.side(),
            total == self.bbw(0) | self.bbw(8),
            self.all_playable(old(list)@),
            all_generated(*self, old(list)@, imm),
            forall|g: int| bit(immobile, g) <==> imm.contains(g),
        ensures
            self.all_playable(final(list)@),
            all_generated(*self, final(list)@, imm),
            forall|f: int, t: int, k: Piece| has_move(old(list)@, f, t, k) ==> #[trigger] has_move(final(list)@, f, t, k),
            forall|f: int, t: int| lowest_free(self.bbw(slot(us, Piece::Coordinator)), immobile, f) && slide_dest(f, total, t)
                ==> #[trigger] has_move(final(list)@, f, t, Piece::Coordinator),
    {
        let them = us.opposite();
        let own = self.bitboard(slot_index(us, Piece::Coordinator)).0;
        let mut froms = Bitboard(own & !immobile);
        proof {
            lemma_and_not(own, immobile);
        }
        if froms.is_empty() {
            assert forall|f: int, t: int| lowest_free(own, immobile, f) && slide_dest(f, total, t)
                implies #[trigger] has_move(list@, f, t, Piece::Coordinator) by {
                lemma_no_lowest(own, immobile, f);
            }
            return;
        }
        let from = froms.pop_lsb();
        proof {
            lemma_lowest_outside(own, immobile, imm, from as int);
            lemma_word_squares(*self, us, Piece::Coordinator, from as int);
        }
        let king = first_of(self.bitboard(slot_index(us, Piece::King)).0);
        let cham = self.bitboard(slot_index(us, Piece::Chameleon)).0;
        let c0 = first_of(cham);
        let c1 = second_of(cham);
        let mut tos = Position::slide_targets(from, total);
        let ghost l0 = list@;
        while !tos.is_empty()
            invariant
                self.wf(),
                us == self.side(),
                them == us.flip(),
                total == self.bbw(0) | self.bbw(8),
                from < 64,
                self.holds(us, Piece::Coordinator, from as int),
                same_square(king, self.king_of(us)),
                same_square(c0, self.chameleon_of(us, 0)),
                same_square(c1, self.chameleon_of(us, 1)),
                king.is_some() ==> king.unwrap() < 64,
                c0.is_some() ==> c0.unwrap() < 64,
                c1.is_some() ==> c1.unwrap() < 64,
                self.all_playable(list@),
                all_generated(*self, list@, imm),
                lowest_outside(own, imm, from as int),
                own == self.bbw(slot(us, Piece::Coordinator)),
                forall|t: int| #[trigger] tos@.contains(t) ==> 0 <= t < 64 && !bit(total, t) && slide_dest(from as int, total, t),
                forall|t: int| slide_dest(from as int, total, t) && !tos@.contains(t)
                    ==> #[trigger] has_move(list@, from as int, t, Piece::Coordinator),
                forall|f: int, t: int, k: Piece| has_move(l0, f, t, k) ==> #[trigger] has_move(list@, f, t, k),
            decreases tos.0,
        {
            let to = tos.pop_lsb();
            proof {
                lemma_empty_square(*self, total, to as int);
            }
            let m = self.coordinator_move(from, to, king, c0, c1, us);
            push_playable(self, list, m, Ghost(imm));
        }
        proof {
            lemma_empty_full();
        }
        assert forall|f: int, t: int| lowest_free(own, immobile, f) && slide_dest(f, total, t)
            implies #[trigger] has_move(list@, f, t, Piece::Coordinator) by {
            lemma_lowest(own, immobile, from as int, f);
        }
    }

    /// Adds the moves of every springer of `us` not in `immobile`: slides to
    /// empty squares, and leaps over an enemy piece it reaches onto the empty
    /// square just beyond.
    fn gen_springers(&self, list: &mut MoveList, us: Color, immobile: u64, Ghost(imm): Ghost<Set<int>>, total: u64)
        requires
            self.wf(),
            us == self.side(),
            total == self.bbw(0) | self.bbw(8),
            self.all_playable(old(list)@),
            all_generated(*self, old(list)@, imm),
            forall|g: int| bit(immobile, g) <==> imm.contains(g),
        ensures
            self.all_playable(final(list)@),
            all_generated(*self, final(list)@, imm),
            forall|f: int, t: int, k: Piece| has_move(old(list)@, f, t, k) ==> #[trigger] has_move(final(list)@, f, t, k),
            forall|f: int, t: int, k: Piece, c: Piece| has_move_taking(old(list)@, f, t, k, c)
                ==> #[trigger] has_move_taking(final(list)@, f, t, k, c),
            forall|f: int, t: int| bit(self.bbw(slot(us, Piece::Springer)), f) && !bit(immobile, f) && slide_dest(f, total, t)
                ==> #[trigger] has_move_taking(final(list)@, f, t, Piece::Springer, Piece::Empty),
            forall|f: int, v: int| bit(self.bbw(slot(us, Piece::Springer)), f) && !bit(immobile, f)
                && orth_reach(f, total).union(diag_reach(f, total)).contains(v) && bit(self.bbw(us.flip().tag()), v)
                && springer_landing(f, v).is_some() && !bit(total, springer_landing(f, v).unwrap())
                ==> #[trigger] has_move_taking(final(list)@, f, springer_landing(f, v).unwrap(), Piece::Springer, self.piece_at(v)),
    {
        let them = us.opposite();
        let own = self.bitboard(slot_index(us, Piece::Springer)).0;
        let enemy = self.bitboard(them.index()).0;
        let mut froms = Bitboard(own & !immobile);
        proof {
            lemma_and_not(own, immobile);
        }
        let ghost l0 = list@;
        while !froms.is_empty()
            invariant
                self.wf(),
                us == self.side(),
                them == us.flip(),
                total == self.bbw(0) | self.bbw(8),
                own == self.bbw(slot(us, Piece::Springer)),
                enemy == self.bbw(them.tag()),
                self.all_playable(list@),
                all_generated(*self, list@, imm),
                forall|g: int| bit(immobile, g) <==> imm.contains(g),
                forall|s: int| #[trigger] froms@.contains(s) ==> bit(own, s) && !bit(immobile, s),
                forall|f: int, t: int, k: Piece| has_move(l0, f, t, k) ==> #[trigger] has_move(list@, f, t, k),
                forall|f: int, t: int, k: Piece, c: Piece| has_move_taking(l0, f, t, k, c) ==> #[trigger] has_move_taking(list@, f, t, k, c),
                forall|f: int, t: int| bit(own, f) && !bit(immobile, f) && !froms@.contains(f) && slide_dest(f, total, t)
                    ==> #[trigger] has_move_taking(list@, f, t, Piece::Springer, Piece::Empty),
                forall|f: int, v: int| bit(own, f) && !bit(immobile, f) && !froms@.contains(f)
                    && orth_reach(f, total).union(diag_reach(f, total)).contains(v) && bit(enemy, v)
                    && springer_landing(f, v).is_some() && !bit(total, springer_landing(f, v).unwrap())
                    ==> #[trigger] has_move_taking(list@, f, springer_landing(f, v).unwrap(), Piece::Springer, self.piece_at(v)),
            decreases froms.0,
        {
            let ghost froms_before = froms@;
            let from = froms.pop_lsb();
            proof {
                lemma_word_squares(*self, us, Piece::Springer, from as int);
            }
            let ghost l1 = list@;
            let mut tos = Position::slide_targets(from, total);
            while !tos.is_empty()
                invariant
                    self.wf(),
                    us == self.side(),
                    total == self.bbw(0) | self.bbw(8),
                    from < 64,
                    self.holds(us, Piece::Springer, from as int),
                    self.all_playable(list@),
                    all_generated(*self, list@, imm),
                    forall|g: int| bit(immobile, g) <==> imm.contains(g),
                    bit(self.bbw(slot(us, Piece::Springer)), from as int) && !imm.contains(from as int),
                forall|g: int| bit(immobile, g) <==> imm.contains(g),
                all_generated(*self, list@, imm),
                    forall|t: int| #[trigger] tos@.contains(t) ==> 0 <= t < 64 && !bit(total, t) && slide_dest(from as int, total, t),
                    forall|f: int, t: int, k: Piece| has_move(l1, f, t, k) ==> #[trigger] has_move(list@, f, t, k),
                forall|f: int, t: int, k: Piece, c: Piece| has_move_taking(l1, f, t, k, c) ==> #[trigger] has_move_taking(list@, f, t, k, c),
                    forall|t: int| slide_dest(from as int, total, t) && !tos@.contains(t)
                        ==> #[trigger] has_move_taking(list@, from as int, t, Piece::Springer, Piece::Empty),
                decreases tos.0,
            {
                let to = tos.pop_lsb();
                proof {
                    lemma_empty_square(*self, total, to as int);
                }
                let m = Move::build(from, to, Piece::Springer, Piece::Empty, Piece::Empty, Piece::Empty, Piece::Empty,
                    false, false, false, false);
                assert(self.playable(m)) by {
                    assert(self.captures(m, us).len() == 1);
                }
                push_playable(self, list, m, Ghost(imm));
            }
            proof {
                lemma_empty_full();
            }
            let ghost l2 = list@;
            let o = generate_orthogonal_moves(from, Bitboard(total)).0;
            let d = generate_diagonal_moves(from, Bitboard(total)).0;
            let mut victims = Bitboard((o | d) & enemy);
            proof {
                lemma_and(o | d, enemy);
                lemma_or(o, d);
            }
            while !victims.is_empty()
                invariant
                    self.wf(),
                    us == self.side(),
                    them == us.flip(),
                    total == self.bbw(0) | self.bbw(8),
                    enemy == self.bbw(them.tag()),
                    from < 64,
                    self.holds(us, Piece::Springer, from as int),
                    self.all_playable(list@),
                    all_generated(*self, list@, imm),
                    forall|g: int| bit(immobile, g) <==> imm.contains(g),
                    bit(self.bbw(slot(us, Piece::Springer)), from as int) && !imm.contains(from as int),
                forall|g: int| bit(immobile, g) <==> imm.contains(g),
                all_generated(*self, list@, imm),
                    forall|t: int| #[trigger] victims@.contains(t) ==> 0 <= t < 64 && bit(enemy, t)
                        && orth_reach(from as int, total).union(diag_reach(from as int, total)).contains(t),
                    forall|f: int, t: int, k: Piece| has_move(l2, f, t, k) ==> #[trigger] has_move(list@, f, t, k),
                forall|f: int, t: int, k: Piece, c: Piece| has_move_taking(l2, f, t, k, c) ==> #[trigger] has_move_taking(list@, f, t, k, c),
                    forall|v: int| orth_reach(from as int, total).union(diag_reach(from as int, total)).contains(v)
                        && bit(enemy, v) && !victims@.contains(v)
                        && springer_landing(from as int, v).is_some() && !bit(total, springer_landing(from as int, v).unwrap())
                        ==> #[trigger] has_move_taking(list@, from as int, springer_landing(from as int, v).unwrap(), Piece::Springer, self.piece_at(v)),
                decreases victims.0,
            {
                let v = victims.pop_lsb();
                match springer_landing_square(from, v) {
                    Some(l) => {
                        if !bit_set(total, l) {
                            proof {
                                lemma_empty_square(*self, total, l as int);
                                lemma_springer_round_trip(from as int, v as int);
                            }
                            let c1 = piece_of_color(self, Some(v), Ghost(Some(v as int)), them);
                            let m = Move::build(from, l, Piece::Springer, c1, Piece::Empty, Piece::Empty, Piece::Empty,
                                false, false, false, false);
                            assert(self.playable(m)) by {
                                assert(self.captures(m, us).len() == 1);
                                assert(springer_victim(from as int, l as int) == Some(v as int));
                            }
                            push_playable(self, list, m, Ghost(imm));
                        }
                    },
                    None => {},
                }
            }
            proof {
                lemma_empty_full();
            }
            assert forall|f: int, t: int| bit(own, f) && !bit(immobile, f) && !froms@.contains(f) && slide_dest(f, total, t)
                implies #[trigger] has_move_taking(list@, f, t, Piece::Springer, Piece::Empty) by {
                if f != from {
                    assert(!froms_before.contains(f));
                    assert(has_move_taking(l1, f, t, Piece::Springer, Piece::Empty));
                    assert(has_move_taking(l2, f, t, Piece::Springer, Piece::Empty));
                } else {
                    assert(has_move_taking(l2, f, t, Piece::Springer, Piece::Empty));
                }
            }
            assert forall|f: int, v: int| bit(own, f) && !bit(immobile, f) && !froms@.contains(f)
                && orth_reach(f, total).union(diag_reach(f, total)).contains(v) && bit(enemy, v)
                && springer_landing(f, v).is_some() && !bit(total, springer_landing(f, v).unwrap())
                implies #[trigger] has_move_taking(list@, f, springer_landing(f, v).unwrap(), Piece::Springer, self.piece_at(v)) by {
                if f != from {
                    assert(!froms_before.contains(f));
                    assert(has_move_taking(l1, f, springer_landing(f, v).unwrap(), Piece::Springer, self.piece_at(v)));
                    assert(has_move_taking(l2, f, springer_landing(f, v).unwrap(), Piece::Springer, self.piece_at(v)));
                } else {
                    assert(squares((o | d) & enemy).contains(v));
                }
            }
        }
        proof {
            lemma_empty_full();
        }
    }

    /// Adds the moves of the first retractor of `us`, unless it is in
    /// `immobile`; a step away from an adjacent enemy piece captures it.
    fn gen_retractor(&self, list: &mut MoveList, us: Color, immobile: u64, Ghost(imm): Ghost<Set<int>>, total: u64)
        requires
            self.wf(),
            us == self.side(),
            total == self.bbw(0) | self.bbw(8),
            self.all_playable(old(list)@),
            all_generated(*self, old(list)@, imm),
            forall|g: int| bit(immobile, g) <==> imm.contains(g),
        ensures
            self.all_playable(final(list)@),
            all_generated(*self, final(list)@, imm),
            forall|f: int, t: int, k: Piece| has_move(old(list)@, f, t, k) ==> #[trigger] has_move(final(list)@, f, t, k),
            forall|f: int, t: int, k: Piece, c: Piece| has_move_taking(old(list)@, f, t, k, c)
                ==> #[trigger] has_move_taking(final(list)@, f, t, k, c),
            forall|f: int, t: int| lowest_free(self.bbw(slot(us, Piece::Retractor)), immobile, f) && slide_dest(f, total, t)
                ==> #[trigger] has_move(final(list)@, f, t, Piece::Retractor),
    {
        let them = us.opposite();
        let own = self.bitboard(slot_index(us, Piece::Retractor)).0;
        let mut froms = Bitboard(own & !immobile);
        proof {
            lemma_and_not(own, immobile);
        }
        if froms.is_empty() {
            assert forall|f: int, t: int| lowest_free(own, immobile, f) && slide_dest(f, total, t)
                implies #[trigger] has_move(list@, f, t, Piece::Retractor) by {
                lemma_no_lowest(own, immobile, f);
            }
            return;
        }
        let from = froms.pop_lsb();
        proof {
            lemma_lowest_outside(own, immobile, imm, from as int);
            lemma_word_squares(*self, us, Piece::Retractor, from as int);
        }
        let ghost l0 = list@;
        let mut tos = Position::slide_targets(from, total);
        while !tos.is_empty()
            invariant
                self.wf(),
                us == self.side(),
                them == us.flip(),
                total == self.bbw(0) | self.bbw(8),
                from < 64,
                self.holds(us, Piece::Retractor, from as int),
                self.all_playable(list@),
                all_generated(*self, list@, imm),
                lowest_outside(own, imm, from as int),
                own == self.bbw(slot(us, Piece::Retractor)),
                forall|t: int| #[trigger] tos@.contains(t) ==> 0 <= t < 64 && !bit(total, t) && slide_dest(from as int, total, t),
                forall|f: int, t: int, k: Piece| has_move(l0, f, t, k) ==> #[trigger] has_move(list@, f, t, k),
                forall|f: int, t: int, k: Piece, c: Piece| has_move_taking(l0, f, t, k, c) ==> #[trigger] has_move_taking(list@, f, t, k, c),
                forall|t: int| slide_dest(from as int, total, t) && !tos@.contains(t)
                    ==> #[trigger] has_move(list@, from as int, t, Piece::Retractor),
            decreases tos.0,
        {
            let to = tos.pop_lsb();
            proof {
                lemma_empty_square(*self, total, to as int);
            }
            let c1 = piece_of_color(self, retractor_captured_square(from, to), Ghost(retractor_victim(from as int, to as int)), them);
            let m = Move::build(from, to, Piece::Retractor, c1, Piece::Empty, Piece::Empty, Piece::Empty,
                false, false, false, false);
            assert(self.playable(m)) by {
                assert(self.captures(m, us).len() == 1);
            }
            push_playable(self, list, m, Ghost(imm));
        }
        proof {
            lemma_empty_full();
        }
        assert forall|f: int, t: int| lowest_free(own, immobile, f) && slide_dest(f, total, t)
            implies #[trigger] has_move(list@, f, t, Piece::Retractor) by {
            lemma_lowest(own, immobile, from as int, f);
        }
    }

    /// Adds the moves of the first immobilizer of `us`, unless it is in
    /// `immobile`; it never captures.
    fn gen_immobilizer(&self, list: &mut MoveList, us: Color, immobile: u64, Ghost(imm): Ghost<Set<int>>, total: u64)
        requires
            self.wf(),
            us == self.side(),
            total == self.bbw(0) | self.bbw(8),
            self.all_playable(old(list)@),
            all_generated(*self, old(list)@, imm),
            forall|g: int| bit(immobile, g) <==> imm.union(near_chameleons(*self, us)).contains(g),
        ensures
            self.all_playable(final(list)@),
            all_generated(*self, final(list)@, imm),
            forall|f: int, t: int, k: Piece| has_move(old(list)@, f, t, k) ==> #[trigger] has_move(final(list)@, f, t, k),
            forall|f: int, t: int, k: Piece, c: Piece| has_move_taking(old(list)@, f, t, k, c)
                ==> #[trigger] has_move_taking(final(list)@, f, t, k, c),
            forall|f: int, t: int| lowest_outside(self.bbw(slot(us, Piece::Immobilizer)), imm.union(near_chameleons(*self, us)), f)
                && slide_dest(f, total, t)
                ==> #[trigger] has_move(final(list)@, f, t, Piece::Immobilizer),
    {
        let own = self.bitboard(slot_index(us, Piece::Immobilizer)).0;
        let mut froms = Bitboard(own & !immobile);
        proof {
            lemma_and_not(own, immobile);
        }
        if froms.is_empty() {
            assert forall|f: int, t: int| lowest_outside(own, imm.union(near_chameleons(*self, us)), f) && slide_dest(f, total, t)
                implies #[trigger] has_move(list@, f, t, Piece::Immobilizer) by {
                lemma_no_lowest(own, immobile, f);
            }
            return;
        }
        let from = froms.pop_lsb();
        proof {
            lemma_lowest_outside(own, immobile, imm.union(near_chameleons(*self, us)), from as int);
            lemma_word_squares(*self, us, Piece::Immobilizer, from as int);
        }
        let ghost l0 = list@;
        let mut tos = Position::slide_targets(from, total);
        while !tos.is_empty()
            invariant
                self.wf(),
                us == self.side(),
                total == self.bbw(0) | self.bbw(8),
                from < 64,
                self.holds(us, Piece::Immobilizer, from as int),
                self.all_playable(list@),
                all_generated(*self, list@, imm),
                lowest_outside(own, imm.union(near_chameleons(*self, us)), from as int),
                own == self.bbw(slot(us, Piece::Immobilizer)),
                forall|t: int| #[trigger] tos@.contains(t) ==> 0 <= t < 64 && !bit(total, t) && slide_dest(from as int, total, t),
                forall|f: int, t: int, k: Piece| has_move(l0, f, t, k) ==> #[trigger] has_move(list@, f, t, k),
                forall|f: int, t: int, k: Piece, c: Piece| has_move_taking(l0, f, t, k, c) ==> #[trigger] has_move_taking(list@, f, t, k, c),
                forall|t: int| slide_dest(from as int, total, t) && !tos@.contains(t)
                    ==> #[trigger] has_move(list@, from as int, t, Piece::Immobilizer),
            decreases tos.0,
        {
            let to = tos.pop_lsb();
            proof {
                lemma_empty_square(*self, total, to as int);
            }
            let m = Move::build(from, to, Piece::Immobilizer, Piece::Empty, Piece::Empty, Piece::Empty, Piece::Empty,
                false, false, false, false);
            assert(self.playable(m)) by {
                assert(self.captures(m, us).len() == 0);
            }
            push_playable(self, list, m, Ghost(imm));
        }
        proof {
            lemma_empty_full();
        }
        assert forall|f: int, t: int| lowest_outside(own, imm.union(near_chameleons(*self, us)), f) && slide_dest(f, total, t)
            implies #[trigger] has_move(list@, f, t, Piece::Immobilizer) by {
            lemma_lowest(own, immobile, from as int, f);
        }
    }

    /// The king move from `from` to `to`, a square no friendly piece holds:
    /// it takes the enemy piece there, the enemy pieces on its death squares
    /// with the coordinator, and the enemy coordinator on those with each
    /// chameleon.
    #[verifier::rlimit(40)]
    fn king_move(&self, from: usize, to: usize, co: Option<usize>, c0: Option<usize>, c1: Option<usize>,
        us: Color) -> (m: Move)
        requires
            self.wf(),
            us == self.side(),
            from < 64,
            to < 64,
            self.holds(us, Piece::King, from as int),
            !self.occupied_by(us, to as int),
            same_square(co, self.coordinator_of(us)),
            same_square(c0, self.chameleon_of(us, 0)),
            same_square(c1, self.chameleon_of(us, 1)),
            co.is_some() ==> co.unwrap() < 64,
            c0.is_some() ==> c0.unwrap() < 64,
            c1.is_some() ==> c1.unwrap() < 64,
        ensures
            self.playable(m),
            m.from_sq() == from && m.to_sq() == to && m.piece() == Piece::King,
            m.is_move(from as int, to as int, Piece::King, self.piece_at(to as int),
                enemy_piece(*self, us.flip(), death_with(to as int, self.coordinator_of(us), 0)),
                enemy_piece(*self, us.flip(), death_with(to as int, self.coordinator_of(us), 1)), Piece::Empty,
                enemy_piece(*self, us.flip(), death_with(to as int, self.chameleon_of(us, 0), 0)) == Piece::Coordinator,
                enemy_piece(*self, us.flip(), death_with(to as int, self.chameleon_of(us, 0), 1)) == Piece::Coordinator,
                enemy_piece(*self, us.flip(), death_with(to as int, self.chameleon_of(us, 1), 0)) == Piece::Coordinator,
                enemy_piece(*self, us.flip(), death_with(to as int, self.chameleon_of(us, 1), 1)) == Piece::Coordinator),
    {
        let them = us.opposite();
        let displaced = self.piece_on(to);
        proof {
            assert(self.cell_ok(to as int));
        }
        let d0 = death_of(to, co, Ghost(self.coordinator_of(us)), 0);
        let d1 = death_of(to, co, Ghost(self.coordinator_of(us)), 1);
        let e0 = death_of(to, c0, Ghost(self.chameleon_of(us, 0)), 0);
        let e1 = death_of(to, c0, Ghost(self.chameleon_of(us, 0)), 1);
        let e2 = death_of(to, c1, Ghost(self.chameleon_of(us, 1)), 0);
        let e3 = death_of(to, c1, Ghost(self.chameleon_of(us, 1)), 1);
        let k0 = piece_of_color(self, d0, Ghost(death_with(to as int, self.coordinator_of(us), 0)), them);
        let k1 = piece_of_color(self, d1, Ghost(death_with(to as int, self.coordinator_of(us), 1)), them);
        let f5 = piece_of_color(self, e0, Ghost(death_with(to as int, self.chameleon_of(us, 0), 0)), them) == Piece::Coordinator;
        let f6 = piece_of_color(self, e1, Ghost(death_with(to as int, self.chameleon_of(us, 0), 1)), them) == Piece::Coordinator;
        let f7 = piece_of_color(self, e2, Ghost(death_with(to as int, self.chameleon_of(us, 1), 0)), them) == Piece::Coordinator;
        let f8 = piece_of_color(self, e3, Ghost(death_with(to as int, self.chameleon_of(us, 1), 1)), them) == Piece::Coordinator;
        let m = Move::build(from, to, Piece::King, displaced, k0, k1, Piece::Empty, f5, f6, f7, f8);
        let ghost cs = self.captures(m, us);
        assert(cs.len() == 7);
        assert(forall|i: int| 0 <= i < cs.len() && (#[trigger] cs[i]).1 != Piece::Empty
            ==> cs[i].0.is_some() && self.holds(us.flip(), cs[i].1, cs[i].0.unwrap()));
        m
    }

    /// Adds the moves of the first king of `us`, unless it is in `immobile`:
    /// a step to each neighbour that no friendly piece holds.
    fn gen_king(&self, list: &mut MoveList, us: Color, immobile: u64, Ghost(imm): Ghost<Set<int>>)
        requires
            self.wf(),
            us == self.side(),
            self.all_playable(old(list)@),
            all_generated(*self, old(list)@, imm),
            forall|g: int| bit(immobile, g) <==> imm.contains(g),
        ensures
            self.all_playable(final(list)@),
            all_generated(*self, final(list)@, imm),
            forall|f: int, t: int, k: Piece| has_move(old(list)@, f, t, k) ==> #[trigger] has_move(final(list)@, f, t, k),
            forall|f: int, t: int, k: Piece, c: Piece| has_move_taking(old(list)@, f, t, k, c)
                ==> #[trigger] has_move_taking(final(list)@, f, t, k, c),
            forall|f: int, t: int| lowest_free(self.bbw(slot(us, Piece::King)), immobile, f) && king_ring(f).contains(t)
                && !self.occupied_by(us, t) ==> #[trigger] has_move(final(list)@, f, t, Piece::King),
    {
        let own_king = self.bitboard(slot_index(us, Piece::King)).0;
        let mut froms = Bitboard(own_king & !immobile);
        proof {
            lemma_and_not(own_king, immobile);
        }
        if froms.is_empty() {
            assert forall|f: int, t: int| lowest_free(own_king, immobile, f) && king_ring(f).contains(t)
                && !self.occupied_by(us, t) implies #[trigger] has_move(list@, f, t, Piece::King) by {
                lemma_no_lowest(own_king, immobile, f);
            }
            return;
        }
        let from = froms.pop_lsb();
        proof {
            lemma_lowest_outside(own_king, immobile, imm, from as int);
            lemma_word_squares(*self, us, Piece::King, from as int);
        }
        let own = self.bitboard(us.index()).0;
        let co = first_of(self.bitboard(slot_index(us, Piece::Coordinator)).0);
        let cham = self.bitboard(slot_index(us, Piece::Chameleon)).0;
        let c0 = first_of(cham);
        let c1 = second_of(cham);
        let ring = king_mask(from).0;
        let mut tos = Bitboard(ring & !own);
        proof {
            lemma_and_not(ring, own);
        }
        let ghost l0 = list@;
        while !tos.is_empty()
            invariant
                self.wf(),
                us == self.side(),
                own == self.bbw(us.tag()),
                from < 64,
                squares(ring) == king_ring(from as int),
                self.holds(us, Piece::King, from as int),
                same_square(co, self.coordinator_of(us)),
                same_square(c0, self.chameleon_of(us, 0)),
                same_square(c1, self.chameleon_of(us, 1)),
                co.is_some() ==> co.unwrap() < 64,
                c0.is_some() ==> c0.unwrap() < 64,
                c1.is_some() ==> c1.unwrap() < 64,
                self.all_playable(list@),
                all_generated(*self, list@, imm),
                lowest_outside(own_king, imm, from as int),
                own_king == self.bbw(slot(us, Piece::King)),
                forall|t: int| #[trigger] tos@.contains(t) ==> squares(ring).contains(t) && !bit(own, t),
                forall|f: int, t: int, k: Piece| has_move(l0, f, t, k) ==> #[trigger] has_move(list@, f, t, k),
                forall|f: int, t: int, k: Piece, c: Piece| has_move_taking(l0, f, t, k, c) ==> #[trigger] has_move_taking(list@, f, t, k, c),
                forall|t: int| king_ring(from as int).contains(t) && !bit(own, t) && !tos@.contains(t)
                    ==> #[trigger] has_move(list@, from as int, t, Piece::King),
            decreases tos.0,
        {
            let to = tos.pop_lsb();
            assert(0 <= to < 64);
            let m = self.king_move(from, to, co, c0, c1, us);
            push_playable(self, list, m, Ghost(imm));
        }
        proof {
            lemma_empty_full();
        }
        assert forall|f: int, t: int| lowest_free(own_king, immobile, f) && king_ring(f).contains(t)
            && !self.occupied_by(us, t) implies #[trigger] has_move(list@, f, t, Piece::King) by {
            lemma_lowest(own_king, immobile, from as int, f);
        }
    }

    /// The pseudo-legal moves of the side to move: stradlers, coordinator,
    /// springers, retractor, immobilizer and king, in that order, each piece
    /// from the lowest square up and each destination from the lowest square
    /// up. Pieces next to the enemy immobilizer do not move, nor does an
    /// immobilizer next to an enemy chameleon; of the coordinator, retractor,
    /// immobilizer and king only the lowest that may move does. Chameleons
    /// make no moves of their own; they take part in the captures of
    /// stradler, coordinator and king moves.
    ///
    /// Every move returned is one `generated` describes (its origin and
    /// destination follow its class's rule and each capture slot holds what
    /// the geometry finds), and so can be made; and every origin and
    /// destination those rules allow has a move in the list.
    pub fn generate_moves(&self) -> (r: MoveList)
        requires
            self.wf(),
        ensures
            self.all_playable(r@),
            all_generated(*self, r@, immobile_set(*self, self.side())),
            covers(*self, r@, immobile_set(*self, self.side())),
            complete(*self, r@),
    {
        let us = self.to_play();
        let them = us.opposite();
        let total = self.bitboard(0).0 | self.bitboard(8).0;
        let enemy_imm = self.bitboard(slot_index(them, Piece::Immobilizer)).0;
        let immobilized = if enemy_imm == 0 { 0 } else { king_mask(Bitboard(enemy_imm).bitscanforward()).0 };
        proof {
            lemma_empty_full();
            assert(squares(immobilized) == immobile_set(*self, us));
            assert forall|g: int| bit(immobilized, g) == immobile_set(*self, us).contains(g) by {
                assert(squares(immobilized).contains(g) == bit(immobilized, g));
            }
        }
        let mut list = MoveList::new();
        assert(all_generated(*self, list@, immobile_set(*self, us)));
        let ghost imm = immobile_set(*self, us);
        self.gen_stradlers(&mut list, us, immobilized, Ghost(imm), total);
        self.gen_coordinator(&mut list, us, immobilized, Ghost(imm), total);
        self.gen_springers(&mut list, us, immobilized, Ghost(imm), total);
        self.gen_retractor(&mut list, us, immobilized, Ghost(imm), total);
        let cw = self.bitboard(slot_index(them, Piece::Chameleon)).0;
        let mut chams = Bitboard(cw);
        let mut near_chameleon: u64 = 0;
        proof {
            lemma_empty_full();
            assert forall|t: int| #[trigger] bit(near_chameleon, t) <==> exists|c: int| bit(cw, c) && !chams@.contains(c)
                && #[trigger] king_ring(c).contains(t) by {
                assert(!squares(0).contains(t));
                if exists|c: int| bit(cw, c) && !chams@.contains(c) && #[trigger] king_ring(c).contains(t) {
                    let c3 = choose|c3: int| bit(cw, c3) && !chams@.contains(c3) && #[trigger] king_ring(c3).contains(t);
                    assert(squares(cw).contains(c3));
                }
            }
        }
        while !chams.is_empty()
            invariant
                cw == self.bbw(slot(us.flip(), Piece::Chameleon)),
                forall|c: int| #[trigger] chams@.contains(c) ==> bit(cw, c),
                forall|t: int| #[trigger] bit(near_chameleon, t) <==> exists|c: int| bit(cw, c) && !chams@.contains(c)
                    && #[trigger] king_ring(c).contains(t),
            decreases chams.0,
        {
            let ghost before = chams@;
            let ghost near0 = near_chameleon;
            let c = chams.pop_lsb();
            let ring = king_mask(c).0;
            near_chameleon = near_chameleon | ring;
            proof {
                crate::bitboard::lemma_or(near0, ring);
                assert forall|t: int| #[trigger] bit(near_chameleon, t) <==> exists|c2: int| bit(cw, c2) && !chams@.contains(c2)
                    && #[trigger] king_ring(c2).contains(t) by {
                    assert(squares(near_chameleon).contains(t) == bit(near_chameleon, t));
                    assert(squares(near0).contains(t) == bit(near0, t));
                    if bit(near_chameleon, t) {
                        if bit(near0, t) {
                            let c3 = choose|c3: int| bit(cw, c3) && !before.contains(c3) && #[trigger] king_ring(c3).contains(t);
                            assert(!chams@.contains(c3));
                        } else {
                            assert(squares(ring).contains(t));
                            assert(bit(cw, c as int) && !chams@.contains(c as int) && king_ring(c as int).contains(t));
                        }
                    }
                    if exists|c2: int| bit(cw, c2) && !chams@.contains(c2) && #[trigger] king_ring(c2).contains(t) {
                        let c3 = choose|c3: int| bit(cw, c3) && !chams@.contains(c3) && #[trigger] king_ring(c3).contains(t);
                        if c3 == c {
                            assert(squares(ring).contains(t));
                        } else {
                            assert(!before.contains(c3));
                            assert(bit(near0, t));
                        }
                    }
                }
            }
        }
        proof {
            lemma_empty_full();
            crate::bitboard::lemma_or(immobilized, near_chameleon);
            assert forall|g: int| bit(immobilized | near_chameleon, g) <==> imm.union(near_chameleons(*self, us)).contains(g) by {
                assert(squares(immobilized | near_chameleon).contains(g) == bit(immobilized | near_chameleon, g));
                assert(squares(immobilized).contains(g) == bit(immobilized, g));
                assert(squares(near_chameleon).contains(g) == bit(near_chameleon, g));
                assert(!chams@.contains(g));
                if bit(near_chameleon, g) {
                    let c3 = choose|c3: int| bit(cw, c3) && !chams@.contains(c3) && #[trigger] king_ring(c3).contains(g);
                    assert(near_chameleons(*self, us).contains(g));
                }
                if near_chameleons(*self, us).contains(g) {
                    let c3 = choose|c3: int| bit(cw, c3) && #[trigger] king_ring(c3).contains(g);
                    assert(!chams@.contains(c3));
                }
            }
        }
        self.gen_immobilizer(&mut list, us, immobilized | near_chameleon, Ghost(imm), total);
        self.gen_king(&mut list, us, immobilized, Ghost(imm));
        proof {
            reveal(complete);
            assert(complete(*self, list@));
            lemma_covers(*self, list@);
            reveal(covers);
        }
        list
    }

    /// Plays and takes back each move of `moves`, a list of moves playable
    /// here, and tells whether one of them leaves colour `c` without a king.
    /// The position is restored exactly.
    fn some_move_takes_king(&mut self, moves: &MoveList, c: Color) -> (r: bool)
        requires
            old(self).wf(),
            old(self).half() < 0xFFFF_FFFF,
            old(self).all_playable(moves@),
        ensures
            final(self).board_seq() == old(self).board_seq(),
            final(self).bb_seq() == old(self).bb_seq(),
            final(self).same_state(*old(self)),
            r == exists|i: int, q: Position| 0 <= i < moves@.len() && #[trigger] old(self).made(moves@[i], q)
                && q.bbw(slot(c, Piece::King)) == 0,
    {
        let ghost p0 = *self;
        let mut i: usize = 0;
        while i < moves.len()
            invariant
                p0 == *old(self),
                p0.wf(),
                p0.half() < 0xFFFF_FFFF,
                p0.all_playable(moves@),
                self.board_seq() == p0.board_seq(),
                self.bb_seq() == p0.bb_seq(),
                self.same_state(p0),
                forall|j: int, q: Position| 0 <= j < i && #[trigger] p0.made(moves@[j], q)
                    ==> q.bbw(slot(c, Piece::King)) != 0,
            decreases moves@.len() - i,
        {
            let m = moves.get(i).unwrap();
            proof {
                assert(p0.playable(moves@[i as int]));
                p0.lemma_same_moves(*self, m);
            }
            let ghost before = *self;
            self.make_move(m);
            let ghost q = *self;
            let gone = self.bitboard(slot_index(c, Piece::King)).0 == 0;
            proof {
                lemma_make_unmake(before, m, q, q);
            }
            self.unmake_move(m);
            proof {
                lemma_make_unmake(before, m, q, *self);
                p0.lemma_same_moves(before, m);
                assert(p0.made(m, q));
                assert forall|q2: Position| #[trigger] p0.made(moves@[i as int], q2)
                    implies (q2.bbw(slot(c, Piece::King)) == 0) == gone by {
                    crate::position::lemma_made_unique(p0, m, q, q2);
                    q.lemma_same_moves(q2, m);
                }
            }
            if gone {
                return true;
            }
            i = i + 1;
        }
        false
    }

    /// Whether the side to move can take the enemy king: some pseudo-legal
    /// move, once made, leaves the enemy king bitboard empty. The position is
    /// restored exactly.
    pub fn is_attacking_king(&mut self) -> (r: bool)
        requires
            old(self).wf(),
            old(self).half() < 0xFFFF_FFFF,
        ensures
            final(self).board_seq() == old(self).board_seq(),
            final(self).bb_seq() == old(self).bb_seq(),
            final(self).same_state(*old(self)),
            r == attacks_king(*old(self), old(self).side().flip()),
    {
        let ghost p0 = *self;
        let moves = self.generate_moves();
        let them = self.to_play().opposite();
        let r = self.some_move_takes_king(&moves, them);
        proof {
            reveal(attacks_king);
            reveal(covers);
            let imm = immobile_set(p0, p0.side());
            if r {
                let (i, q) = choose|i: int, q: Position| 0 <= i < moves@.len() && #[trigger] p0.made(moves@[i], q)
                    && q.bbw(slot(them, Piece::King)) == 0;
                assert(generated(p0, moves@[i], imm));
            } else {
                assert forall|m: Move, q: Position| generated(p0, m, imm) && #[trigger] p0.made(m, q)
                    implies q.bbw(slot(them, Piece::King)) != 0 by {
                    let i = choose|i: int| 0 <= i < moves@.len() && (#[trigger] moves@[i]).same_fields(m);
                    crate::position::lemma_same_fields(p0, moves@[i], m);
                    assert(p0.made(moves@[i], q));
                }
            }
        }
        r
    }

    /// Whether `m` is legal: once made, the opponent cannot take the king of
    /// the side that made it. The position is restored exactly.
    pub fn is_move_legal(&mut self, m: Move) -> (r: bool)
        requires
            old(self).can_make(m),
            old(self).half() < 0xFFFF_FFFE,
        ensures
            final(self).board_seq() == old(self).board_seq(),
            final(self).bb_seq() == old(self).bb_seq(),
            final(self).same_state(*old(self)),
            exists|q: Position| #[trigger] old(self).made(m, q) && r == !attacks_king(q, old(self).side()),
    {
        let ghost p0 = *self;
        self.make_move(m);
        let ghost q = *self;
        proof {
            lemma_make_unmake(p0, m, q, q);
        }
        let attacked = self.is_attacking_king();
        let ghost q1 = *self;
        proof {
            q.lemma_same_moves(q1, m);
        }
        self.unmake_move(m);
        proof {
            q.lemma_same_moves(q1, m);
            assert(q.unmade(m, *self));
            lemma_make_unmake(p0, m, q, *self);
            assert(p0.made(m, q));
        }
        !attacked
    }

    /// Plays and takes back each move of `moves`, a list of moves playable
    /// here, and tells whether after every one of them the opponent can take
    /// the king of `us`. The position is restored exactly.
    fn every_move_answered(&mut self, moves: &MoveList, us: Color) -> (r: bool)
        requires
            old(self).wf(),
            old(self).half() < 0xFFFF_FFFE,
            old(self).side() == us,
            old(self).all_playable(moves@),
        ensures
            final(self).board_seq() == old(self).board_seq(),
            final(self).bb_seq() == old(self).bb_seq(),
            final(self).same_state(*old(self)),
            r == forall|j: int| 0 <= j < moves@.len() ==> reply_takes_king(*old(self), #[trigger] moves@[j], us),
    {
        let ghost p0 = *self;
        let mut i: usize = 0;
        while i < moves.len()
            invariant
                p0 == *old(self),
                p0.wf(),
                p0.half() < 0xFFFF_FFFE,
                us == p0.side(),
                p0.all_playable(moves@),
                self.board_seq() == p0.board_seq(),
                self.bb_seq() == p0.bb_seq(),
                self.same_state(p0),
                forall|j: int| 0 <= j < i ==> reply_takes_king(p0, #[trigger] moves@[j], us),
            decreases moves@.len() - i,
        {
            let m = moves.get(i).unwrap();
            proof {
                assert(p0.playable(moves@[i as int]));
                p0.lemma_same_moves(*self, m);
            }
            let ghost before = *self;
            self.make_move(m);
            let ghost q = *self;
            proof {
                lemma_make_unmake(before, m, q, q);
            }
            let taken = self.is_attacking_king();
            let ghost q1 = *self;
            proof {
                q.lemma_same_moves(q1, m);
            }
            self.unmake_move(m);
            proof {
                q.lemma_same_moves(q1, m);
                lemma_make_unmake(before, m, q, *self);
                p0.lemma_same_moves(before, m);
                assert(p0.made(m, q));
                assert(q.side().flip() == us);
                lemma_after_move(p0, m, q, us);
            }
            if !taken {
                return false;
            }
            i = i + 1;
        }
        true
    }

    /// Whether the side to move is checkmated: after each of its
    /// pseudo-legal moves, some reply takes its king. The position is
    /// restored exactly.
    pub fn is_checkmate(&mut self) -> (r: bool)
        requires
            old(self).wf(),
            old(self).half() < 0xFFFF_FFFE,
        ensures
            final(self).board_seq() == old(self).board_seq(),
            final(self).bb_seq() == old(self).bb_seq(),
            final(self).same_state(*old(self)),
            r == checkmated(*old(self)),
    {
        let ghost p0 = *self;
        let ghost imm = immobile_set(p0, p0.side());
        let us = self.to_play();
        let moves = self.generate_moves();
        let r = self.every_move_answered(&moves, us);
        proof {
            lemma_answered_all(p0, moves@, imm, us);
        }
        r
    }
}

} // verus!
