//! The 32-bit packed move and the list of moves a position generates.
use vstd::prelude::*;
use crate::types::{Piece, piece_of};

verus! {

/// Field of `w` under `mask`, starting at bit `at`.
pub open spec fn field(w: u32, at: u32, mask: u32) -> u32 {
    (w >> at) & mask
}

/// Shift of a field that `set_field` may write, and its mask.
pub open spec fn field_ok(at: u32, mask: u32) -> bool {
    ((at == 0 || at == 6) && mask == 0x3f)
    || ((at == 12 || at == 15 || at == 18 || at == 21 || at == 24) && mask == 7)
    || ((at == 27 || at == 28 || at == 29 || at == 30) && mask == 1)
}

/// Or-ing a value into one field of the move word changes that field alone.
proof fn lemma_or_field(w: u32, v: u32, at: u32, mask: u32)
    by (bit_vector)
    requires
        field_ok(at, mask),
        v <= mask,
    ensures
        field(w | (v << at), 0, 0x3f) == if at == 0 { field(w, 0, 0x3f) | v } else { field(w, 0, 0x3f) },
        field(w | (v << at), 6, 0x3f) == if at == 6 { field(w, 6, 0x3f) | v } else { field(w, 6, 0x3f) },
        field(w | (v << at), 12, 7) == if at == 12 { field(w, 12, 7) | v } else { field(w, 12, 7) },
        field(w | (v << at), 15, 7) == if at == 15 { field(w, 15, 7) | v } else { field(w, 15, 7) },
        field(w | (v << at), 18, 7) == if at == 18 { field(w, 18, 7) | v } else { field(w, 18, 7) },
        field(w | (v << at), 21, 7) == if at == 21 { field(w, 21, 7) | v } else { field(w, 21, 7) },
        field(w | (v << at), 24, 7) == if at == 24 { field(w, 24, 7) | v } else { field(w, 24, 7) },
        field(w | (v << at), 27, 1) == if at == 27 { field(w, 27, 1) | v } else { field(w, 27, 1) },
        field(w | (v << at), 28, 1) == if at == 28 { field(w, 28, 1) | v } else { field(w, 28, 1) },
        field(w | (v << at), 29, 1) == if at == 29 { field(w, 29, 1) | v } else { field(w, 29, 1) },
        field(w | (v << at), 30, 1) == if at == 30 { field(w, 30, 1) | v } else { field(w, 30, 1) },
        (w | (v << at)) >> 31 == w >> 31,
        field(w, 0, 0x3f) < 64,
        field(w, 6, 0x3f) < 64,
        field(w, 12, 7) < 8,
        field(w, 15, 7) < 8,
        field(w, 18, 7) < 8,
        field(w, 21, 7) < 8,
        field(w, 24, 7) < 8,
        field(w, 27, 1) < 2,
        field(w, 28, 1) < 2,
        field(w, 29, 1) < 2,
        field(w, 30, 1) < 2,
        field(0u32, 0, 0x3f) == 0 && field(0u32, 6, 0x3f) == 0 && field(0u32, 12, 7) == 0
            && field(0u32, 15, 7) == 0 && field(0u32, 18, 7) == 0 && field(0u32, 21, 7) == 0
            && field(0u32, 24, 7) == 0 && field(0u32, 27, 1) == 0 && field(0u32, 28, 1) == 0
            && field(0u32, 29, 1) == 0 && field(0u32, 30, 1) == 0 && 0u32 >> 31 == 0,
        0u32 | v == v,
        (w & 0x7FFF8000) >> 15 == 0 <==> (field(w, 15, 7) == 0 && field(w, 18, 7) == 0
            && field(w, 21, 7) == 0 && field(w, 24, 7) == 0 && field(w, 27, 1) == 0
            && field(w, 28, 1) == 0 && field(w, 29, 1) == 0 && field(w, 30, 1) == 0),
{
}

proof fn lemma_piece_code(p: Piece)
    ensures
        piece_of(p.code()) == p,
        0 <= p.code() < 8,
{
}

/// A move packed in 32 bits: origin (bits 0-5), destination (6-11), moving
/// piece (12-14), captured pieces of slots one to four (15-17, 18-20, 21-23,
/// 24-26) and four flags of captures by a chameleon (27-30).
#[derive(Clone, Copy, PartialEq, Eq, Structural, Debug)]
pub struct Move(pub u32);

impl Move {
    pub open spec fn from_sq(self) -> int { field(self.0, 0, 0x3f) as int }
    pub open spec fn to_sq(self) -> int { field(self.0, 6, 0x3f) as int }
    pub open spec fn piece(self) -> Piece { piece_of(field(self.0, 12, 7) as int) }
    pub open spec fn c1(self) -> Piece { piece_of(field(self.0, 15, 7) as int) }
    pub open spec fn c2(self) -> Piece { piece_of(field(self.0, 18, 7) as int) }
    pub open spec fn c3(self) -> Piece { piece_of(field(self.0, 21, 7) as int) }
    pub open spec fn c4(self) -> Piece { piece_of(field(self.0, 24, 7) as int) }
    pub open spec fn c5(self) -> bool { field(self.0, 27, 1) == 1 }
    pub open spec fn c6(self) -> bool { field(self.0, 28, 1) == 1 }
    pub open spec fn c7(self) -> bool { field(self.0, 29, 1) == 1 }
    pub open spec fn c8(self) -> bool { field(self.0, 30, 1) == 1 }

    /// The move that carries exactly the given fields.
    pub open spec fn is_move(self, from: int, to: int, piece: Piece, c1: Piece, c2: Piece, c3: Piece, c4: Piece,
        f5: bool, f6: bool, f7: bool, f8: bool) -> bool {
        &&& self.from_sq() == from
        &&& self.to_sq() == to
        &&& self.piece() == piece
        &&& self.c1() == c1
        &&& self.c2() == c2
        &&& self.c3() == c3
        &&& self.c4() == c4
        &&& self.c5() == f5
        &&& self.c6() == f6
        &&& self.c7() == f7
        &&& self.c8() == f8
    }

    /// `self` and `o` agree on every field.
    pub open spec fn same_fields(self, o: Move) -> bool {
        self.is_move(o.from_sq(), o.to_sq(), o.piece(), o.c1(), o.c2(), o.c3(), o.c4(), o.c5(), o.c6(), o.c7(), o.c8())
    }

    /// Every field of `self` equals that of `o`, but the one at `at`.
    pub open spec fn same_but(self, o: Move, at: u32) -> bool {
        &&& (at != 0 ==> field(self.0, 0, 0x3f) == field(o.0, 0, 0x3f))
        &&& (at != 6 ==> field(self.0, 6, 0x3f) == field(o.0, 6, 0x3f))
        &&& (at != 12 ==> field(self.0, 12, 7) == field(o.0, 12, 7))
        &&& (at != 15 ==> field(self.0, 15, 7) == field(o.0, 15, 7))
        &&& (at != 18 ==> field(self.0, 18, 7) == field(o.0, 18, 7))
        &&& (at != 21 ==> field(self.0, 21, 7) == field(o.0, 21, 7))
        &&& (at != 24 ==> field(self.0, 24, 7) == field(o.0, 24, 7))
        &&& (at != 27 ==> field(self.0, 27, 1) == field(o.0, 27, 1))
        &&& (at != 28 ==> field(self.0, 28, 1) == field(o.0, 28, 1))
        &&& (at != 29 ==> field(self.0, 29, 1) == field(o.0, 29, 1))
        &&& (at != 30 ==> field(self.0, 30, 1) == field(o.0, 30, 1))
        &&& self.0 >> 31 == o.0 >> 31
    }

    /// The move with every field zero.
    pub fn empty() -> (r: Move)
        ensures
            r.0 == 0,
    {
        Move(0)
    }

    /// Packs a move from all its fields.
    pub fn build(from: usize, to: usize, piece: Piece, c1: Piece, c2: Piece, c3: Piece, c4: Piece,
        f5: bool, f6: bool, f7: bool, f8: bool) -> (r: Move)
        requires
            from < 64,
            to < 64,
        ensures
            r.is_move(from as int, to as int, piece, c1, c2, c3, c4, f5, f6, f7, f8),
    {
        let mut m = Move(0);
        proof {
            lemma_or_field(0, 0, 0, 0x3f);
            lemma_or_field(0, from as u32, 0, 0x3f);
            lemma_or_field(0, to as u32, 0, 0x3f);
            lemma_or_field(0, piece.code() as u32, 0, 0x3f);
            lemma_or_field(0, c1.code() as u32, 0, 0x3f);
            lemma_or_field(0, c2.code() as u32, 0, 0x3f);
            lemma_or_field(0, c3.code() as u32, 0, 0x3f);
            lemma_or_field(0, c4.code() as u32, 0, 0x3f);
            lemma_or_field(0, 1, 0, 0x3f);
            lemma_piece_code(piece);
            lemma_piece_code(c1);
            lemma_piece_code(c2);
            lemma_piece_code(c3);
            lemma_piece_code(c4);
        }
        m.set_from(from);
        m.set_to(to);
        m.set_piece(piece);
        m.set_c1_piece(c1);
        m.set_c2_piece(c2);
        m.set_c3_piece(c3);
        m.set_c4_piece(c4);
        m.set_c5_bit(f5);
        m.set_c6_bit(f6);
        m.set_c7_bit(f7);
        m.set_c8_bit(f8);
        m
    }

    fn set_field(&mut self, v: u32, at: u32, mask: u32)
        requires
            field_ok(at, mask),
            v <= mask,
        ensures
            final(self).0 == old(self).0 | (v << at),
            field(final(self).0, at, mask) == field(old(self).0, at, mask) | v,
            final(self).same_but(*old(self), at),
    {
        proof {
            lemma_or_field(self.0, v, at, mask);
        }
        self.0 = self.0 | (v << at);
    }

    /// True iff any capture slot or flag is set.
    pub fn is_capture(&self) -> (r: bool)
        ensures
            r == (self.c1() != Piece::Empty || self.c2() != Piece::Empty || self.c3() != Piece::Empty
                || self.c4() != Piece::Empty || self.c5() || self.c6() || self.c7() || self.c8()),
    {
        proof {
            lemma_or_field(self.0, 0, 0, 0x3f);
        }
        ((self.0 & 0x7FFF8000) >> 15) != 0
    }

    /// Bits 15-30: all capture slots and flags.
    pub fn get_capture_bits(&self) -> (r: u32)
        ensures
            r == (self.0 & 0x7FFF8000) >> 15,
    {
        (self.0 & 0x7FFF8000) >> 15
    }

    pub fn get_from(&self) -> (r: usize)
        ensures
            r == field(self.0, 0, 0x3f),
            r < 64,
    {
        proof {
            lemma_or_field(self.0, 0, 0, 0x3f);
        }
        ((self.0 >> 0) & 0x3f) as usize
    }

    /// Or-s `s` into the field; the field must be clear for it to hold `s`.
    pub fn set_from(&mut self, s: usize)
        requires
            s < 64,
        ensures
            final(self).0 == old(self).0 | ((s as u32) << 0u32),
            field(final(self).0, 0, 0x3f) == field(old(self).0, 0, 0x3f) | s as u32,
            final(self).same_but(*old(self), 0),
    {
        self.set_field(s as u32, 0, 0x3f);
    }

    pub fn get_to(&self) -> (r: usize)
        ensures
            r == field(self.0, 6, 0x3f),
            r < 64,
    {
        proof {
            lemma_or_field(self.0, 0, 0, 0x3f);
        }
        ((self.0 >> 6) & 0x3f) as usize
    }

    /// Or-s `s` into the field; the field must be clear for it to hold `s`.
    pub fn set_to(&mut self, s: usize)
        requires
            s < 64,
        ensures
            final(self).0 == old(self).0 | ((s as u32) << 6u32),
            field(final(self).0, 6, 0x3f) == field(old(self).0, 6, 0x3f) | s as u32,
            final(self).same_but(*old(self), 6),
    {
        self.set_field(s as u32, 6, 0x3f);
    }

    pub fn get_piece(&self) -> (r: Piece)
        ensures
            r.code() == field(self.0, 12, 7),
            r == piece_of(field(self.0, 12, 7) as int),
    {
        proof {
            lemma_or_field(self.0, 0, 0, 0x3f);
        }
        Piece::from_code((self.0 >> 12) & 7)
    }

    /// Or-s the code of `p` into the field; the field must be clear for it to hold `p`.
    pub fn set_piece(&mut self, p: Piece)
        ensures
            final(self).0 == old(self).0 | ((p.code() as u32) << 12u32),
            field(final(self).0, 12, 7) == field(old(self).0, 12, 7) | p.code() as u32,
            final(self).same_but(*old(self), 12),
    {
        self.set_field(p.to_code(), 12, 7);
    }

    pub fn get_c1_piece(&self) -> (r: Piece)
        ensures
            r.code() == field(self.0, 15, 7),
            r == piece_of(field(self.0, 15, 7) as int),
    {
        proof {
            lemma_or_field(self.0, 0, 0, 0x3f);
        }
        Piece::from_code((self.0 >> 15) & 7)
    }

    /// Or-s the code of `p` into the field; the field must be clear for it to hold `p`.
    pub fn set_c1_piece(&mut self, p: Piece)
        ensures
            final(self).0 == old(self).0 | ((p.code() as u32) << 15u32),
            field(final(self).0, 15, 7) == field(old(self).0, 15, 7) | p.code() as u32,
            final(self).same_but(*old(self), 15),
    {
        self.set_field(p.to_code(), 15, 7);
    }

    pub fn get_c2_piece(&self) -> (r: Piece)
        ensures
            r.code() == field(self.0, 18, 7),
            r == piece_of(field(self.0, 18, 7) as int),
    {
        proof {
            lemma_or_field(self.0, 0, 0, 0x3f);
        }
        Piece::from_code((self.0 >> 18) & 7)
    }

    /// Or-s the code of `p` into the field; the field must be clear for it to hold `p`.
    pub fn set_c2_piece(&mut self, p: Piece)
        ensures
            final(self).0 == old(self).0 | ((p.code() as u32) << 18u32),
            field(final(self).0, 18, 7) == field(old(self).0, 18, 7) | p.code() as u32,
            final(self).same_but(*old(self), 18),
    {
        self.set_field(p.to_code(), 18, 7);
    }

    pub fn get_c3_piece(&self) -> (r: Piece)
        ensures
            r.code() == field(self.0, 21, 7),
            r == piece_of(field(self.0, 21, 7) as int),
    {
        proof {
            lemma_or_field(self.0, 0, 0, 0x3f);
        }
        Piece::from_code((self.0 >> 21) & 7)
    }

    /// Or-s the code of `p` into the field; the field must be clear for it to hold `p`.
    pub fn set_c3_piece(&mut self, p: Piece)
        ensures
            final(self).0 == old(self).0 | ((p.code() as u32) << 21u32),
            field(final(self).0, 21, 7) == field(old(self).0, 21, 7) | p.code() as u32,
            final(self).same_but(*old(self), 21),
    {
        self.set_field(p.to_code(), 21, 7);
    }

    pub fn get_c4_piece(&self) -> (r: Piece)
        ensures
            r.code() == field(self.0, 24, 7),
            r == piece_of(field(self.0, 24, 7) as int),
    {
        proof {
            lemma_or_field(self.0, 0, 0, 0x3f);
        }
        Piece::from_code((self.0 >> 24) & 7)
    }

    /// Or-s the code of `p` into the field; the field must be clear for it to hold `p`.
    pub fn set_c4_piece(&mut self, p: Piece)
        ensures
            final(self).0 == old(self).0 | ((p.code() as u32) << 24u32),
            field(final(self).0, 24, 7) == field(old(self).0, 24, 7) | p.code() as u32,
            final(self).same_but(*old(self), 24),
    {
        self.set_field(p.to_code(), 24, 7);
    }

    pub fn get_c5_bit(&self) -> (r: bool)
        ensures
            r == (field(self.0, 27, 1) == 1),
    {
        proof {
            lemma_or_field(self.0, 0, 0, 0x3f);
        }
        ((self.0 >> 27) & 1) != 0
    }

    /// Or-s `b` into the flag.
    pub fn set_c5_bit(&mut self, b: bool)
        ensures
            final(self).0 == old(self).0 | ((if b { 1u32 } else { 0u32 }) << 27u32),
            field(final(self).0, 27, 1) == field(old(self).0, 27, 1) | (if b { 1u32 } else { 0u32 }),
            final(self).same_but(*old(self), 27),
    {
        self.set_field(if b { 1 } else { 0 }, 27, 1);
    }

    pub fn get_c6_bit(&self) -> (r: bool)
        ensures
            r == (field(self.0, 28, 1) == 1),
    {
        proof {
            lemma_or_field(self.0, 0, 0, 0x3f);
        }
        ((self.0 >> 28) & 1) != 0
    }

    /// Or-s `b` into the flag.
    pub fn set_c6_bit(&mut self, b: bool)
        ensures
            final(self).0 == old(self).0 | ((if b { 1u32 } else { 0u32 }) << 28u32),
            field(final(self).0, 28, 1) == field(old(self).0, 28, 1) | (if b { 1u32 } else { 0u32 }),
            final(self).same_but(*old(self), 28),
    {
        self.set_field(if b { 1 } else { 0 }, 28, 1);
    }

    pub fn get_c7_bit(&self) -> (r: bool)
        ensures
            r == (field(self.0, 29, 1) == 1),
    {
        proof {
            lemma_or_field(self.0, 0, 0, 0x3f);
        }
        ((self.0 >> 29) & 1) != 0
    }

    /// Or-s `b` into the flag.
    pub fn set_c7_bit(&mut self, b: bool)
        ensures
            final(self).0 == old(self).0 | ((if b { 1u32 } else { 0u32 }) << 29u32),
            field(final(self).0, 29, 1) == field(old(self).0, 29, 1) | (if b { 1u32 } else { 0u32 }),
            final(self).same_but(*old(self), 29),
    {
        self.set_field(if b { 1 } else { 0 }, 29, 1);
    }

    pub fn get_c8_bit(&self) -> (r: bool)
        ensures
            r == (field(self.0, 30, 1) == 1),
    {
        proof {
            lemma_or_field(self.0, 0, 0, 0x3f);
        }
        ((self.0 >> 30) & 1) != 0
    }

    /// Or-s `b` into the flag.
    pub fn set_c8_bit(&mut self, b: bool)
        ensures
            final(self).0 == old(self).0 | ((if b { 1u32 } else { 0u32 }) << 30u32),
            field(final(self).0, 30, 1) == field(old(self).0, 30, 1) | (if b { 1u32 } else { 0u32 }),
            final(self).same_but(*old(self), 30),
    {
        self.set_field(if b { 1 } else { 0 }, 30, 1);
    }
}

/// The moves generated from a position, in generation order.
#[derive(Debug)]
pub struct MoveList {
    moves: Vec<Move>,
}

impl View for MoveList {
    type V = Seq<Move>;

    closed spec fn view(&self) -> Seq<Move> {
        self.moves@
    }
}

impl MoveList {
    pub fn new() -> (r: MoveList)
        ensures
            r@ == Seq::<Move>::empty(),
    {
        MoveList { moves: Vec::with_capacity(256) }
    }

    pub fn len(&self) -> (r: usize)
        ensures
            r == self@.len(),
    {
        self.moves.len()
    }

    pub fn get(&self, index: usize) -> (r: Option<Move>)
        ensures
            index < self@.len() ==> r == Some(self@[index as int]),
            index >= self@.len() ==> r.is_none(),
    {
        if index < self.moves.len() {
            Some(self.moves[index])
        } else {
            None
        }
    }

    /// The moves as a slice, for iteration.
    pub fn iter(&self) -> (r: &[Move])
        ensures
            r@ == self@,
    {
        self.moves.as_slice()
    }

    pub fn add_move(&mut self, m: Move)
        ensures
            final(self)@ == old(self)@.push(m),
    {
        self.moves.push(m);
    }
}

} // verus!
