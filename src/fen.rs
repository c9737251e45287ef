//! The FEN grammar of this variant: `<ranks> <side> <halfmoves> <fullmoves>`.
use vstd::prelude::*;
use crate::types::Piece;
use crate::geometry::sq;

verus! {

/// Class named by a FEN letter (either case); `Empty` for any other byte.
pub open spec fn letter_piece(c: u8) -> Piece {
    let l = if 65 <= c <= 90 { c + 32 } else { c as int };
    if l == 112 { Piece::Stradler }
    else if l == 114 { Piece::Coordinator }
    else if l == 110 { Piece::Springer }
    else if l == 98 { Piece::Chameleon }
    else if l == 113 { Piece::Retractor }
    else if l == 117 { Piece::Immobilizer }
    else if l == 107 { Piece::King }
    else { Piece::Empty }
}

/// State of reading the placement field: the square reached, whether the
/// text so far is well formed, and the pieces placed (class and whether Black).
pub struct BoardRead {
    pub rank: int,
    pub file: int,
    pub ok: bool,
    pub pieces: Seq<Piece>,
    pub black: Seq<bool>,
}

pub open spec fn board_start() -> BoardRead {
    BoardRead {
        rank: 7,
        file: 0,
        ok: true,
        pieces: Seq::new(64, |i: int| Piece::Empty),
        black: Seq::new(64, |i: int| false),
    }
}

/// One byte of the placement field: a digit skips that many files, `/` goes
/// down a rank once the rank is full, a letter places a piece (upper case
/// White); a rank may not run past its eighth file.
pub open spec fn read_byte(st: BoardRead, c: u8) -> BoardRead {
    if !st.ok {
        st
    } else if 49 <= c <= 56 {
        if st.file + (c - 48) <= 8 {
            BoardRead { file: st.file + (c - 48), ..st }
        } else {
            BoardRead { ok: false, ..st }
        }
    } else if c == 47 {
        if st.file == 8 && st.rank > 0 {
            BoardRead { rank: st.rank - 1, file: 0, ..st }
        } else {
            BoardRead { ok: false, ..st }
        }
    } else if letter_piece(c) != Piece::Empty && st.file < 8 {
        BoardRead {
            file: st.file + 1,
            pieces: st.pieces.update(sq(st.file, st.rank), letter_piece(c)),
            black: st.black.update(sq(st.file, st.rank), !(65 <= c <= 90)),
            ..st
        }
    } else {
        BoardRead { ok: false, ..st }
    }
}

pub open spec fn read_board(b: Seq<u8>) -> BoardRead
    decreases b.len(),
{
    if b.len() == 0 {
        board_start()
    } else {
        read_byte(read_board(b.drop_last()), b.last())
    }
}

/// The placement field is well formed: eight full ranks.
pub open spec fn board_ok(b: Seq<u8>) -> bool {
    let st = read_board(b);
    st.ok && st.rank == 0 && st.file == 8
}

/// Pieces the field `b` describes.
pub open spec fn board_of(b: Seq<u8>) -> BoardRead {
    read_board(b)
}

/// The fields of `b` between single spaces.
pub open spec fn split_spaces(b: Seq<u8>) -> Seq<Seq<u8>>
    decreases b.len(),
{
    if b.len() == 0 {
        seq![Seq::<u8>::empty()]
    } else {
        let rest = split_spaces(b.drop_last());
        if b.last() == 32 {
            rest.push(Seq::<u8>::empty())
        } else {
            rest.update(rest.len() - 1, rest.last().push(b.last()))
        }
    }
}

pub open spec fn is_digit(c: u8) -> bool {
    48 <= c <= 57
}

/// Value of a string of decimal digits.
pub open spec fn digits_value(d: Seq<u8>) -> int
    decreases d.len(),
{
    if d.len() == 0 {
        0
    } else {
        digits_value(d.drop_last()) * 10 + (d.last() - 48)
    }
}

/// The digits of a number field, after an optional leading `+`.
pub open spec fn number_digits(f: Seq<u8>) -> Seq<u8> {
    if f.len() > 0 && f[0] == 43 { f.drop_first() } else { f }
}

/// A number field: an optional `+`, then at least one digit, at most `u32::MAX`.
pub open spec fn number_ok(f: Seq<u8>) -> bool {
    let d = number_digits(f);
    d.len() > 0 && (forall|i: int| 0 <= i < d.len() ==> is_digit(#[trigger] d[i]))
        && digits_value(d) <= 0xFFFF_FFFF
}

pub open spec fn number_value(f: Seq<u8>) -> int {
    digits_value(number_digits(f))
}

/// The full-move field, which may be `-` for zero.
pub open spec fn fullmove_ok(f: Seq<u8>) -> bool {
    f == seq![45u8] || number_ok(f)
}

pub open spec fn fullmove_value(f: Seq<u8>) -> int {
    if f == seq![45u8] { 0 } else { number_value(f) }
}

/// A well-formed FEN string.
pub open spec fn fen_ok(b: Seq<u8>) -> bool {
    let f = split_spaces(b);
    &&& f.len() == 4
    &&& board_ok(f[0])
    &&& (f[1] == seq![119u8] || f[1] == seq![98u8])
    &&& number_ok(f[2])
    &&& fullmove_ok(f[3])
}

proof fn lemma_digits_nonneg(d: Seq<u8>)
    requires
        forall|i: int| 0 <= i < d.len() ==> is_digit(#[trigger] d[i]),
    ensures
        digits_value(d) >= 0,
    decreases d.len(),
{
    if d.len() > 0 {
        assert(d.drop_last().len() < d.len());
        assert forall|i: int| 0 <= i < d.drop_last().len() implies is_digit(#[trigger] d.drop_last()[i]) by {
            assert(d.drop_last()[i] == d[i]);
        }
        lemma_digits_nonneg(d.drop_last());
        assert(is_digit(d[d.len() - 1]));
    }
}

proof fn lemma_digits_prefix(d: Seq<u8>, k: int)
    requires
        0 <= k <= d.len(),
        forall|i: int| 0 <= i < d.len() ==> is_digit(#[trigger] d[i]),
    ensures
        digits_value(d.subrange(0, k)) <= digits_value(d),
    decreases d.len() - k,
{
    if k == d.len() {
        assert(d.subrange(0, k) =~= d);
    } else {
        let p = d.drop_last();
        assert forall|i: int| 0 <= i < p.len() implies is_digit(#[trigger] p[i]) by {
            assert(p[i] == d[i]);
        }
        lemma_digits_prefix(p, k);
        assert(p.subrange(0, k) =~= d.subrange(0, k));
        lemma_digits_nonneg(p);
        assert(is_digit(d[d.len() - 1]));
    }
}

/// Splits `b` at every space.
pub fn split_fields(b: &[u8]) -> (r: Vec<Vec<u8>>)
    ensures
        r@.len() == split_spaces(b@).len(),
        forall|i: int| 0 <= i < r@.len() ==> #[trigger] r@[i]@ == split_spaces(b@)[i],
{
    let mut parts: Vec<Vec<u8>> = Vec::new();
    parts.push(Vec::new());
    let mut i: usize = 0;
    assert(b@.subrange(0, 0) =~= Seq::<u8>::empty());
    while i < b.len()
        invariant
            i <= b@.len(),
            parts@.len() == split_spaces(b@.subrange(0, i as int)).len(),
            parts@.len() >= 1,
            forall|j: int| 0 <= j < parts@.len() ==> #[trigger] parts@[j]@ == split_spaces(b@.subrange(0, i as int))[j],
        decreases b.len() - i,
    {
        let c = b[i];
        let ghost pre = b@.subrange(0, i as int);
        assert(b@.subrange(0, i + 1).drop_last() =~= pre);
        assert(b@.subrange(0, i + 1).last() == c);
        if c == 32 {
            parts.push(Vec::new());
        } else {
            let mut cur = parts.pop().unwrap();
            cur.push(c);
            parts.push(cur);
            assert(parts@.len() == split_spaces(pre).len());
        }
        i = i + 1;
        assert(parts@.len() == split_spaces(b@.subrange(0, i as int)).len());
    }
    assert(b@.subrange(0, b@.len() as int) =~= b@);
    parts
}

/// Reads a number field as `u32` parsing does: optional `+`, then digits.
pub fn parse_number(f: &Vec<u8>) -> (r: Option<u32>)
    ensures
        r.is_some() == number_ok(f@),
        r.is_some() ==> r.unwrap() == number_value(f@),
{
    let start: usize = if f.len() > 0 && f[0] == 43 { 1 } else { 0 };
    let ghost d = number_digits(f@);
    assert(d =~= f@.subrange(start as int, f@.len() as int));
    if start >= f.len() {
        return None;
    }
    let mut value: u64 = 0;
    let mut i: usize = start;
    assert(d.subrange(0, 0) =~= Seq::<u8>::empty());
    while i < f.len()
        invariant
            start <= i <= f@.len(),
            d == number_digits(f@),
            d == f@.subrange(start as int, f@.len() as int),
            value <= 0xFFFF_FFFF,
            value == digits_value(d.subrange(0, i - start)),
            forall|j: int| 0 <= j < i - start ==> is_digit(#[trigger] d[j]),
        decreases f.len() - i,
    {
        let c = f[i];
        assert(d[i - start] == c);
        if !(48 <= c && c <= 57) {
            assert(!is_digit(d[i - start]));
            return None;
        }
        assert(d.subrange(0, i - start + 1).drop_last() =~= d.subrange(0, i - start));
        let next = value * 10 + (c - 48) as u64;
        if next > 0xFFFF_FFFF {
            proof {
                assert(digits_value(d.subrange(0, i - start + 1)) > 0xFFFF_FFFF);
                if forall|j: int| 0 <= j < d.len() ==> is_digit(#[trigger] d[j]) {
                    lemma_digits_prefix(d, i - start + 1);
                }
            }
            return None;
        }
        value = next;
        i = i + 1;
    }
    assert(d.subrange(0, f@.len() - start) =~= d);
    Some(value as u32)
}

/// A malformed prefix stays malformed however the field goes on.
pub proof fn lemma_read_stays_bad(b: Seq<u8>, k: int)
    requires
        0 <= k <= b.len(),
        !read_board(b.subrange(0, k)).ok,
    ensures
        !read_board(b).ok,
    decreases b.len() - k,
{
    if k == b.len() {
        assert(b.subrange(0, k) =~= b);
    } else {
        assert(b.subrange(0, k + 1).drop_last() =~= b.subrange(0, k));
        lemma_read_stays_bad(b, k + 1);
    }
}

/// Class named by a FEN letter; `Empty` for any other byte.
pub fn letter_to_piece(c: u8) -> (r: Piece)
    ensures
        r == letter_piece(c),
{
    let l = if 65 <= c && c <= 90 { c + 32 } else { c };
    match l {
        112 => Piece::Stradler,
        114 => Piece::Coordinator,
        110 => Piece::Springer,
        98 => Piece::Chameleon,
        113 => Piece::Retractor,
        117 => Piece::Immobilizer,
        107 => Piece::King,
        _ => Piece::Empty,
    }
}

} // verus!
