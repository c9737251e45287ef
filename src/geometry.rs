//! Board geometry: squares, directions, and the reference generators of
//! sliding moves and class-specific capture squares.
use vstd::prelude::*;
use crate::bitboard::{Bitboard, bit, squares, lemma_or, lemma_single, lemma_empty_full};

verus! {

pub open spec fn file(s: int) -> int {
    s % 8
}

pub open spec fn rank(s: int) -> int {
    s / 8
}

pub open spec fn on_board(f: int, r: int) -> bool {
    0 <= f < 8 && 0 <= r < 8
}

/// File step of direction `d`, in the order N, E, S, W, NE, SE, SW, NW.
pub open spec fn dfile(d: int) -> int {
    if d == 1 || d == 4 || d == 5 { 1 } else if d == 3 || d == 6 || d == 7 { -1 } else { 0 }
}

/// Rank step of direction `d`.
pub open spec fn drank(d: int) -> int {
    if d == 0 || d == 4 || d == 7 { 1 } else if d == 2 || d == 5 || d == 6 { -1 } else { 0 }
}

/// `x` moved `k` steps of sign `dx`.
pub open spec fn along(x: int, dx: int, k: int) -> int {
    if dx > 0 { x + k } else if dx < 0 { x - k } else { x }
}

/// The square `k` steps from `s` in direction `d` lies on the board.
pub open spec fn step_ok(s: int, d: int, k: int) -> bool {
    on_board(along(file(s), dfile(d), k), along(rank(s), drank(d), k))
}

/// The square `k` steps from `s` in direction `d`.
pub open spec fn step(s: int, d: int, k: int) -> int {
    along(rank(s), drank(d), k) * 8 + along(file(s), dfile(d), k)
}

/// Number of steps from `s` to the edge in direction `d`.
pub open spec fn to_edge(s: int, d: int) -> int {
    let n = 7 - rank(s);
    let e = 7 - file(s);
    let so = rank(s);
    let w = file(s);
    if d == 0 { n } else if d == 1 { e } else if d == 2 { so } else if d == 3 { w }
    else if d == 4 { if n < e { n } else { e } }
    else if d == 5 { if so < e { so } else { e } }
    else if d == 6 { if so < w { so } else { w } }
    else { if n < w { n } else { w } }
}

pub proof fn lemma_step(s: int, d: int, k: int)
    requires
        0 <= s < 64,
        0 <= d < 8,
        0 <= k,
    ensures
        step_ok(s, d, k) <==> k <= to_edge(s, d),
        step_ok(s, d, k) ==> 0 <= step(s, d, k) < 64,
        step_ok(s, d, k) ==> file(step(s, d, k)) == along(file(s), dfile(d), k),
        step_ok(s, d, k) ==> rank(step(s, d, k)) == along(rank(s), drank(d), k),
        0 <= to_edge(s, d) <= 7,
{
    if step_ok(s, d, k) {
        let f = along(file(s), dfile(d), k);
        let r = along(rank(s), drank(d), k);
        assert((r * 8 + f) % 8 == f && (r * 8 + f) / 8 == r) by (nonlinear_arith)
            requires
                0 <= f < 8,
                0 <= r < 8,
        ;
    }
}

/// The square `k` steps from `s` in direction `d`, if it is on the board.
pub fn step_square(s: usize, d: usize, k: usize) -> (r: Option<usize>)
    requires
        s < 64,
        d < 8,
        k <= 8,
    ensures
        r.is_some() == step_ok(s as int, d as int, k as int),
        r.is_some() ==> r.unwrap() == step(s as int, d as int, k as int) && r.unwrap() < 64,
{
    proof {
        lemma_step(s as int, d as int, k as int);
    }
    let f = (s % 8) as i64;
    let rk = (s / 8) as i64;
    let k = k as i64;
    let f2: i64 = if d == 1 || d == 4 || d == 5 { f + k } else if d == 3 || d == 6 || d == 7 { f - k } else { f };
    let r2: i64 = if d == 0 || d == 4 || d == 7 { rk + k } else if d == 2 || d == 5 || d == 6 { rk - k } else { rk };
    if 0 <= f2 && f2 < 8 && 0 <= r2 && r2 < 8 {
        Some((r2 * 8 + f2) as usize)
    } else {
        None
    }
}

/// Steps from `s` to the edge of the board in direction `d`.
pub fn num_to_edge(s: usize, d: usize) -> (r: usize)
    requires
        s < 64,
        d < 8,
    ensures
        r == to_edge(s as int, d as int),
        r <= 7,
{
    proof {
        lemma_step(s as int, d as int, 0);
    }
    let n = 7 - s / 8;
    let e = 7 - s % 8;
    let so = s / 8;
    let w = s % 8;
    if d == 0 { n } else if d == 1 { e } else if d == 2 { so } else if d == 3 { w }
    else if d == 4 { if n < e { n } else { e } }
    else if d == 5 { if so < e { so } else { e } }
    else if d == 6 { if so < w { so } else { w } }
    else { if n < w { n } else { w } }
}

/// The squares a slider on `s` reaches in direction `d` from step `k` on,
/// blockers `b`: the walk goes to the edge and stops on (and includes) the
/// first blocker.
pub open spec fn ray(s: int, d: int, b: u64, k: int) -> Set<int>
    decreases 9 - k,
{
    if k < 1 || k > 8 || !step_ok(s, d, k) {
        Set::empty()
    } else if bit(b, step(s, d, k)) {
        set![step(s, d, k)]
    } else {
        ray(s, d, b, k + 1).insert(step(s, d, k))
    }
}

/// Squares reached along the four orthogonal directions.
pub open spec fn orth_reach(s: int, b: u64) -> Set<int> {
    ray(s, 0, b, 1).union(ray(s, 1, b, 1)).union(ray(s, 2, b, 1)).union(ray(s, 3, b, 1))
}

/// Squares reached along the four diagonal directions.
pub open spec fn diag_reach(s: int, b: u64) -> Set<int> {
    ray(s, 4, b, 1).union(ray(s, 5, b, 1)).union(ray(s, 6, b, 1)).union(ray(s, 7, b, 1))
}

/// Adds to `acc` the squares of the walk from `s` in direction `d`.
fn walk(s: usize, d: usize, blockers: Bitboard, acc: Bitboard) -> (r: Bitboard)
    requires
        s < 64,
        d < 8,
    ensures
        r@ == acc@.union(ray(s as int, d as int, blockers.0, 1)),
{
    let mut result = acc;
    let mut k: usize = 1;
    while k <= 8
        invariant
            s < 64,
            d < 8,
            1 <= k <= 9,
            result@.union(ray(s as int, d as int, blockers.0, k as int)) == acc@.union(ray(s as int, d as int, blockers.0, 1)),
        decreases 9 - k,
    {
        match step_square(s, d, k) {
            None => {
                assert(ray(s as int, d as int, blockers.0, k as int) =~= Set::<int>::empty());
                assert(result@ =~= acc@.union(ray(s as int, d as int, blockers.0, 1)));
                return result;
            },
            Some(t) => {
                proof {
                    lemma_or(result.0, 1u64 << t as u64);
                    lemma_single(t as u64);
                }
                let blocked = (blockers.0 >> t as u64) & 1 == 1;
                result = Bitboard(result.0 | (1u64 << t as u64));
                if blocked {
                    assert(result@.union(ray(s as int, d as int, blockers.0, k as int)) =~= acc@.union(ray(s as int, d as int, blockers.0, 1)));
                    assert(result@ =~= acc@.union(ray(s as int, d as int, blockers.0, 1)));
                    return result;
                }
                assert(result@.union(ray(s as int, d as int, blockers.0, (k + 1) as int)) =~= acc@.union(ray(s as int, d as int, blockers.0, 1)));
                k = k + 1;
            },
        }
    }
    assert(ray(s as int, d as int, blockers.0, k as int) =~= Set::<int>::empty());
    assert(result@ =~= acc@.union(ray(s as int, d as int, blockers.0, 1)));
    result
}

/// Reference generator of orthogonal slides from `start`.
pub fn generate_orthogonal_moves(start: usize, blockers: Bitboard) -> (r: Bitboard)
    requires
        start < 64,
    ensures
        r@ == orth_reach(start as int, blockers.0),
{
    proof {
        lemma_empty_full();
    }
    let mut result = Bitboard(0);
    result = walk(start, 0, blockers, result);
    result = walk(start, 1, blockers, result);
    result = walk(start, 2, blockers, result);
    result = walk(start, 3, blockers, result);
    assert(result@ =~= orth_reach(start as int, blockers.0));
    result
}

/// Reference generator of diagonal slides from `start`.
pub fn generate_diagonal_moves(start: usize, blockers: Bitboard) -> (r: Bitboard)
    requires
        start < 64,
    ensures
        r@ == diag_reach(start as int, blockers.0),
{
    proof {
        lemma_empty_full();
    }
    let mut result = Bitboard(0);
    result = walk(start, 4, blockers, result);
    result = walk(start, 5, blockers, result);
    result = walk(start, 6, blockers, result);
    result = walk(start, 7, blockers, result);
    assert(result@ =~= diag_reach(start as int, blockers.0));
    result
}

/// The squares of a ray from step `k` on, but the last square before the edge.
pub open spec fn ray_inner(s: int, d: int, k: int) -> Set<int>
    decreases 8 - k,
{
    if k < 1 || k >= 8 || k >= to_edge(s, d) {
        Set::empty()
    } else {
        ray_inner(s, d, k + 1).insert(step(s, d, k))
    }
}

/// The square `k` steps away in direction `d`, as a set (empty off the board).
pub open spec fn at(s: int, d: int, k: int) -> Set<int> {
    if step_ok(s, d, k) { set![step(s, d, k)] } else { Set::empty() }
}

/// Blockers that matter to an orthogonal slider: each ray without its last square.
pub open spec fn orth_mask(s: int) -> Set<int> {
    ray_inner(s, 0, 1).union(ray_inner(s, 1, 1)).union(ray_inner(s, 2, 1)).union(ray_inner(s, 3, 1))
}

/// Blockers that matter to a diagonal slider.
pub open spec fn diag_mask(s: int) -> Set<int> {
    ray_inner(s, 4, 1).union(ray_inner(s, 5, 1)).union(ray_inner(s, 6, 1)).union(ray_inner(s, 7, 1))
}

/// The up to eight neighbours of `s`.
pub open spec fn king_ring(s: int) -> Set<int> {
    at(s, 0, 1).union(at(s, 1, 1)).union(at(s, 2, 1)).union(at(s, 3, 1))
        .union(at(s, 4, 1)).union(at(s, 5, 1)).union(at(s, 6, 1)).union(at(s, 7, 1))
}

/// The up to four squares two orthogonal steps from `s`.
pub open spec fn buddy_ring(s: int) -> Set<int> {
    at(s, 0, 2).union(at(s, 1, 2)).union(at(s, 2, 2)).union(at(s, 3, 2))
}

/// Custodian capture square of a stradler arriving on `s` in direction `d`:
/// one step away, when a buddy stands two steps away.
pub open spec fn custodian(s: int, d: int, buddies: u64) -> Set<int> {
    if step_ok(s, d, 2) && bit(buddies, step(s, d, 2)) { at(s, d, 1) } else { Set::empty() }
}

/// Capture squares of a stradler arriving on `s`, with buddies `buddies`.
pub open spec fn stradler_reach(s: int, buddies: u64) -> Set<int> {
    custodian(s, 0, buddies).union(custodian(s, 1, buddies)).union(custodian(s, 2, buddies)).union(custodian(s, 3, buddies))
}

/// Adds to `acc` the squares of direction `d` from step one up to, not
/// including, the edge.
fn walk_inner(s: usize, d: usize, acc: Bitboard) -> (r: Bitboard)
    requires
        s < 64,
        d < 8,
    ensures
        r@ == acc@.union(ray_inner(s as int, d as int, 1)),
{
    let edge = num_to_edge(s, d);
    let mut result = acc;
    let mut k: usize = 1;
    while k < edge
        invariant
            s < 64,
            d < 8,
            edge == to_edge(s as int, d as int),
            edge <= 7,
            1 <= k,
            k <= edge || k == 1,
            result@.union(ray_inner(s as int, d as int, k as int)) == acc@.union(ray_inner(s as int, d as int, 1)),
        decreases 8 - k,
    {
        proof {
            crate::geometry::lemma_step(s as int, d as int, k as int);
        }
        let t = step_square(s, d, k).unwrap();
        proof {
            lemma_or(result.0, 1u64 << t as u64);
            lemma_single(t as u64);
        }
        result = Bitboard(result.0 | (1u64 << t as u64));
        assert(result@.union(ray_inner(s as int, d as int, (k + 1) as int)) =~= acc@.union(ray_inner(s as int, d as int, 1)));
        k = k + 1;
    }
    assert(ray_inner(s as int, d as int, k as int) =~= Set::<int>::empty());
    assert(result@ =~= acc@.union(ray_inner(s as int, d as int, 1)));
    result
}

/// Adds to `acc` the square `k` steps away in direction `d`, if on the board.
fn add_step(s: usize, d: usize, k: usize, acc: Bitboard) -> (r: Bitboard)
    requires
        s < 64,
        d < 8,
        k <= 8,
    ensures
        r@ == acc@.union(at(s as int, d as int, k as int)),
{
    match step_square(s, d, k) {
        Some(t) => {
            proof {
                lemma_or(acc.0, 1u64 << t as u64);
                lemma_single(t as u64);
            }
            Bitboard(acc.0 | (1u64 << t as u64))
        },
        None => {
            assert(acc@ =~= acc@.union(at(s as int, d as int, k as int)));
            acc
        },
    }
}

/// Relevant blockers of an orthogonal slider on `s`.
pub fn orthogonal_block_mask(s: usize) -> (r: Bitboard)
    requires
        s < 64,
    ensures
        r@ == orth_mask(s as int),
{
    proof {
        lemma_empty_full();
    }
    let mut m = Bitboard(0);
    m = walk_inner(s, 0, m);
    m = walk_inner(s, 1, m);
    m = walk_inner(s, 2, m);
    m = walk_inner(s, 3, m);
    assert(m@ =~= orth_mask(s as int));
    m
}

/// Relevant blockers of a diagonal slider on `s`.
pub fn diagonal_block_mask(s: usize) -> (r: Bitboard)
    requires
        s < 64,
    ensures
        r@ == diag_mask(s as int),
{
    proof {
        lemma_empty_full();
    }
    let mut m = Bitboard(0);
    m = walk_inner(s, 4, m);
    m = walk_inner(s, 5, m);
    m = walk_inner(s, 6, m);
    m = walk_inner(s, 7, m);
    assert(m@ =~= diag_mask(s as int));
    m
}

/// The neighbours of `s`: where a king on `s` steps.
pub fn king_mask(s: usize) -> (r: Bitboard)
    requires
        s < 64,
    ensures
        r@ == king_ring(s as int),
{
    proof {
        lemma_empty_full();
    }
    let mut m = Bitboard(0);
    let mut d: usize = 0;
    while d < 8
        invariant
            s < 64,
            d <= 8,
            m@ == Set::<int>::empty().union(at(s as int, 0, 1)).union(if d > 1 { at(s as int, 1, 1) } else { Set::empty() })
                .union(if d > 2 { at(s as int, 2, 1) } else { Set::empty() })
                .union(if d > 3 { at(s as int, 3, 1) } else { Set::empty() })
                .union(if d > 4 { at(s as int, 4, 1) } else { Set::empty() })
                .union(if d > 5 { at(s as int, 5, 1) } else { Set::empty() })
                .union(if d > 6 { at(s as int, 6, 1) } else { Set::empty() })
                .union(if d > 7 { at(s as int, 7, 1) } else { Set::empty() })
                || d == 0 && m@ == Set::<int>::empty(),
        decreases 8 - d,
    {
        m = add_step(s, d, 1, m);
        assert(m@ =~= Set::<int>::empty().union(at(s as int, 0, 1)).union(if d + 1 > 1 { at(s as int, 1, 1) } else { Set::empty() })
                .union(if d + 1 > 2 { at(s as int, 2, 1) } else { Set::empty() })
                .union(if d + 1 > 3 { at(s as int, 3, 1) } else { Set::empty() })
                .union(if d + 1 > 4 { at(s as int, 4, 1) } else { Set::empty() })
                .union(if d + 1 > 5 { at(s as int, 5, 1) } else { Set::empty() })
                .union(if d + 1 > 6 { at(s as int, 6, 1) } else { Set::empty() })
                .union(if d + 1 > 7 { at(s as int, 7, 1) } else { Set::empty() }));
        d = d + 1;
    }
    assert(m@ =~= king_ring(s as int));
    m
}

/// The squares two orthogonal steps from `s`: where a stradler's buddy may stand.
pub fn buddy_mask(s: usize) -> (r: Bitboard)
    requires
        s < 64,
    ensures
        r@ == buddy_ring(s as int),
{
    proof {
        lemma_empty_full();
    }
    let mut m = Bitboard(0);
    m = add_step(s, 0, 2, m);
    m = add_step(s, 1, 2, m);
    m = add_step(s, 2, 2, m);
    m = add_step(s, 3, 2, m);
    assert(m@ =~= buddy_ring(s as int));
    m
}

/// The custodian capture square of a stradler on `s` in direction `d` (`d < 4`).
pub fn stradler_capture_square(s: usize, d: usize, buddies: Bitboard) -> (r: Bitboard)
    requires
        s < 64,
        d < 4,
    ensures
        r@ == custodian(s as int, d as int, buddies.0),
{
    proof {
        lemma_empty_full();
    }
    match step_square(s, d, 2) {
        Some(b) => {
            if (buddies.0 >> b as u64) & 1 == 1 {
                let r = add_step(s, d, 1, Bitboard(0));
                assert(r@ =~= custodian(s as int, d as int, buddies.0));
                r
            } else {
                Bitboard(0)
            }
        },
        None => Bitboard(0),
    }
}

/// Reference generator of the custodian captures of a stradler arriving on `start`.
pub fn generate_stradler_captures(start: usize, buddies: Bitboard) -> (r: Bitboard)
    requires
        start < 64,
    ensures
        r@ == stradler_reach(start as int, buddies.0),
{
    let n = stradler_capture_square(start, 0, buddies);
    let e = stradler_capture_square(start, 1, buddies);
    let so = stradler_capture_square(start, 2, buddies);
    let w = stradler_capture_square(start, 3, buddies);
    proof {
        lemma_or(n.0, e.0);
        lemma_or(n.0 | e.0, so.0);
        lemma_or(n.0 | e.0 | so.0, w.0);
    }
    Bitboard(n.0 | e.0 | so.0 | w.0)
}

/// Step `k` of direction `d`, short of the edge, is in the inner ray from step `j`.
proof fn lemma_ray_inner_has(s: int, d: int, j: int, k: int)
    requires
        0 <= s < 64,
        0 <= d < 8,
        1 <= j <= k,
        k < to_edge(s, d),
    ensures
        ray_inner(s, d, j).contains(step(s, d, k)),
    decreases k - j,
{
    lemma_step(s, d, k);
    if j < k {
        lemma_ray_inner_has(s, d, j + 1, k);
    }
}

/// Only blockers on the inner squares of a ray change the walk along it.
proof fn lemma_ray_relevant(s: int, d: int, b: u64, c: u64, k: int)
    requires
        0 <= s < 64,
        0 <= d < 8,
        1 <= k,
        forall|u: int| ray_inner(s, d, 1).contains(u) ==> (bit(b, u) <==> bit(c, u)),
    ensures
        ray(s, d, b, k) == ray(s, d, c, k),
    decreases 9 - k,
{
    if k <= 8 && step_ok(s, d, k) {
        lemma_step(s, d, k);
        lemma_step(s, d, k + 1);
        lemma_ray_relevant(s, d, b, c, k + 1);
        if k < to_edge(s, d) {
            lemma_ray_inner_has(s, d, 1, k);
        } else {
            assert(ray(s, d, b, k + 1) =~= Set::<int>::empty());
            assert(ray(s, d, c, k + 1) =~= Set::<int>::empty());
            assert(ray(s, d, b, k) =~= set![step(s, d, k)]);
            assert(ray(s, d, c, k) =~= set![step(s, d, k)]);
        }
    }
}

/// A slider's reach depends only on its relevant blockers: orthogonally
/// on `orth_mask`, diagonally on `diag_mask`.
pub proof fn lemma_reach_relevant(s: int, b: u64, c: u64)
    requires
        0 <= s < 64,
    ensures
        (forall|u: int| orth_mask(s).contains(u) ==> (bit(b, u) <==> bit(c, u))) ==> orth_reach(s, b) == orth_reach(s, c),
        (forall|u: int| diag_mask(s).contains(u) ==> (bit(b, u) <==> bit(c, u))) ==> diag_reach(s, b) == diag_reach(s, c),
{
    if forall|u: int| orth_mask(s).contains(u) ==> (bit(b, u) <==> bit(c, u)) {
        lemma_ray_relevant(s, 0, b, c, 1);
        lemma_ray_relevant(s, 1, b, c, 1);
        lemma_ray_relevant(s, 2, b, c, 1);
        lemma_ray_relevant(s, 3, b, c, 1);
    }
    if forall|u: int| diag_mask(s).contains(u) ==> (bit(b, u) <==> bit(c, u)) {
        lemma_ray_relevant(s, 4, b, c, 1);
        lemma_ray_relevant(s, 5, b, c, 1);
        lemma_ray_relevant(s, 6, b, c, 1);
        lemma_ray_relevant(s, 7, b, c, 1);
    }
}

/// The direction opposite to `d`.
pub open spec fn opposite_dir(d: int) -> int {
    if d < 4 { (d + 2) % 4 } else { 4 + (d - 2) % 4 }
}

/// The neighbour of `s` in direction `d`, when a retractor stepping there
/// withdraws from a piece of `b` on the opposite neighbour.
pub open spec fn withdraw(s: int, d: int, b: u64) -> Set<int> {
    if step_ok(s, opposite_dir(d), 1) && bit(b, step(s, opposite_dir(d), 1)) { at(s, d, 1) } else { Set::empty() }
}

/// The neighbours of `s` a retractor captures by stepping to, pieces on `b`.
pub open spec fn retractor_reach(s: int, b: u64) -> Set<int> {
    withdraw(s, 0, b).union(withdraw(s, 1, b)).union(withdraw(s, 2, b)).union(withdraw(s, 3, b))
        .union(withdraw(s, 4, b)).union(withdraw(s, 5, b)).union(withdraw(s, 6, b)).union(withdraw(s, 7, b))
}

fn withdraw_square(s: usize, d: usize, b: Bitboard) -> (r: Bitboard)
    requires
        s < 64,
        d < 8,
    ensures
        r@ == withdraw(s as int, d as int, b.0),
{
    proof {
        lemma_empty_full();
    }
    let o: usize = if d < 4 { (d + 2) % 4 } else { 4 + (d - 2) % 4 };
    match step_square(s, o, 1) {
        Some(t) => {
            if (b.0 >> t as u64) & 1 == 1 {
                let r = add_step(s, d, 1, Bitboard(0));
                assert(r@ =~= withdraw(s as int, d as int, b.0));
                r
            } else {
                Bitboard(0)
            }
        },
        None => Bitboard(0),
    }
}

/// Reference generator of the retractor's capturing steps from `start`
/// with pieces on `occupied`.
pub fn generate_retractor_captures(start: usize, occupied: Bitboard) -> (r: Bitboard)
    requires
        start < 64,
    ensures
        r@ == retractor_reach(start as int, occupied.0),
{
    let w0 = withdraw_square(start, 0, occupied).0;
    let w1 = withdraw_square(start, 1, occupied).0;
    let w2 = withdraw_square(start, 2, occupied).0;
    let w3 = withdraw_square(start, 3, occupied).0;
    let w4 = withdraw_square(start, 4, occupied).0;
    let w5 = withdraw_square(start, 5, occupied).0;
    let w6 = withdraw_square(start, 6, occupied).0;
    let w7 = withdraw_square(start, 7, occupied).0;
    proof {
        lemma_or(w0, w1);
        lemma_or(w0 | w1, w2);
        lemma_or(w0 | w1 | w2, w3);
        lemma_or(w0 | w1 | w2 | w3, w4);
        lemma_or(w0 | w1 | w2 | w3 | w4, w5);
        lemma_or(w0 | w1 | w2 | w3 | w4 | w5, w6);
        lemma_or(w0 | w1 | w2 | w3 | w4 | w5 | w6, w7);
    }
    Bitboard(w0 | w1 | w2 | w3 | w4 | w5 | w6 | w7)
}

/// An optional square index equals an optional square of the model.
pub open spec fn same_square(a: Option<usize>, b: Option<int>) -> bool {
    match (a, b) {
        (Some(x), Some(y)) => x as int == y,
        (None, None) => true,
        _ => false,
    }
}

pub open spec fn sq(f: int, r: int) -> int {
    r * 8 + f
}

pub open spec fn sgn(x: int) -> int {
    if x > 0 { 1 } else if x < 0 { -1 } else { 0 }
}

pub open spec fn absv(x: int) -> int {
    if x < 0 { -x } else { x }
}

/// Steps between `a` and `b` for a king: the larger of the file and rank distances.
pub open spec fn king_distance(a: int, b: int) -> int {
    let df = absv(file(b) - file(a));
    let dr = absv(rank(b) - rank(a));
    if df < dr { dr } else { df }
}

/// `b` differs from `a` and lies on one of its files, ranks or diagonals.
pub open spec fn aligned(a: int, b: int) -> bool {
    let df = file(b) - file(a);
    let dr = rank(b) - rank(a);
    (df != 0 || dr != 0) && (df == 0 || dr == 0 || df == dr || df == -dr)
}

/// Death square `i` (0 or 1) of pieces on `t` and `k`: the corners
/// `(file t, rank k)` and `(file k, rank t)` of the rectangle they span; none
/// when they share a file or a rank.
pub open spec fn death(t: int, k: int, i: int) -> Option<int> {
    if file(t) == file(k) || rank(t) == rank(k) {
        None
    } else if i == 0 {
        Some(sq(file(t), rank(k)))
    } else {
        Some(sq(file(k), rank(t)))
    }
}

/// Where a springer on `f` lands when it leaps over a piece on `v`: the next
/// square beyond `v` on the line from `f`.
pub open spec fn springer_landing(f: int, v: int) -> Option<int> {
    let lf = file(v) + sgn(file(v) - file(f));
    let lr = rank(v) + sgn(rank(v) - rank(f));
    if aligned(f, v) && on_board(lf, lr) { Some(sq(lf, lr)) } else { None }
}

/// The square a springer moving from `f` to `t` leaps over: the last square
/// before `t` on the line from `f`.
pub open spec fn springer_victim(f: int, t: int) -> Option<int> {
    if aligned(f, t) && king_distance(f, t) >= 2 {
        Some(sq(file(t) - sgn(file(t) - file(f)), rank(t) - sgn(rank(t) - rank(f))))
    } else {
        None
    }
}

/// The square a retractor stepping from `f` to the neighbour `t` withdraws
/// from: the neighbour of `f` on the other side.
pub open spec fn retractor_victim(f: int, t: int) -> Option<int> {
    let bf = file(f) - (file(t) - file(f));
    let br = rank(f) - (rank(t) - rank(f));
    if king_distance(f, t) == 1 && on_board(bf, br) { Some(sq(bf, br)) } else { None }
}

pub proof fn lemma_sq(f: int, r: int)
    requires
        on_board(f, r),
    ensures
        file(sq(f, r)) == f,
        rank(sq(f, r)) == r,
        0 <= sq(f, r) < 64,
{
    assert((r * 8 + f) % 8 == f && (r * 8 + f) / 8 == r) by (nonlinear_arith)
        requires
            0 <= f < 8,
            0 <= r < 8,
    ;
}

pub proof fn lemma_coords(s: int)
    requires
        0 <= s < 64,
    ensures
        on_board(file(s), rank(s)),
        sq(file(s), rank(s)) == s,
{
}

/// Leaping over `v` from `f` and landing beyond it leaps over `v` again when
/// read back from the landing square.
pub proof fn lemma_springer_round_trip(f: int, v: int)
    requires
        0 <= f < 64,
        0 <= v < 64,
        springer_landing(f, v).is_some(),
    ensures
        springer_victim(f, springer_landing(f, v).unwrap()) == Some(v),
{
    let l = springer_landing(f, v).unwrap();
    let lf = file(v) + sgn(file(v) - file(f));
    let lr = rank(v) + sgn(rank(v) - rank(f));
    lemma_sq(lf, lr);
    lemma_coords(v);
}

fn coords(s: usize) -> (r: (i64, i64))
    requires
        s < 64,
    ensures
        r.0 == file(s as int),
        r.1 == rank(s as int),
        0 <= r.0 < 8,
        0 <= r.1 < 8,
{
    ((s % 8) as i64, (s / 8) as i64)
}

fn square_at(f: i64, r: i64) -> (s: Option<usize>)
    ensures
        s.is_some() == on_board(f as int, r as int),
        s.is_some() ==> s.unwrap() == sq(f as int, r as int) && s.unwrap() < 64,
{
    if 0 <= f && f < 8 && 0 <= r && r < 8 {
        proof {
            lemma_sq(f as int, r as int);
        }
        Some((r * 8 + f) as usize)
    } else {
        None
    }
}

fn sign(x: i64) -> (r: i64)
    ensures
        r == sgn(x as int),
{
    if x > 0 { 1 } else if x < 0 { -1 } else { 0 }
}

/// The death squares of a piece on `t` with its partner on `k`.
pub fn death_squares(t: usize, k: usize) -> (r: (Option<usize>, Option<usize>))
    requires
        t < 64,
        k < 64,
    ensures
        same_square(r.0, death(t as int, k as int, 0)),
        same_square(r.1, death(t as int, k as int, 1)),
        r.0.is_some() ==> r.0.unwrap() < 64,
        r.1.is_some() ==> r.1.unwrap() < 64,
{
    let (tf, tr) = coords(t);
    let (kf, kr) = coords(k);
    if tf == kf || tr == kr {
        (None, None)
    } else {
        (square_at(tf, kr), square_at(kf, tr))
    }
}

pub fn springer_landing_square(f: usize, v: usize) -> (r: Option<usize>)
    requires
        f < 64,
        v < 64,
    ensures
        same_square(r, springer_landing(f as int, v as int)),
        r.is_some() ==> r.unwrap() < 64,
{
    let (ff, fr) = coords(f);
    let (vf, vr) = coords(v);
    let df = vf - ff;
    let dr = vr - fr;
    if (df != 0 || dr != 0) && (df == 0 || dr == 0 || df == dr || df == -dr) {
        square_at(vf + sign(df), vr + sign(dr))
    } else {
        None
    }
}

pub fn springer_captured_square(f: usize, t: usize) -> (r: Option<usize>)
    requires
        f < 64,
        t < 64,
    ensures
        same_square(r, springer_victim(f as int, t as int)),
        r.is_some() ==> r.unwrap() < 64,
{
    let (ff, fr) = coords(f);
    let (tf, tr) = coords(t);
    let df = tf - ff;
    let dr = tr - fr;
    let adf = if df < 0 { -df } else { df };
    let adr = if dr < 0 { -dr } else { dr };
    let dist = if adf < adr { adr } else { adf };
    if (df != 0 || dr != 0) && (df == 0 || dr == 0 || df == dr || df == -dr) && dist >= 2 {
        let r = square_at(tf - sign(df), tr - sign(dr));
        proof {
            lemma_sq(tf - sgn(df as int), tr - sgn(dr as int));
        }
        r
    } else {
        None
    }
}

pub fn retractor_captured_square(f: usize, t: usize) -> (r: Option<usize>)
    requires
        f < 64,
        t < 64,
    ensures
        same_square(r, retractor_victim(f as int, t as int)),
        r.is_some() ==> r.unwrap() < 64,
{
    let (ff, fr) = coords(f);
    let (tf, tr) = coords(t);
    let df = tf - ff;
    let dr = tr - fr;
    let adf = if df < 0 { -df } else { df };
    let adr = if dr < 0 { -dr } else { dr };
    let dist = if adf < adr { adr } else { adf };
    if dist == 1 {
        square_at(ff - df, fr - dr)
    } else {
        None
    }
}

} // verus!
