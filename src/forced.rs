//! Why narrowing the search to the forced move keeps the value.
use vstd::prelude::*;
use vstd::std_specs::bits::axiom_u64_trailing_zeros;
use crate::{N2, N_STATES};
use crate::bitboards::{bit, line_mask, popcount};
use crate::board::{covers, has_line, lemma_pop_disjoint, lemma_pop_single, lemma_after, lemma_unfinished_has_move, square, Board, State};
use crate::minimax::{best, lemma_value_bounds, move_value, value};
use crate::alphabeta::lemma_best_ge;

verus! {

/// `x` is the mask `m` with exactly one of its bits missing.
pub open spec fn two_of(x: u64, m: u64) -> bool {
    x & m == x && x != m && (m ^ x) & (((m ^ x) - 1) as u64) == 0
}

/// The three squares of line `k`, as bit positions.
pub open spec fn line_squares(k: int) -> (u64, u64, u64) {
    (seq![0u64, 3u64, 6u64, 0u64, 1u64, 2u64, 0u64, 2u64][k], seq![1u64, 4u64, 7u64, 3u64, 4u64, 5u64, 4u64, 4u64][k], seq![2u64, 5u64, 8u64, 6u64, 7u64, 8u64, 8u64, 6u64][k])
}

proof fn lemma_line_squares(k: int)
    requires
        0 <= k < N_STATES,
    ensures
        line_mask(k) == (1u64 << line_squares(k).0) | (1u64 << line_squares(k).1) | (1u64 << line_squares(k).2),
        line_squares(k).0 < line_squares(k).1 < line_squares(k).2 < 64,
{
    assert(7u64 == (1u64 << 0u64) | (1u64 << 1u64) | (1u64 << 2u64) && 56u64 == (1u64 << 3u64) | (1u64 << 4u64) | (1u64 << 5u64) && 448u64 == (1u64 << 6u64) | (1u64 << 7u64) | (1u64 << 8u64) && 73u64 == (1u64 << 0u64) | (1u64 << 3u64) | (1u64 << 6u64) && 146u64 == (1u64 << 1u64) | (1u64 << 4u64) | (1u64 << 7u64) && 292u64 == (1u64 << 2u64) | (1u64 << 5u64) | (1u64 << 8u64) && 273u64 == (1u64 << 0u64) | (1u64 << 4u64) | (1u64 << 8u64) && 84u64 == (1u64 << 2u64) | (1u64 << 4u64) | (1u64 << 6u64)) by (bit_vector);
}

/// On a line, holding N-1 squares is missing exactly one of them.
proof fn lemma_pop_two(x: u64, k: int)
    requires
        0 <= k < N_STATES,
        x & line_mask(k) == x,
    ensures
        popcount(x) == 2 <==> two_of(x, line_mask(k)),
{
    lemma_line_squares(k);
    let (a, b, c) = line_squares(k);
    let m = line_mask(k);
    let xa = x & (1u64 << a);
    let xb = x & (1u64 << b);
    let xc = x & (1u64 << c);
    assert(m == (1u64 << a) | (1u64 << b) | (1u64 << c) && a < b && b < c && c < 64 && x & m == x ==> {
        &&& x == (xa | xb) | xc
        &&& xa & xb == 0
        &&& (xa | xb) & xc == 0
        &&& (xa == 0 || xa == 1u64 << a)
        &&& (xb == 0 || xb == 1u64 << b)
        &&& (xc == 0 || xc == 1u64 << c)
        &&& (two_of(x, m) <==> (xa != 0 && xb != 0 && xc == 0) || (xa != 0 && xb == 0 && xc != 0) || (xa == 0 && xb != 0 && xc != 0))
    }) by (bit_vector)
        requires
            xa == x & (1u64 << a),
            xb == x & (1u64 << b),
            xc == x & (1u64 << c),
    ;
    lemma_pop_disjoint(xa, xb);
    lemma_pop_disjoint(xa | xb, xc);
    lemma_pop_single(a);
    lemma_pop_single(b);
    lemma_pop_single(c);
    assert(popcount(0u64) == 0);
}

/// A gap is an empty square of its line.
proof fn lemma_gap(b: Board, k: int)
    requires
        b.wf(),
        0 <= k < N_STATES,
        b.empties() & line_mask(k) != 0,
    ensures
        b.legal(b.gap(k)),
        bit(line_mask(k), (b.gap(k) - 1) as u64),
{
    let e = b.empties();
    let m = line_mask(k);
    let x = e & m;
    axiom_u64_trailing_zeros(x);
    let t = x.trailing_zeros() as u64;
    lemma_empties_in_board(b);
    assert(x == e & m && e & 0x1ff == e && x != 0 && t < 64 && (x >> t) & 1u64 == 1u64
        ==> (e >> t) & 1u64 == 1u64 && t < 9 && (m >> t) & 1u64 == 1u64) by (bit_vector);
}

proof fn lemma_empties_in_board(b: Board)
    requires
        b.wf(),
    ensures
        b.empties() & 0x1ff == b.empties(),
        b.empties() & b.mine() == 0,
        b.empties() & b.theirs() == 0,
{
    let t0 = b.tiles[0];
    let t1 = b.tiles[1];
    assert(t0 & t1 == 0 && (t0 | t1) & 0x1ff == t0 | t1 ==> (0x1ff ^ t0 ^ t1) & 0x1ff == 0x1ff ^ t0 ^ t1
        && (0x1ff ^ t0 ^ t1) & t0 == 0 && (0x1ff ^ t0 ^ t1) & t1 == 0) by (bit_vector);
}

/// Taking the gap of a line where one holds all but one square completes it.
proof fn lemma_win_completes(me: u64, e: u64, m: u64, t: u64)
    requires
        two_of(me & m, m),
        e & m != 0,
        e & me == 0,
        t < 64,
        ((e & m) >> t) & 1u64 == 1u64,
    ensures
        covers(me | (1u64 << t), m),
{
    assert(((me & m) & m == (me & m) && (me & m) != m && (m ^ (me & m)) & (((m ^ (me & m)) - 1) as u64) == 0)
        && e & m != 0 && e & me == 0 && t < 64 && ((e & m) >> t) & 1u64 == 1u64
        ==> (me | (1u64 << t)) & m == m) by (bit_vector);
}

/// Completing a line with one move means the line had one gap and N-1 squares held.
proof fn lemma_completes_was_win(me: u64, e: u64, m: u64, p: u64)
    requires
        covers(me | (1u64 << p), m),
        !covers(me, m),
        p < 64,
        (e >> p) & 1u64 == 1u64,
        e & me == 0,
    ensures
        two_of(me & m, m),
        e & m != 0,
{
    assert((me | (1u64 << p)) & m == m && me & m != m && p < 64 && (e >> p) & 1u64 == 1u64 && e & me == 0
        ==> ((me & m) & m == (me & m) && (me & m) != m && (m ^ (me & m)) & (((m ^ (me & m)) - 1) as u64) == 0)
        && e & m != 0) by (bit_vector);
}

/// On an unfinished board nobody holds a whole line.
proof fn lemma_unfinished_no_line(b: Board)
    requires
        b.state_spec() == State::Unfinished,
    ensures
        forall|j: int| 0 <= j < N_STATES ==> !covers(b.tiles[0], #[trigger] line_mask(j)) && !covers(b.tiles[1], line_mask(j)),
{
}

/// A held line ends the game.
proof fn lemma_line_finishes(b: Board, j: int)
    requires
        0 <= j < N_STATES,
        covers(b.tiles[0], line_mask(j)) || covers(b.tiles[1], line_mask(j)),
    ensures
        b.state_spec() != State::Unfinished,
{
}

/// When only the opponent holds a line, the score is -1.
proof fn lemma_score_lost(b: Board, j: int)
    requires
        0 <= j < N_STATES,
        covers(b.theirs(), line_mask(j)),
        forall|i: int| 0 <= i < N_STATES ==> !covers(b.mine(), #[trigger] line_mask(i)),
    ensures
        b.score_spec() == -1,
{
}

/// With no line held and an empty square, the game goes on.
proof fn lemma_unfinished_state(b: Board)
    requires
        b.empties() != 0,
        forall|j: int| 0 <= j < N_STATES ==> !covers(b.tiles[0], #[trigger] line_mask(j)) && !covers(b.tiles[1], line_mask(j)),
    ensures
        b.state_spec() == State::Unfinished,
{
}

/// The best over moves none of which is worth more than `x` is at most `x`.
proof fn lemma_best_le(b: Board, ms: Seq<usize>, x: int)
    requires
        b.wf(),
        x >= -2,
        forall|i: int| 0 <= i < ms.len() && b.legal(#[trigger] ms[i] as int) ==> move_value(b, ms[i] as int) <= x,
    ensures
        best(b, ms) <= x,
    decreases ms.len(),
{
    if ms.len() > 0 {
        lemma_best_le(b, ms.drop_last(), x);
        assert(b.legal(ms.last() as int) ==> move_value(b, ms[ms.len() - 1] as int) <= x);
    }
}

/// A board whose player to move can complete line `k` is won: the gap is worth 1.
pub proof fn lemma_win_move(b: Board, k: int)
    requires
        b.wf(),
        b.state_spec() == State::Unfinished,
        0 <= k < N_STATES,
        b.line_win(k),
    ensures
        b.legal(b.gap(k)),
        move_value(b, b.gap(k)) == 1,
        value(b) == 1,
{
    let g = b.gap(k);
    let m = line_mask(k);
    lemma_gap(b, k);
    lemma_empties_in_board(b);
    let me = b.mine();
    assert((me & m) & m == me & m) by (bit_vector);
    lemma_pop_two(b.mine() & m, k);
    let x = b.empties() & m;
    axiom_u64_trailing_zeros(x);
    lemma_win_completes(b.mine(), b.empties(), m, (g - 1) as u64);
    lemma_after(b, g);
    let c = b.after(g);
    lemma_unfinished_no_line(b);
    assert(covers(c.theirs(), m));
    lemma_line_finishes(c, k);
    assert forall|i: int| 0 <= i < N_STATES implies !covers(c.mine(), #[trigger] line_mask(i)) by {}
    lemma_score_lost(c, k);
    lemma_unfinished_has_move(b);
    lemma_moves_contain(b, g);
    let j = choose|j: int| 0 <= j < b.moves().len() && b.moves()[j] == g;
    lemma_best_ge(b, b.moves(), j);
    lemma_value_bounds(b);
}

proof fn lemma_moves_contain(b: Board, m: int)
    requires
        b.wf(),
        b.legal(m),
    ensures
        exists|j: int| 0 <= j < b.moves().len() && b.moves()[j] == m,
{
    crate::board::lemma_moves_below_pub(b.empties(), N2 as nat);
    assert(bit(b.empties(), ((m as usize) - 1) as u64));
    assert(b.moves().contains(m as usize));
}

/// Which of the three outcomes the forced-move scan ended in.
proof fn lemma_forced_cases(b: Board, k: int, blk: int)
    requires
        0 <= k <= N_STATES,
    ensures
        ({
            let r = b.forced_from(k, blk);
            (exists|j: int| k <= j < N_STATES && b.line_win(j) && r == b.gap(j))
            || ((forall|j: int| k <= j < N_STATES ==> !#[trigger] b.line_win(j))
                && (r == blk || exists|j: int| k <= j < N_STATES && b.line_block(j) && r == b.gap(j)))
        }),
    decreases N_STATES - k,
{
    if k < N_STATES {
        if b.line_win(k) {
        } else if b.line_block(k) {
            lemma_forced_cases(b, k + 1, b.gap(k));
        } else {
            lemma_forced_cases(b, k + 1, blk);
        }
    }
}

/// On an unfinished board, a forced move is legal and worth the board's value.
pub proof fn lemma_forced_move(b: Board)
    requires
        b.wf(),
        b.state_spec() == State::Unfinished,
        b.forced_spec() != 0,
    ensures
        b.legal(b.forced_spec()),
        value(b) == move_value(b, b.forced_spec()),
{
    let f = b.forced_spec();
    lemma_forced_cases(b, 0, 0);
    if exists|j: int| 0 <= j < N_STATES && b.line_win(j) && f == b.gap(j) {
        let j = choose|j: int| 0 <= j < N_STATES && b.line_win(j) && f == b.gap(j);
        lemma_win_move(b, j);
    } else {
        let k = choose|j: int| 0 <= j < N_STATES && b.line_block(j) && f == b.gap(j);
        let mk = line_mask(k);
        lemma_gap(b, k);
        lemma_empties_in_board(b);
        lemma_unfinished_no_line(b);
        lemma_unfinished_has_move(b);
        lemma_after(b, f);
        lemma_value_bounds(b.after(f));
        assert forall|i: int| 0 <= i < b.moves().len() && b.legal(#[trigger] b.moves()[i] as int)
            implies move_value(b, b.moves()[i] as int) <= move_value(b, f) by {
            let m = b.moves()[i] as int;
            if m != f {
                lemma_other_move_loses(b, k, m);
            }
        }
        lemma_best_le(b, b.moves(), move_value(b, f));
        lemma_moves_contain(b, f);
        let j = choose|j: int| 0 <= j < b.moves().len() && b.moves()[j] == f;
        lemma_best_ge(b, b.moves(), j);
    }
}

/// With no winning line, a threat on line `k`, and a move `m` other than its
/// gap, the opponent wins: `m` is worth -1.
proof fn lemma_other_move_loses(b: Board, k: int, m: int)
    requires
        b.wf(),
        b.state_spec() == State::Unfinished,
        0 <= k < N_STATES,
        b.line_block(k),
        forall|j: int| 0 <= j < N_STATES ==> !#[trigger] b.line_win(j),
        b.legal(m),
        m != b.gap(k),
    ensures
        move_value(b, m) == -1,
{
    let mk = line_mask(k);
    let g = b.gap(k);
    lemma_gap(b, k);
    lemma_empties_in_board(b);
    lemma_unfinished_no_line(b);
    lemma_after(b, m);
    let c = b.after(m);
    // the opponent's threat survives the move
    let e = b.empties();
    let p = (m - 1) as u64;
    let t = (g - 1) as u64;
    assert(((e & mk) >> t) & 1u64 == 1u64 ==> (e >> t) & 1u64 == 1u64) by (bit_vector);
    assert(t != p && p < 64 && t < 64 && (e >> t) & 1u64 == 1u64 && ((e & mk) >> t) & 1u64 == 1u64
        ==> (e ^ (1u64 << p)) & mk != 0 && ((e ^ (1u64 << p)) >> t) & 1u64 == 1u64) by (bit_vector);
    let x = e & mk;
    axiom_u64_trailing_zeros(x);
    assert(c.line_win(k));
    // the move itself completes no line
    assert forall|j: int| 0 <= j < N_STATES implies !covers(c.theirs(), #[trigger] line_mask(j)) by {
        if covers(c.theirs(), line_mask(j)) {
            lemma_completes_was_win(b.mine(), e, line_mask(j), p);
            let mj = line_mask(j);
            let me = b.mine();
            assert((me & mj) & mj == me & mj) by (bit_vector);
            lemma_pop_two(b.mine() & line_mask(j), j);
            assert(b.line_win(j));
        }
    }
    assert(c.empties() != 0) by {
        assert((e ^ (1u64 << p)) >> t & 1u64 == 1u64 ==> e ^ (1u64 << p) != 0) by (bit_vector);
    }
    lemma_unfinished_state(c);
    lemma_win_move(c, k);
}

/// A line held by the player to move scores 1; a line held by the opponent
/// alone scores -1; a full board with no line held is a draw.
pub proof fn lemma_terminal_scoring(b: Board)
    requires
        b.wf(),
    ensures
        has_line(b.mine()) ==> b.score_spec() == 1,
        has_line(b.theirs()) && !has_line(b.mine()) ==> b.score_spec() == -1,
        b.empties() == 0 && !has_line(b.tiles[0]) && !has_line(b.tiles[1]) ==> b.state_spec() == State::Draw,
{
}

} // verus!
