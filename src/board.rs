//! The game state: one bitboard per player and the player to move.
use vstd::prelude::*;
use crate::{N, N2, N_STATES};
use crate::bitboards::{bit, line_mask, popcount, WinLines};

verus! {

/// All N² squares.
pub const FULL: u64 = 0x1ff;

pub const PLAYER1: usize = 0;

pub const PLAYER2: usize = 1;

#[derive(Clone, Copy, Debug, PartialEq, Eq, Structural)]
pub enum State {
    Player1Won,
    Player2Won,
    Draw,
    Unfinished,
}

/// Bit `i` of `tiles[p]` set means player `p` holds square `i + 1`.
#[derive(Clone, Copy, Debug, PartialEq, Eq)]
pub struct Board {
    pub tiles: [u64; 2],
    pub turn: usize,
}

/// The single-square mask of square `m` (1-indexed).
pub open spec fn square(m: int) -> u64 {
    1u64 << ((m - 1) as u64)
}

/// `x` holds every square of the mask `mask`.
pub open spec fn covers(x: u64, mask: u64) -> bool {
    x & mask == mask
}

/// `x` holds a complete winning line.
pub open spec fn has_line(x: u64) -> bool {
    exists|k: int| 0 <= k < N_STATES && covers(x, #[trigger] line_mask(k))
}

/// Relies on u64::count_ones: the number of ones in the binary representation.
#[verifier::external_body]
fn count_ones(x: u64) -> (r: u32)
    ensures
        r as nat == popcount(x),
{
    x.count_ones()
}

/// Relies on rand::Rng::gen_range over rand::thread_rng(): a value in `[0, n)`;
/// it panics when `n` is 0.
#[verifier::external_body]
pub(crate) fn random_below(n: usize) -> (r: usize)
    requires
        n > 0,
    ensures
        r < n,
{
    rand::Rng::gen_range(&mut rand::thread_rng(), 0, n)
}

/// The squares of `e` below `n`, ascending and 1-indexed.
pub open spec fn moves_below(e: u64, n: nat) -> Seq<usize>
    decreases n,
{
    if n == 0 {
        Seq::empty()
    } else if bit(e, (n - 1) as u64) {
        moves_below(e, (n - 1) as nat).push(n as usize)
    } else {
        moves_below(e, (n - 1) as nat)
    }
}

pub proof fn lemma_moves_below_pub(e: u64, n: nat)
    requires
        n <= N2,
    ensures
        forall|m: usize| 1 <= m <= n && #[trigger] bit(e, (m - 1) as u64) ==> moves_below(e, n).contains(m),
{
    lemma_moves_below(e, n);
}

proof fn lemma_moves_below(e: u64, n: nat)
    requires
        n <= N2,
    ensures
        forall|i: int| 0 <= i < moves_below(e, n).len() ==> 1 <= #[trigger] moves_below(e, n)[i] <= n
            && bit(e, (moves_below(e, n)[i] - 1) as u64),
        forall|i: int, j: int| 0 <= i < j < moves_below(e, n).len() ==> #[trigger] moves_below(e, n)[i] < #[trigger] moves_below(e, n)[j],
        forall|m: usize| 1 <= m <= n && #[trigger] bit(e, (m - 1) as u64) ==> moves_below(e, n).contains(m),
    decreases n,
{
    if n > 0 {
        lemma_moves_below(e, (n - 1) as nat);
        let prev = moves_below(e, (n - 1) as nat);
        assert forall|m: usize| 1 <= m <= n && #[trigger] bit(e, (m - 1) as u64) implies moves_below(e, n).contains(m) by {
            if m < n {
                let i = choose|i: int| 0 <= i < prev.len() && prev[i] == m;
                assert(moves_below(e, n)[i] == m);
            } else {
                assert(moves_below(e, n)[prev.len() as int] == m);
            }
        }
    }
}

impl Board {
    /// Squares are disjoint between players and lie on the board; the turn is 0 or 1.
    pub open spec fn wf(self) -> bool {
        &&& self.turn < 2
        &&& self.tiles[0] & self.tiles[1] == 0
        &&& (self.tiles[0] | self.tiles[1]) & FULL == self.tiles[0] | self.tiles[1]
    }

    /// The tiles of the player to move.
    pub open spec fn mine(self) -> u64 {
        self.tiles[self.turn as int]
    }

    /// The tiles of the other player.
    pub open spec fn theirs(self) -> u64 {
        self.tiles[1 - self.turn]
    }

    /// The empty squares.
    pub open spec fn empties(self) -> u64 {
        FULL ^ self.tiles[0] ^ self.tiles[1]
    }

    /// Square `m` (1-indexed) is on the board and empty.
    pub open spec fn legal(self, m: int) -> bool {
        1 <= m <= N2 && bit(self.empties(), (m - 1) as u64)
    }

    /// The legal moves, ascending.
    pub open spec fn moves(self) -> Seq<usize> {
        moves_below(self.empties(), N2 as nat)
    }

    /// The board after the player to move takes square `m`.
    pub open spec fn after(self, m: int) -> Board {
        if self.turn == 0 {
            Board { tiles: [self.tiles[0] | square(m), self.tiles[1]], turn: 1 }
        } else {
            Board { tiles: [self.tiles[0], self.tiles[1] | square(m)], turn: 0 }
        }
    }

    /// Player 1 has won if they hold a whole line; else player 2 has won if
    /// they do; else a full board is a draw; else the game goes on.
    pub open spec fn state_spec(self) -> State {
        if has_line(self.tiles[0]) {
            State::Player1Won
        } else if has_line(self.tiles[1]) {
            State::Player2Won
        } else if self.empties() == 0 {
            State::Draw
        } else {
            State::Unfinished
        }
    }

    /// 1 if the player to move holds a whole line, else -1 if the opponent
    /// does, else 0.
    pub open spec fn score_spec(self) -> int {
        if has_line(self.mine()) {
            1
        } else if has_line(self.theirs()) {
            -1
        } else {
            0
        }
    }

    pub proof fn lemma_score_bounds(self)
        ensures
            -1 <= self.score_spec() <= 1,
    {
    }

    /// The lowest empty square of line `k`, 1-indexed.
    pub open spec fn gap(self, k: int) -> int {
        (self.empties() & line_mask(k)).trailing_zeros() + 1
    }

    /// Line `k` has an empty square and the player to move holds all the others.
    pub open spec fn line_win(self, k: int) -> bool {
        self.empties() & line_mask(k) != 0 && popcount(self.mine() & line_mask(k)) == N - 1
    }

    /// Line `k` has an empty square and the opponent holds all the others.
    pub open spec fn line_block(self, k: int) -> bool {
        self.empties() & line_mask(k) != 0 && popcount(self.theirs() & line_mask(k)) == N - 1
    }

    /// The forced move from line `k` on, `block` being the blocking square
    /// found before `k`: the gap of the first winning line, else the gap of
    /// the last blocking line, else 0.
    pub open spec fn forced_from(self, k: int, block: int) -> int
        decreases N_STATES - k,
    {
        if k >= N_STATES {
            block
        } else if self.line_win(k) {
            self.gap(k)
        } else if self.line_block(k) {
            self.forced_from(k + 1, self.gap(k))
        } else {
            self.forced_from(k + 1, block)
        }
    }

    pub open spec fn forced_spec(self) -> int {
        self.forced_from(0, 0)
    }

    /// Takes square `index` for the player to move and passes the turn.
    pub fn make(&mut self, index: usize)
        requires
            old(self).wf(),
            old(self).legal(index as int),
        ensures
            *final(self) == old(self).after(index as int),
            final(self).wf(),
            popcount(final(self).tiles[0]) + popcount(final(self).tiles[1]) == popcount(old(self).tiles[0]) + popcount(old(self).tiles[1]) + 1,
    {
        let sqr: u64 = 1u64 << ((index - 1) as u64);
        let t = self.turn;
        proof {
            lemma_after(*self, index as int);
            lemma_wf_facts(self.tiles[0], self.tiles[1]);
            lemma_place(self.tiles[t as int], self.tiles[1 - t], (index - 1) as u64);
        }
        self.tiles[t] = self.tiles[t] ^ sqr;
        proof {
            lemma_other_turn(t);
        }
        self.turn = t ^ 1;
        assert(self.tiles =~= old(self).after(index as int).tiles);
    }

    /// The same position with the players' roles swapped.
    pub fn inverse(&self) -> (r: Board)
        ensures
            r.tiles[0] == self.tiles[1],
            r.tiles[1] == self.tiles[0],
            r.turn == self.turn ^ 1,
    {
        Board { tiles: [self.tiles[PLAYER2], self.tiles[PLAYER1]], turn: self.turn ^ 1 }
    }

    /// The empty squares.
    pub fn empty(&self) -> (r: u64)
        ensures
            r == self.empties(),
    {
        FULL ^ self.tiles[PLAYER1] ^ self.tiles[PLAYER2]
    }

    /// The empty squares, ascending and 1-indexed.
    pub fn gen_moves(&self) -> (r: Vec<usize>)
        requires
            self.wf(),
            self.empties() != 0,
        ensures
            r@ == self.moves(),
            r.len() > 0,
            forall|i: int| 0 <= i < r.len() ==> self.legal(#[trigger] r[i] as int),
            forall|i: int, j: int| 0 <= i < j < r.len() ==> #[trigger] r[i] < #[trigger] r[j],
            forall|m: usize| #[trigger] self.legal(m as int) ==> r@.contains(m),
    {
        let mut moves: Vec<usize> = Vec::new();
        let empty: u64 = FULL & !(self.tiles[PLAYER1] | self.tiles[PLAYER2]);
        proof {
            lemma_empty_forms(self.tiles[0], self.tiles[1]);
        }
        let mut sqr: usize = 0;
        while sqr < N2
            invariant
                sqr <= N2,
                empty == self.empties(),
                moves@ == moves_below(empty, sqr as nat),
            decreases N2 - sqr,
        {
            let bb: u64 = 1u64 << (sqr as u64);
            proof {
                lemma_bit_mask(empty, sqr as u64);
            }
            if bb & empty != 0 {
                moves.push(sqr + 1);
            }
            sqr = sqr + 1;
        }
        proof {
            lemma_moves_below(empty, N2 as nat);
            lemma_wf_facts(self.tiles[0], self.tiles[1]);
            lemma_nonzero_has_bit(empty);
            let i = choose|i: u64| i < 9 && bit(empty, i);
            assert(self.legal(i + 1));
            assert(moves@.contains((i + 1) as usize));
        }
        moves
    }

    /// Player 1's line wins over player 2's; without one, a full board is a draw.
    pub fn state(&self, lines: &WinLines) -> (r: State)
        requires
            self.wf(),
            lines.wf(),
        ensures
            r == self.state_spec(),
    {
        let mut second: bool = false;
        let mut k: usize = 0;
        while k < N_STATES
            invariant
                k <= N_STATES,
                lines.wf(),
                forall|j: int| 0 <= j < k ==> !covers(self.tiles[0], #[trigger] line_mask(j)),
                second <==> exists|j: int| 0 <= j < k && covers(self.tiles[1], #[trigger] line_mask(j)),
            decreases N_STATES - k,
        {
            let comb = lines.masks[k];
            if self.tiles[PLAYER1] & comb == comb {
                assert(covers(self.tiles[0], line_mask(k as int)));
                return State::Player1Won;
            }
            if self.tiles[PLAYER2] & comb == comb {
                assert(covers(self.tiles[1], line_mask(k as int)));
                second = true;
            }
            k = k + 1;
        }
        if second {
            return State::Player2Won;
        }
        if self.empty() == 0 {
            return State::Draw;
        }
        State::Unfinished
    }

    /// The mover's line wins over the opponent's: 1, else -1, else 0.
    pub fn score(&self, lines: &WinLines) -> (r: isize)
        requires
            self.wf(),
            lines.wf(),
        ensures
            r as int == self.score_spec(),
            -1 <= r <= 1,
    {
        proof {
            lemma_other_turn(self.turn);
        }
        let mut lost: bool = false;
        let mut k: usize = 0;
        while k < N_STATES
            invariant
                k <= N_STATES,
                lines.wf(),
                self.wf(),
                self.turn ^ 1 == 1 - self.turn,
                forall|j: int| 0 <= j < k ==> !covers(self.mine(), #[trigger] line_mask(j)),
                lost <==> exists|j: int| 0 <= j < k && covers(self.theirs(), #[trigger] line_mask(j)),
            decreases N_STATES - k,
        {
            let comb = lines.masks[k];
            if self.tiles[self.turn] & comb == comb {
                assert(covers(self.mine(), line_mask(k as int)));
                return 1;
            }
            if self.tiles[self.turn ^ 1] & comb == comb {
                assert(covers(self.theirs(), line_mask(k as int)));
                lost = true;
            }
            k = k + 1;
        }
        if lost {
            return -1;
        }
        0
    }

    /// Picks a legal move at random.
    pub fn random_move(&self) -> (r: usize)
        requires
            self.wf(),
            self.empties() != 0,
        ensures
            self.legal(r as int),
    {
        let moves = self.gen_moves();
        let pick: usize = random_below(moves.len());
        moves[pick]
    }

    /// A square that wins at once for the player to move (the first such line
    /// in table order), else one that stops the opponent from winning at once
    /// (the last such line), else 0.
    pub fn find_forced(&self, lines: &WinLines) -> (r: usize)
        requires
            self.wf(),
            lines.wf(),
        ensures
            r as int == self.forced_spec(),
    {
        let max: u32 = (N - 1) as u32;
        let empty = self.empty();
        let mut forced_move: usize = 0;
        let mut k: usize = 0;
        while k < N_STATES
            invariant
                k <= N_STATES,
                lines.wf(),
                self.wf(),
                empty == self.empties(),
                max == N - 1,
                forced_move <= 65,
                self.forced_spec() == self.forced_from(k as int, forced_move as int),
            decreases N_STATES - k,
        {
            let comb = lines.masks[k];
            proof {
                lemma_other_turn(self.turn);
            }
            if empty & comb != 0 {
                let gap = ((empty & comb).trailing_zeros() as usize) + 1;
                if count_ones(self.tiles[self.turn] & comb) == max {
                    return gap;
                } else if count_ones(self.tiles[self.turn ^ 1] & comb) == max {
                    forced_move = gap;
                }
            }
            k = k + 1;
        }
        forced_move
    }
}

/// A legal move keeps the board well formed and fills exactly its square.
pub proof fn lemma_after(b: Board, m: int)
    requires
        b.wf(),
        b.legal(m),
    ensures
        b.after(m).wf(),
        b.after(m).empties() < b.empties(),
        b.after(m).empties() == b.empties() ^ square(m),
        b.after(m).turn == 1 - b.turn,
        b.after(m).mine() == b.theirs(),
        b.after(m).theirs() == b.mine() | square(m),
        popcount(b.after(m).theirs()) == popcount(b.mine()) + 1,
        popcount(b.after(m).tiles[0]) + popcount(b.after(m).tiles[1]) == popcount(b.tiles[0]) + popcount(b.tiles[1]) + 1,
{
    lemma_wf_facts(b.tiles[0], b.tiles[1]);
    lemma_place(b.mine(), b.theirs(), (m - 1) as u64);
    lemma_pop_disjoint(b.mine(), square(m));
    lemma_pop_single((m - 1) as u64);
}

/// A single square counts one.
pub proof fn lemma_pop_single(i: u64)
    requires
        i < 64,
    ensures
        popcount(1u64 << i) == 1,
    decreases i,
{
    assert(i < 64 ==> (1u64 << i) != 0 && (i == 0 ==> (1u64 << i) == 1) && (i > 0 ==> (1u64 << i) % 2 == 0
        && (1u64 << i) / 2 == 1u64 << ((i - 1) as u64))) by (bit_vector);
    if i == 0 {
        reveal_with_fuel(popcount, 2);
        assert(popcount(1u64) == 1);
    } else {
        lemma_pop_single((i - 1) as u64);
    }
}

pub proof fn lemma_pop_disjoint(a: u64, c: u64)
    requires
        a & c == 0,
    ensures
        popcount(a) + popcount(c) == popcount(a | c),
    decreases a,
{
    assert(a & c == 0 ==> (a | c) % 2 == a % 2 + c % 2 && (a | c) / 2 == (a / 2) | (c / 2) && (a / 2) & (c / 2) == 0
        && 0u64 | c == c && (a == 0 ==> a | c == c)) by (bit_vector);
    if a != 0 {
        lemma_pop_disjoint(a / 2, c / 2);
        if c != 0 {
            assert(popcount(c) == (c % 2) as nat + popcount(c / 2));
        } else {
            assert(popcount(c) == 0);
            assert(a / 2 | c / 2 == a / 2 | 0);
        }
    }
}

proof fn lemma_pop_bound(x: u64, n: u64)
    requires
        n <= 64,
        x >> n == 0,
    ensures
        popcount(x) <= n,
    decreases n,
{
    assert(x != 0 && x >> n == 0 && n <= 64 ==> n > 0 && (x / 2) >> ((n - 1) as u64) == 0) by (bit_vector);
    if x != 0 {
        lemma_pop_bound(x / 2, (n - 1) as u64);
    }
}

/// Every well-formed board, as `make` keeps it: the players share no square,
/// and hold at most N² squares between them.
pub proof fn lemma_move_legality(b: Board)
    requires
        b.wf(),
    ensures
        b.tiles[0] & b.tiles[1] == 0,
        popcount(b.tiles[0]) + popcount(b.tiles[1]) <= N2,
{
    let t0 = b.tiles[0];
    let t1 = b.tiles[1];
    lemma_pop_disjoint(t0, t1);
    assert((t0 | t1) & 0x1ff == t0 | t1 ==> (t0 | t1) >> 9u64 == 0) by (bit_vector);
    lemma_pop_bound(t0 | t1, 9);
}

/// `path` is a line of play: each board after the first follows from the one
/// before it by a legal move, and every board before the last is unfinished.
pub open spec fn is_play(path: Seq<Board>) -> bool {
    &&& path.len() > 0
    &&& forall|i: int| 0 <= i < path.len() - 1 ==> (#[trigger] path[i]).state_spec() == State::Unfinished
        && exists|m: int| path[i].legal(m) && path[i + 1] == path[i].after(m)
}

/// `end` is reached from `start` by a line of play.
pub open spec fn plays_to(start: Board, end: Board) -> bool {
    exists|path: Seq<Board>| #[trigger] is_play(path) && path[0] == start && path.last() == end
}

/// A line of play goes on by one legal move from an unfinished last board.
pub proof fn lemma_play_step(path: Seq<Board>, m: int)
    requires
        is_play(path),
        path.last().state_spec() == State::Unfinished,
        path.last().legal(m),
    ensures
        is_play(path.push(path.last().after(m))),
        path.push(path.last().after(m))[0] == path[0],
{
    let p2 = path.push(path.last().after(m));
    assert forall|i: int| 0 <= i < p2.len() - 1 implies (#[trigger] p2[i]).state_spec() == State::Unfinished
        && exists|m2: int| p2[i].legal(m2) && p2[i + 1] == p2[i].after(m2) by {
        if i < path.len() - 1 {
            assert(p2[i] == path[i] && p2[i + 1] == path[i + 1]);
        } else {
            assert(p2[i] == path.last() && p2[i + 1] == path.last().after(m));
        }
    }
}

/// An unfinished board has an empty square, hence a legal move.
pub proof fn lemma_unfinished_has_move(b: Board)
    requires
        b.wf(),
        b.state_spec() == State::Unfinished,
    ensures
        b.empties() != 0,
        b.moves().len() > 0,
        forall|i: int| 0 <= i < b.moves().len() ==> b.legal(#[trigger] b.moves()[i] as int),
{
    lemma_wf_facts(b.tiles[0], b.tiles[1]);
    lemma_nonzero_has_bit(b.empties());
    lemma_moves_below(b.empties(), N2 as nat);
    let i = choose|i: u64| i < 9 && bit(b.empties(), i);
    assert(bit(b.empties(), (((i + 1) as usize) - 1) as u64));
    assert(b.moves().contains((i + 1) as usize));
}

pub proof fn lemma_wf_facts(t0: u64, t1: u64)
    requires
        t0 & t1 == 0,
        (t0 | t1) & 0x1ff == t0 | t1,
    ensures
        t1 & t0 == 0,
        (t1 | t0) & 0x1ff == t1 | t0,
        (0x1ff ^ t0 ^ t1) & 0x1ff == 0x1ff ^ t0 ^ t1,
        0x1ff ^ t1 ^ t0 == 0x1ff ^ t0 ^ t1,
{
    assert(t0 & t1 == 0 && (t0 | t1) & 0x1ff == t0 | t1 ==> t1 & t0 == 0 && (t1 | t0) & 0x1ff == t1 | t0
        && (0x1ff ^ t0 ^ t1) & 0x1ff == 0x1ff ^ t0 ^ t1 && 0x1ff ^ t1 ^ t0 == 0x1ff ^ t0 ^ t1) by (bit_vector);
}

pub proof fn lemma_other_turn(t: usize)
    requires
        t < 2,
    ensures
        t ^ 1 == 1 - t,
{
    assert(t < 2 ==> t ^ 1usize == 1 - t) by (bit_vector);
}

proof fn lemma_empty_forms(t0: u64, t1: u64)
    requires
        t0 & t1 == 0,
        (t0 | t1) & 0x1ff == t0 | t1,
    ensures
        0x1ffu64 & !(t0 | t1) == 0x1ffu64 ^ t0 ^ t1,
{
    assert(t0 & t1 == 0 && (t0 | t1) & 0x1ffu64 == t0 | t1 ==> 0x1ffu64 & !(t0 | t1) == (0x1ffu64 ^ t0 ^ t1)) by (bit_vector);
}

pub proof fn lemma_bit_mask_pub(x: u64, i: u64)
    requires
        i < 64,
    ensures
        (1u64 << i) & x != 0 <==> bit(x, i),
        x & (1u64 << i) != 0 <==> bit(x, i),
{
    lemma_bit_mask(x, i);
    assert(x & (1u64 << i) == (1u64 << i) & x) by (bit_vector);
}

proof fn lemma_bit_mask(x: u64, i: u64)
    requires
        i < 64,
    ensures
        (1u64 << i) & x != 0 <==> bit(x, i),
{
    assert(i < 64 ==> ((1u64 << i) & x != 0 <==> (x >> i) & 1u64 == 1u64)) by (bit_vector);
}

proof fn lemma_nonzero_has_bit(e: u64)
    requires
        e != 0,
        e & 0x1ff == e,
    ensures
        exists|i: u64| i < 9 && bit(e, i),
{
    assert(e != 0 && e & 0x1ff == e ==> (e & 1u64 == 1u64 || (e >> 1u64) & 1u64 == 1u64 || (e >> 2u64) & 1u64 == 1u64
        || (e >> 3u64) & 1u64 == 1u64 || (e >> 4u64) & 1u64 == 1u64 || (e >> 5u64) & 1u64 == 1u64
        || (e >> 6u64) & 1u64 == 1u64 || (e >> 7u64) & 1u64 == 1u64 || (e >> 8u64) & 1u64 == 1u64)) by (bit_vector);
    assert(e >> 0u64 == e) by (bit_vector);
    if bit(e, 0) {} else if bit(e, 1) {} else if bit(e, 2) {} else if bit(e, 3) {} else if bit(e, 4) {}
    else if bit(e, 5) {} else if bit(e, 6) {} else if bit(e, 7) {} else { assert(bit(e, 8)); }
}

/// Taking an empty square keeps the board well formed, and leaves fewer empty squares.
pub proof fn lemma_place(me: u64, them: u64, i: u64)
    requires
        me & them == 0,
        (me | them) & 0x1ff == me | them,
        i < 9,
        bit(0x1ff ^ me ^ them, i),
    ensures
        me ^ (1u64 << i) == me | (1u64 << i),
        me & (1u64 << i) == 0,
        (me | (1u64 << i)) & them == 0,
        them & (me | (1u64 << i)) == 0,
        ((me | (1u64 << i)) | them) & 0x1ff == (me | (1u64 << i)) | them,
        (them | (me | (1u64 << i))) & 0x1ff == them | (me | (1u64 << i)),
        (0x1ff ^ (me | (1u64 << i)) ^ them) < (0x1ff ^ me ^ them),
        (0x1ff ^ them ^ (me | (1u64 << i))) < (0x1ff ^ me ^ them),
        (0x1ff ^ (me | (1u64 << i)) ^ them) == (0x1ff ^ me ^ them) ^ (1u64 << i),
        (0x1ff ^ them ^ (me | (1u64 << i))) == (0x1ff ^ me ^ them) ^ (1u64 << i),
{
    assert(me & them == 0 && (me | them) & 0x1ff == me | them && i < 9 && ((0x1ff ^ me ^ them) >> i) & 1u64 == 1u64
        ==> me ^ (1u64 << i) == me | (1u64 << i)
        && me & (1u64 << i) == 0
        && (me | (1u64 << i)) & them == 0
        && them & (me | (1u64 << i)) == 0
        && ((me | (1u64 << i)) | them) & 0x1ff == (me | (1u64 << i)) | them
        && (them | (me | (1u64 << i))) & 0x1ff == them | (me | (1u64 << i))
        && (0x1ff ^ (me | (1u64 << i)) ^ them) < (0x1ff ^ me ^ them)
        && (0x1ff ^ them ^ (me | (1u64 << i))) < (0x1ff ^ me ^ them)
        && (0x1ff ^ (me | (1u64 << i)) ^ them) == (0x1ff ^ me ^ them) ^ (1u64 << i)
        && (0x1ff ^ them ^ (me | (1u64 << i))) == (0x1ff ^ me ^ them) ^ (1u64 << i)) by (bit_vector);
}

} // verus!
