//! Monte Carlo tree search over the root's children, with random playouts.
//!
//! Rewards are counted in half points: a won playout is worth 2, a drawn one 1.
//! How a visited child ranks during the search (the UCT formula, which needs
//! floating point) is supplied by the caller as `rank(parent_visits, reward,
//! visits)`; unvisited children always come first, and ties are broken at random.
use vstd::prelude::*;
use crate::bitboards::WinLines;
use crate::board::{is_play, lemma_after, lemma_play_step, lemma_unfinished_has_move, plays_to, random_below, Board, State};

verus! {

/// Bound on the iterations of one search, so that reward products fit in 64 bits.
pub const MAX_ITERATIONS: usize = 0x8000_0000;

/// Iterations of a search when none are given.
pub const DEFAULT_ITERATIONS: usize = 1000;

/// A child of the root: the board after `move_`, and its playout statistics.
#[derive(Clone, Copy, Debug)]
pub struct Node {
    pub board: Board,
    pub move_: usize,
    /// Sum of the playout rewards, in half points.
    pub reward: u64,
    pub visits: u64,
}

/// The reward of a playout that ended in `end`, for the player to move at a
/// node whose turn is `turn`: 1 for a draw, 2 for a decided game that ends with
/// the same player to move, 0 otherwise.
pub open spec fn rollout_reward(turn: usize, end: Board) -> u64 {
    match end.state_spec() {
        State::Draw => 1,
        State::Unfinished => 0,
        _ => if end.turn == turn {
            2
        } else {
            0
        },
    }
}

/// `small` holds no square that `large` does not.
pub open spec fn extends(small: Board, large: Board) -> bool {
    small.tiles[0] & large.tiles[0] == small.tiles[0] && small.tiles[1] & large.tiles[1] == small.tiles[1]
}

proof fn lemma_extends_step(a: u64, x: u64, s: u64)
    requires
        a & x == a,
    ensures
        a & (x | s) == a,
        x & (x | s) == x,
{
    assert(a & x == a ==> a & (x | s) == a && x & (x | s) == x) by (bit_vector);
}

proof fn lemma_bits_self(a: u64)
    ensures
        a & a == a,
        a | 0 == a,
{
    assert(a & a == a && a | 0 == a) by (bit_vector);
}

/// Plays random legal moves from `board` until the game is over.
pub fn playout(board: &Board, lines: &WinLines) -> (r: Board)
    requires
        board.wf(),
        lines.wf(),
    ensures
        r.wf(),
        r.state_spec() != State::Unfinished,
        extends(*board, r),
        plays_to(*board, r),
{
    let mut copy = *board;
    let ghost mut path: Seq<Board> = seq![*board];
    let mut state = copy.state(lines);
    proof {
        lemma_bits_self(board.tiles[0]);
        lemma_bits_self(board.tiles[1]);
    }
    while state == State::Unfinished
        invariant
            copy.wf(),
            lines.wf(),
            state == copy.state_spec(),
            extends(*board, copy),
            is_play(path),
            path[0] == *board,
            path.last() == copy,
        decreases copy.empties(),
    {
        proof {
            lemma_unfinished_has_move(copy);
        }
        let m: usize = copy.random_move();
        let ghost prev = copy;
        proof {
            lemma_after(copy, m as int);
            lemma_extends_step(board.tiles[0], prev.tiles[0], crate::board::square(m as int));
            lemma_extends_step(board.tiles[1], prev.tiles[1], crate::board::square(m as int));
            lemma_bits_self(prev.tiles[0]);
            lemma_bits_self(prev.tiles[1]);
            lemma_play_step(path, m as int);
            path = path.push(copy.after(m as int));
        }
        copy.make(m);
        state = copy.state(lines);
    }
    assert(plays_to(*board, copy));
    copy
}

impl Node {
    /// One child per legal move, in ascending order of the move, unvisited.
    pub fn expand(&self) -> (r: Vec<Node>)
        requires
            self.board.wf(),
            self.board.state_spec() == State::Unfinished,
        ensures
            r.len() == self.board.moves().len(),
            forall|i: int| 0 <= i < r.len() ==> {
                &&& #[trigger] r[i].move_ == self.board.moves()[i]
                &&& r[i].board == self.board.after(r[i].move_ as int)
                &&& r[i].board.wf()
                &&& r[i].reward == 0
                &&& r[i].visits == 0
            },
    {
        proof {
            lemma_unfinished_has_move(self.board);
        }
        let moves: Vec<usize> = self.board.gen_moves();
        let mut nodes: Vec<Node> = Vec::new();
        let mut i: usize = 0;
        while i < moves.len()
            invariant
                self.board.wf(),
                i <= moves.len(),
                moves@ == self.board.moves(),
                forall|j: int| 0 <= j < moves.len() ==> self.board.legal(#[trigger] moves[j] as int),
                nodes.len() == i,
                forall|j: int| 0 <= j < i ==> {
                    &&& #[trigger] nodes[j].move_ == self.board.moves()[j]
                    &&& nodes[j].board == self.board.after(nodes[j].move_ as int)
                    &&& nodes[j].board.wf()
                    &&& nodes[j].reward == 0
                    &&& nodes[j].visits == 0
                },
            decreases moves.len() - i,
        {
            let m = moves[i];
            let mut copy = self.board;
            proof {
                lemma_after(self.board, m as int);
            }
            copy.make(m);
            nodes.push(Node { board: copy, move_: m, reward: 0, visits: 0 });
            i = i + 1;
        }
        nodes
    }

    /// Counts one playout that ended in `end`.
    pub fn record(&mut self, end: &Board, lines: &WinLines)
        requires
            end.wf(),
            lines.wf(),
            end.state_spec() != State::Unfinished,
            old(self).visits < u64::MAX,
            old(self).reward <= u64::MAX - 2,
        ensures
            final(self).visits == old(self).visits + 1,
            final(self).reward == old(self).reward + rollout_reward(old(self).board.turn, *end),
            final(self).board == old(self).board,
            final(self).move_ == old(self).move_,
    {
        let state = end.state(lines);
        self.visits = self.visits + 1;
        match state {
            State::Draw => {
                self.reward = self.reward + 1;
            },
            State::Unfinished => {},
            _ => {
                if self.board.turn == end.turn {
                    self.reward = self.reward + 2;
                }
            },
        }
    }

    /// Plays the node's board out at random and counts the result.
    pub fn random_rollout(&mut self, lines: &WinLines)
        requires
            old(self).board.wf(),
            lines.wf(),
            old(self).visits < u64::MAX,
            old(self).reward <= u64::MAX - 2,
        ensures
            final(self).visits == old(self).visits + 1,
            old(self).reward <= final(self).reward <= old(self).reward + 2,
            exists|end: Board| #![auto] end.wf() && end.state_spec() != State::Unfinished && extends(old(self).board, end)
                && plays_to(old(self).board, end) && final(self).reward == old(self).reward + rollout_reward(old(self).board.turn, end),
            final(self).board == old(self).board,
            final(self).move_ == old(self).move_,
    {
        let end = playout(&self.board, lines);
        self.record(&end, lines);
    }
}

/// The largest of `s`, 0 for an empty sequence.
pub open spec fn seq_max(s: Seq<u64>) -> u64
    decreases s.len(),
{
    if s.len() == 0 {
        0
    } else {
        let m = seq_max(s.drop_last());
        if s.last() > m {
            s.last()
        } else {
            m
        }
    }
}

/// The positions below `n` where `s` holds `v`, ascending.
pub open spec fn indices_of(s: Seq<u64>, v: u64, n: int) -> Seq<usize>
    decreases n,
{
    if n <= 0 {
        Seq::empty()
    } else if s[n - 1] == v {
        indices_of(s, v, n - 1).push((n - 1) as usize)
    } else {
        indices_of(s, v, n - 1)
    }
}

/// The positions where `s` is largest, ascending.
pub open spec fn maxima(s: Seq<u64>) -> Seq<usize> {
    indices_of(s, seq_max(s), s.len() as int)
}

proof fn lemma_seq_max(s: Seq<u64>)
    ensures
        forall|j: int| 0 <= j < s.len() ==> s[j] <= seq_max(s),
        s.len() > 0 ==> exists|j: int| 0 <= j < s.len() && s[j] == seq_max(s),
    decreases s.len(),
{
    if s.len() > 0 {
        lemma_seq_max(s.drop_last());
        if s.len() > 1 && s.last() <= seq_max(s.drop_last()) {
            let j = choose|j: int| 0 <= j < s.drop_last().len() && s.drop_last()[j] == seq_max(s.drop_last());
            assert(s[j] == seq_max(s));
        } else {
            assert(s[s.len() - 1] == seq_max(s));
        }
        assert forall|j: int| 0 <= j < s.len() implies s[j] <= seq_max(s) by {
            if j < s.len() - 1 {
                assert(s[j] == s.drop_last()[j]);
            }
        }
    }
}

proof fn lemma_indices_of(s: Seq<u64>, v: u64, n: int)
    requires
        0 <= n <= s.len(),
        s.len() <= usize::MAX,
    ensures
        indices_of(s, v, n).len() <= n,
        forall|i: int| 0 <= i < indices_of(s, v, n).len() ==> #[trigger] indices_of(s, v, n)[i] < n
            && s[indices_of(s, v, n)[i] as int] == v,
        forall|i: int, j: int| 0 <= i < j < indices_of(s, v, n).len() ==> #[trigger] indices_of(s, v, n)[i] < #[trigger] indices_of(s, v, n)[j],
        forall|k: int| 0 <= k < n && s[k] == v ==> #[trigger] indices_of(s, v, n).contains(k as usize),
    decreases n,
{
    if n > 0 {
        lemma_indices_of(s, v, n - 1);
        let prev = indices_of(s, v, n - 1);
        assert forall|k: int| 0 <= k < n && s[k] == v implies #[trigger] indices_of(s, v, n).contains(k as usize) by {
            if k < n - 1 {
                assert(prev.contains(k as usize));
                let i = choose|i: int| 0 <= i < prev.len() && prev[i] == k as usize;
                assert(indices_of(s, v, n)[i] == k as usize);
            } else {
                assert(indices_of(s, v, n)[prev.len() as int] == k as usize);
            }
        }
    }
}

/// The positions where `keys` is largest, ascending.
pub fn max_positions(keys: &Vec<u64>) -> (r: Vec<usize>)
    requires
        keys.len() > 0,
    ensures
        r@ == maxima(keys@),
        r.len() > 0,
        forall|i: int| 0 <= i < r.len() ==> #[trigger] r[i] < keys.len() && keys[r[i] as int] == seq_max(keys@),
        forall|j: int| 0 <= j < keys.len() ==> keys[j] <= seq_max(keys@),
{
    let mut max_key: u64 = 0;
    let mut i: usize = 0;
    while i < keys.len()
        invariant
            i <= keys.len(),
            max_key == seq_max(keys@.take(i as int)),
        decreases keys.len() - i,
    {
        assert(keys@.take(i + 1).drop_last() =~= keys@.take(i as int));
        if keys[i] > max_key {
            max_key = keys[i];
        }
        i = i + 1;
    }
    assert(keys@.take(keys.len() as int) =~= keys@);
    let mut best: Vec<usize> = Vec::new();
    let mut j: usize = 0;
    while j < keys.len()
        invariant
            j <= keys.len(),
            max_key == seq_max(keys@),
            best@ == indices_of(keys@, max_key, j as int),
        decreases keys.len() - j,
    {
        if keys[j] == max_key {
            best.push(j);
        }
        j = j + 1;
    }
    proof {
        lemma_seq_max(keys@);
        lemma_indices_of(keys@, max_key, keys.len() as int);
        let w = choose|w: int| 0 <= w < keys.len() && keys@[w] == seq_max(keys@);
        assert(best@.contains(w as usize));
    }
    best
}

/// Picks uniformly at random one of the positions where `keys` is largest.
pub fn select_max(keys: &Vec<u64>) -> (r: usize)
    requires
        keys.len() > 0,
    ensures
        exists|d: int| 0 <= d < maxima(keys@).len() && r == maxima(keys@)[d],
        r < keys.len(),
        forall|j: int| 0 <= j < keys.len() ==> keys[j] <= keys[r as int],
{
    let best = max_positions(keys);
    let pick: usize = random_below(best.len());
    best[pick]
}

/// `k` is the key of child `c` in the search: the largest key for an
/// unvisited child, else what `rank` returned, lowered by one if it was the
/// largest key.
pub open spec fn ucb_key<F: Fn(u64, u64, u64) -> u64>(rank: &F, parent_visits: u64, c: Node, k: u64) -> bool {
    if c.visits == 0 {
        k == u64::MAX
    } else {
        exists|x: u64| #[trigger] rank.ensures((parent_visits, c.reward, c.visits), x)
            && k == (if x == u64::MAX { (u64::MAX - 1) as u64 } else { x })
    }
}

/// Statistics that one search can reach: visits within the iteration bound and
/// rewards of at most 2 per visit.
pub open spec fn bounded(children: Seq<Node>, limit: nat) -> bool {
    forall|j: int| 0 <= j < children.len() ==> #[trigger] children[j].visits <= limit && children[j].reward <= 2 * children[j].visits
}

/// The child to play out next: one of those with the largest key, at
/// random; unvisited children come first, visited ones as `rank` places them.
pub fn tree_policy<F: Fn(u64, u64, u64) -> u64>(parent_visits: u64, children: &Vec<Node>, rank: &F) -> (r: usize)
    requires
        children.len() > 0,
        forall|p: u64, w: u64, v: u64| rank.requires((p, w, v)),
    ensures
        r < children.len(),
        exists|keys: Seq<u64>| {
            &&& keys.len() == children.len()
            &&& forall|i: int| 0 <= i < keys.len() ==> ucb_key(rank, parent_visits, children[i], #[trigger] keys[i])
            &&& exists|d: int| 0 <= d < maxima(keys).len() && r == maxima(keys)[d]
            &&& forall|j: int| 0 <= j < keys.len() ==> keys[j] <= keys[r as int]
        },
        (exists|j: int| 0 <= j < children.len() && #[trigger] children[j].visits == 0) ==> children[r as int].visits == 0,
{
    let mut keys: Vec<u64> = Vec::new();
    let mut i: usize = 0;
    while i < children.len()
        invariant
            i <= children.len(),
            keys.len() == i,
            forall|p: u64, w: u64, v: u64| rank.requires((p, w, v)),
            forall|j: int| 0 <= j < i ==> ucb_key(rank, parent_visits, children[j], #[trigger] keys[j]),
            forall|j: int| 0 <= j < i ==> (#[trigger] keys[j] == u64::MAX <==> children[j].visits == 0),
        decreases children.len() - i,
    {
        let child = children[i];
        if child.visits == 0 {
            keys.push(u64::MAX);
        } else {
            let k = rank(parent_visits, child.reward, child.visits);
            keys.push(if k == u64::MAX { u64::MAX - 1 } else { k });
            assert(ucb_key(rank, parent_visits, children[i as int], keys[i as int]));
        }
        i = i + 1;
    }
    let r = select_max(&keys);
    proof {
        if exists|j: int| 0 <= j < children.len() && #[trigger] children[j].visits == 0 {
            let j = choose|j: int| 0 <= j < children.len() && #[trigger] children[j].visits == 0;
            assert(keys[j] == u64::MAX);
        }
        assert(keys@.len() == children.len());
    }
    r
}

/// Child `a`'s mean reward is at least child `b`'s.
pub open spec fn mean_ge(a: Node, b: Node) -> bool {
    a.reward * b.visits >= b.reward * a.visits
}

/// Child `a` ranks at least as high as `b` once the search is over: an
/// unvisited child ranks first, visited ones by mean reward.
pub open spec fn prefer(a: Node, b: Node) -> bool {
    a.visits == 0 || (b.visits != 0 && mean_ge(a, b))
}

proof fn lemma_mean_trans(ar: int, av: int, br: int, bv: int, cr: int, cv: int)
    requires
        av > 0,
        bv > 0,
        cv > 0,
        ar * bv >= br * av,
        br * cv >= cr * bv,
    ensures
        ar * cv >= cr * av,
{
    assert(ar * bv * cv >= br * av * cv) by (nonlinear_arith)
        requires
            ar * bv >= br * av,
            cv > 0,
    ;
    assert(br * cv * av >= cr * bv * av) by (nonlinear_arith)
        requires
            br * cv >= cr * bv,
            av > 0,
    ;
    assert(br * av * cv == br * cv * av) by (nonlinear_arith);
    assert(ar * bv * cv == (ar * cv) * bv) by (nonlinear_arith);
    assert(cr * bv * av == (cr * av) * bv) by (nonlinear_arith);
    assert(ar * cv >= cr * av) by (nonlinear_arith)
        requires
            (ar * cv) * bv >= (cr * av) * bv,
            bv > 0,
    ;
}

proof fn lemma_prefer_trans(a: Node, b: Node, c: Node)
    requires
        prefer(a, b),
        prefer(b, c),
    ensures
        prefer(a, c),
{
    if a.visits != 0 {
        lemma_mean_trans(a.reward as int, a.visits as int, b.reward as int, b.visits as int, c.reward as int, c.visits as int);
    }
}

/// The child with the highest mean reward, an unvisited one coming first; ties at random.
pub fn best_child(children: &Vec<Node>) -> (r: usize)
    requires
        children.len() > 0,
        bounded(children@, MAX_ITERATIONS as nat),
    ensures
        r < children.len(),
        forall|j: int| 0 <= j < children.len() ==> prefer(children[r as int], #[trigger] children[j]),
{
    let mut best: Vec<usize> = Vec::new();
    best.push(0);
    let mut i: usize = 1;
    while i < children.len()
        invariant
            1 <= i <= children.len(),
            bounded(children@, MAX_ITERATIONS as nat),
            best.len() > 0,
            forall|j: int| 0 <= j < best.len() ==> #[trigger] best[j] < i,
            forall|j: int, l: int| 0 <= j < best.len() && 0 <= l < i ==> prefer(children[#[trigger] best[j] as int], #[trigger] children[l]),
        decreases children.len() - i,
    {
        let top = children[best[0]];
        let c = children[i];
        proof {
            assert(top.reward <= 2 * top.visits && c.reward <= 2 * c.visits);
            assert(top.reward * c.visits <= 2 * 0x8000_0000 * 0x8000_0000) by (nonlinear_arith)
                requires
                    top.reward <= 2 * 0x8000_0000,
                    c.visits <= 0x8000_0000,
            ;
            assert(c.reward * top.visits <= 2 * 0x8000_0000 * 0x8000_0000) by (nonlinear_arith)
                requires
                    c.reward <= 2 * 0x8000_0000,
                    top.visits <= 0x8000_0000,
            ;
        }
        let better: bool;
        let equal: bool;
        if top.visits == 0 {
            better = false;
            equal = c.visits == 0;
        } else if c.visits == 0 {
            better = true;
            equal = false;
        } else {
            let lhs = c.reward * top.visits;
            let rhs = top.reward * c.visits;
            better = lhs > rhs;
            equal = lhs == rhs;
        }
        proof {
            assert(prefer(c, c));
            assert(better ==> prefer(c, top));
            assert(equal ==> prefer(c, top) && prefer(top, c));
            assert(!better && !equal ==> prefer(top, c));
            assert forall|j: int, l: int| 0 <= j < best.len() && 0 <= l < i && !better
                implies prefer(children[#[trigger] best[j] as int], #[trigger] children[l]) by {}
            if better || equal {
                assert forall|l: int| 0 <= l < i implies prefer(c, #[trigger] children[l]) by {
                    lemma_prefer_trans(c, top, children[l]);
                }
            }
            if !better {
                assert forall|j: int| 0 <= j < best.len() implies prefer(children[#[trigger] best[j] as int], c) by {
                    lemma_prefer_trans(children[best[j] as int], top, c);
                }
            }
        }
        if better {
            best.clear();
            best.push(i);
        } else if equal {
            best.push(i);
        }
        proof {
            assert forall|j: int, l: int| 0 <= j < best.len() && 0 <= l < i + 1
                implies prefer(children[#[trigger] best[j] as int], #[trigger] children[l]) by {
                if l < i && best[j] < i {
                } else if l == i {
                }
            }
        }
        i = i + 1;
    }
    let pick: usize = random_below(best.len());
    best[pick]
}

/// Runs `n` iterations (1000 if `None`): pick a child by `tree_policy`, count
/// a visit at the root, play the child out at random. Then returns the child
/// that `best_child` picks, as `(0, move)`.
pub fn mcts<F: Fn(u64, u64, u64) -> u64>(board: &Board, lines: &WinLines, n: Option<usize>, rank: &F) -> (r: (isize, usize))
    requires
        board.wf(),
        lines.wf(),
        board.state_spec() == State::Unfinished,
        forall|p: u64, w: u64, v: u64| rank.requires((p, w, v)),
        match n {
            Some(m) => m <= MAX_ITERATIONS,
            None => true,
        },
    ensures
        r.0 == 0,
        board.legal(r.1 as int),
        exists|cs: Seq<Node>| {
            &&& cs.len() == board.moves().len()
            &&& forall|i: int| 0 <= i < cs.len() ==> #[trigger] cs[i].move_ == board.moves()[i]
            &&& bounded(cs, MAX_ITERATIONS as nat)
            &&& exists|k: int| 0 <= k < cs.len() && r.1 == cs[k].move_
                && forall|j: int| 0 <= j < cs.len() ==> prefer(cs[k], #[trigger] cs[j])
        },
{
    let m: usize = match n {
        Some(m) => m,
        None => DEFAULT_ITERATIONS,
    };
    let root = Node { board: *board, move_: 0, reward: 0, visits: 0 };
    let mut children: Vec<Node> = root.expand();
    proof {
        lemma_unfinished_has_move(*board);
    }
    assert forall|j: int| 0 <= j < children.len() implies #[trigger] children[j].visits <= 0 && children[j].reward <= 2 * children[j].visits by {
        assert(children[j].move_ == board.moves()[j]);
    }
    let mut root_visits: u64 = 0;
    let mut it: usize = 0;
    while it < m
        invariant
            board.wf(),
            lines.wf(),
            it <= m <= MAX_ITERATIONS,
            root_visits == it,
            forall|p: u64, w: u64, v: u64| rank.requires((p, w, v)),
            children.len() == board.moves().len(),
            children.len() > 0,
            bounded(children@, it as nat),
            forall|i: int| 0 <= i < children.len() ==> #[trigger] children[i].move_ == board.moves()[i]
                && children[i].board.wf(),
        decreases m - it,
    {
        let i = tree_policy(root_visits, &children, rank);
        root_visits = root_visits + 1;
        let mut node = children[i];
        assert(children[i as int].move_ == board.moves()[i as int]);
        node.random_rollout(lines);
        let ghost before = children@;
        children.set(i, node);
        assert forall|j: int| 0 <= j < children.len() implies #[trigger] children[j].visits <= it + 1 && children[j].reward <= 2 * children[j].visits by {
            assert(before[j].visits <= it && before[j].reward <= 2 * before[j].visits);
        }
        assert forall|j: int| 0 <= j < children.len() implies #[trigger] children[j].move_ == board.moves()[j]
            && children[j].board.wf() by {
            assert(before[j].move_ == board.moves()[j]);
        }
        it = it + 1;
    }
    let i = best_child(&children);
    proof {
        assert(children[i as int].move_ == board.moves()[i as int]);
        assert(bounded(children@, MAX_ITERATIONS as nat));
        let cs = children@;
        assert(forall|j: int| 0 <= j < cs.len() ==> prefer(cs[i as int], #[trigger] cs[j]));
    }
    (0, children[i].move_)
}

} // verus!
