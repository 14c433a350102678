//! The unfinished positions of the game, as training material for a learned player.
use vstd::prelude::*;
use crate::bitboards::{popcount, WinLines};
use crate::board::{lemma_after, lemma_other_turn, lemma_wf_facts, lemma_unfinished_has_move, Board, State, PLAYER1, PLAYER2};

verus! {

/// A board counted in a list of training positions: well formed and unfinished.
pub open spec fn is_position(b: Board) -> bool {
    b.wf() && b.state_spec() == State::Unfinished
}

/// The board with the players' roles swapped.
pub open spec fn swapped(b: Board) -> Board {
    Board { tiles: [b.tiles[1], b.tiles[0]], turn: (1 - b.turn) as usize }
}

/// The shape of a board in a game that player 1 opened: equal counts with
/// player 1 to move, or one more tile for player 1 with player 2 to move.
pub open spec fn first_mover_shape(b: Board) -> bool {
    ||| popcount(b.tiles[0]) == popcount(b.tiles[1]) && b.turn == 0
    ||| popcount(b.tiles[0]) == popcount(b.tiles[1]) + 1 && b.turn == 1
}

/// `l` is a run of pairs: a board of first-mover shape, then that board swapped.
pub open spec fn paired(l: Seq<Board>) -> bool {
    &&& l.len() % 2 == 0
    &&& forall|i: int| 0 <= i < l.len() / 2 ==> first_mover_shape(#[trigger] l[2 * i]) && l[2 * i + 1] == swapped(l[2 * i])
}

/// No board occurs twice in `l`.
pub open spec fn distinct(l: Seq<Board>) -> bool {
    forall|i: int, j: int| 0 <= i < j < l.len() ==> #[trigger] l[i] != #[trigger] l[j]
}

proof fn lemma_swapped_injective(x: Board, y: Board)
    requires
        x.turn < 2,
        y.turn < 2,
        swapped(x) == swapped(y),
    ensures
        x == y,
{
    assert(x.tiles =~= y.tiles);
}

/// Collects, depth first from `board`, the unfinished boards reachable by
/// legal moves, each followed by its inverse. A board already in `boards`
/// is not explored again. What was in `boards` stays in front.
pub fn leaf_boards(board: Board, lines: &WinLines, boards: &mut Vec<Board>)
    requires
        is_position(board),
        lines.wf(),
    ensures
        final(boards)@.len() >= old(boards)@.len(),
        final(boards)@.subrange(0, old(boards)@.len() as int) == old(boards)@,
        final(boards)@.contains(board),
        forall|i: int| old(boards)@.len() <= i < final(boards)@.len() ==> is_position(#[trigger] final(boards)@[i]),
        !old(boards)@.contains(board) ==> final(boards)@[old(boards)@.len() as int] == board
            && final(boards)@[old(boards)@.len() as int + 1] == swapped(board),
        paired(old(boards)@) && distinct(old(boards)@) && first_mover_shape(board) ==> paired(final(boards)@)
            && distinct(final(boards)@),
        !old(boards)@.contains(board) ==> forall|m: int| #[trigger] board.legal(m) && board.after(m).state_spec() == State::Unfinished
            ==> final(boards)@.contains(board.after(m)),
    decreases board.empties(),
{
    proof {
        lemma_unfinished_has_move(board);
    }
    let moves: Vec<usize> = board.gen_moves();
    let start: usize = boards.len();
    let mut i: usize = 0;
    while i < boards.len()
        invariant
            i <= boards.len(),
            boards@ == old(boards)@,
            forall|l: int| 0 <= l < i ==> boards@[l] != board,
        decreases boards.len() - i,
    {
        let b = boards[i];
        if board.tiles[PLAYER1] == b.tiles[PLAYER1] && board.tiles[PLAYER2] == b.tiles[PLAYER2] && board.turn == b.turn {
            assert(board.tiles =~= b.tiles);
            assert(boards@[i as int] == board);
            assert(boards@.subrange(0, boards@.len() as int) =~= boards@);
            assert(old(boards)@.contains(board));
            return;
        }
        proof {
            if boards@[i as int] == board {
                assert(b.tiles[0] == board.tiles[0] && b.tiles[1] == board.tiles[1]);
            }
        }
        i = i + 1;
    }
    assert(!old(boards)@.contains(board));
    let inv = board.inverse();
    assert(inv == swapped(board)) by {
        lemma_other_turn(board.turn);
        assert(inv.tiles =~= [board.tiles[1], board.tiles[0]]);
    }
    proof {
        lemma_wf_facts(board.tiles[0], board.tiles[1]);
        lemma_other_turn(board.turn);
    }
    let ghost premise = paired(old(boards)@) && distinct(old(boards)@) && first_mover_shape(board);
    let ghost old_list = boards@;
    proof {
        if premise {
            // the swapped board is new: an even entry has first-mover shape,
            // which it lacks, and an odd one is the swap of the entry before it
            assert forall|p: int| 0 <= p < old_list.len() implies old_list[p] != inv by {
                if p % 2 == 1 {
                    let q = p / 2;
                    assert(old_list[2 * q + 1] == swapped(old_list[2 * q]));
                    if old_list[p] == inv {
                        lemma_swapped_injective(old_list[2 * q], board);
                    }
                } else {
                    let q = p / 2;
                    assert(first_mover_shape(old_list[2 * q]));
                }
            }
        }
    }
    boards.push(board);
    boards.push(inv);
    proof {
        if premise {
            assert forall|i: int| 0 <= i < boards@.len() / 2 implies first_mover_shape(#[trigger] boards@[2 * i])
                && boards@[2 * i + 1] == swapped(boards@[2 * i]) by {
                if i < old_list.len() / 2 {
                    assert(boards@[2 * i] == old_list[2 * i] && boards@[2 * i + 1] == old_list[2 * i + 1]);
                }
            }
            assert forall|i: int, j: int| 0 <= i < j < boards@.len() implies #[trigger] boards@[i] != #[trigger] boards@[j] by {
                if j < old_list.len() {
                    assert(boards@[i] == old_list[i] && boards@[j] == old_list[j]);
                } else if i < old_list.len() {
                    assert(boards@[i] == old_list[i]);
                }
            }
        }
    }
    let mut j: usize = 0;
    while j < moves.len()
        invariant
            is_position(board),
            lines.wf(),
            j <= moves.len(),
            forall|l: int| 0 <= l < moves.len() ==> board.legal(#[trigger] moves[l] as int),
            boards@.len() >= start + 2,
            start == old(boards)@.len(),
            boards@.subrange(0, start as int) == old(boards)@,
            boards@[start as int] == board,
            boards@[start + 1] == inv,
            premise == (paired(old(boards)@) && distinct(old(boards)@) && first_mover_shape(board)),
            premise ==> paired(boards@) && distinct(boards@),
            moves@ == board.moves(),
            forall|l: int| start <= l < boards@.len() ==> is_position(#[trigger] boards@[l]),
            forall|l: int| 0 <= l < j && board.after(#[trigger] moves[l] as int).state_spec() == State::Unfinished
                ==> boards@.contains(board.after(moves[l] as int)),
        decreases moves.len() - j,
    {
        let m = moves[j];
        let mut new_board = board;
        proof {
            lemma_after(board, m as int);
        }
        new_board.make(m);
        proof {
            if premise {
                lemma_other_turn(board.turn);
                assert(first_mover_shape(new_board));
            }
        }
        if new_board.state(lines) == State::Unfinished {
            let ghost before = boards@;
            leaf_boards(new_board, lines, boards);
            proof {
                assert forall|l: int| 0 <= l < j && board.after(#[trigger] moves[l] as int).state_spec() == State::Unfinished
                    implies boards@.contains(board.after(moves[l] as int)) by {
                    let x = choose|x: int| 0 <= x < before.len() && before[x] == board.after(moves[l] as int);
                    assert(boards@.subrange(0, before.len() as int)[x] == before[x]);
                }
                assert(boards@[start + 1] == before[start + 1]);
                assert(boards@.subrange(0, before.len() as int) == before);
                assert(boards@.subrange(0, start as int) =~= before.subrange(0, start as int));
                assert(boards@[start as int] == before[start as int]);
                assert forall|l: int| start <= l < boards@.len() implies is_position(#[trigger] boards@[l]) by {
                    if l < before.len() {
                        assert(boards@[l] == before[l]);
                    }
                }
            }
        }
        j = j + 1;
    }
    assert(boards@[start as int] == board);
    assert(boards@[start + 1] == inv);
    proof {
        assert forall|m: int| #[trigger] board.legal(m) && board.after(m).state_spec() == State::Unfinished
            implies boards@.contains(board.after(m)) by {
            crate::board::lemma_moves_below_pub(board.empties(), crate::N2 as nat);
            assert(crate::bitboards::bit(board.empties(), ((m as usize) - 1) as u64));
            assert(board.moves().contains(m as usize));
            let l = choose|l: int| 0 <= l < moves.len() && moves@[l] == m as usize;
            assert(board.after(moves[l] as int).state_spec() == State::Unfinished);
        }
    }
}

} // verus!
