use tictactoe::alphabeta::alphabeta;
use tictactoe::bitboards::WinLines;
use tictactoe::board::{Board, State};
use tictactoe::minimax::minimax;
use tictactoe::players::{play_game, AlphaBeta, Minimax, Player};
use tictactoe::positions::leaf_boards;

#[test]
fn minimax_finds_immediate_win() {
    let lines = WinLines::new();
    let board = Board { tiles: [0b11, 0b11000], turn: 0 };
    assert_eq!(minimax(&board, &lines), (1, 3));
    assert_eq!(Minimax::search(&board, &lines), (1, 3));
}

#[test]
fn minimax_on_finished_board() {
    let lines = WinLines::new();
    assert_eq!(minimax(&Board { tiles: [0b111, 0b11000], turn: 1 }, &lines), (-1, 0));
    assert_eq!(minimax(&Board { tiles: [397, 114], turn: 0 }, &lines), (0, 0));
}

#[test]
fn alphabeta_blocks_threat() {
    let lines = WinLines::new();
    // O threatens row 2 at square 6; X has no win of its own.
    let board = Board { tiles: [0b100000001, 0b11000], turn: 0 };
    let (score, m) = alphabeta(&board, &lines, -2, 2);
    assert_eq!(m, 6);
    assert_eq!(score, minimax(&board, &lines).0);
}

#[test]
fn alphabeta_matches_minimax() {
    let lines = WinLines::new();
    let mut boards = Vec::new();
    leaf_boards(Board { tiles: [0, 0], turn: 0 }, &lines, &mut boards);
    let mut checked = 0;
    for board in boards.iter() {
        let filled = (board.tiles[0] | board.tiles[1]).count_ones();
        if filled >= 3 {
            let (ab_score, ab_move) = alphabeta(board, &lines, -2, 2);
            let (mm_score, _) = minimax(board, &lines);
            assert_eq!(ab_score, mm_score);
            // the move alpha-beta picked is worth the same
            let mut after = *board;
            after.make(ab_move);
            assert_eq!(-minimax(&after, &lines).0, mm_score);
            checked += 1;
        }
    }
    assert!(checked > 1000);
}

#[test]
fn empty_board_is_a_draw() {
    let lines = WinLines::new();
    assert_eq!(AlphaBeta::search(&Board { tiles: [0, 0], turn: 0 }, &lines, -2, 2).0, 0);
}

#[test]
fn perfect_players_draw() {
    let lines = WinLines::new();
    assert_eq!(play_game(&AlphaBeta, &AlphaBeta, &lines, 0), 0);
    assert_eq!(play_game(&AlphaBeta, &AlphaBeta, &lines, 1), 0);
}

#[test]
fn player_moves_are_legal() {
    let lines = WinLines::new();
    let board = Board { tiles: [0b000010001, 0b100001000], turn: 0 };
    for m in [AlphaBeta.best_move(&board, &lines), Minimax.best_move(&board, &lines)] {
        assert!([2, 3, 6, 7, 8].contains(&m));
    }
}

#[test]
fn game_keeps_board_valid() {
    let lines = WinLines::new();
    let mut board = Board { tiles: [0, 0], turn: 1 };
    while board.state(&lines) == State::Unfinished {
        let m = AlphaBeta.best_move(&board, &lines);
        board.make(m);
        assert_eq!(board.tiles[0] & board.tiles[1], 0);
        assert!(board.tiles[0].count_ones() + board.tiles[1].count_ones() <= 9);
    }
    assert_eq!(board.state(&lines), State::Draw);
}

#[test]
fn alphabeta_plays_the_forced_square() {
    let lines = WinLines::new();
    let board = Board { tiles: [0b11000, 0b1], turn: 0 };
    assert_eq!(alphabeta(&board, &lines, -2, 2), (1, 6));
    assert_eq!(minimax(&board, &lines), (1, 2));
}
