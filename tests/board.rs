use tictactoe::bitboards::WinLines;
use tictactoe::board::{Board, State, FULL};

#[test]
fn board_test_find_forced() {
    let lines = WinLines::new();
    let tests = [
        (Board { tiles: [0b100010100, 0b101001], turn: 0 }, 7),
        (Board { tiles: [0b11000, 0b1], turn: 0 }, 6),
        (Board { tiles: [0b100000000, 0b101], turn: 0 }, 2),
        (Board { tiles: [0b1010001, 0b101110], turn: 0 }, 9),
        (Board { tiles: [0b10001, 0b1000000], turn: 0 }, 9),
    ];

    for test in tests.iter() {
        let board = test.0;

        // Every test is performed for both turns to make sure it can
        // block winning moves and make winning moves.
        let mut clone = board.clone();
        clone.turn ^= 1;

        assert_eq!(board.find_forced(&lines), test.1);
        assert_eq!(board.find_forced(&lines), test.1);
    }
}

#[test]
fn alphabeta_test_find_forced() {
    let lines = WinLines::new();
    let tests = [
        (Board { tiles: [0b100010100, 0b101001], turn: 0 }, 7),
        (Board { tiles: [0b11000, 0b1], turn: 0 }, 6),
        (Board { tiles: [0b100000000, 0b101], turn: 0 }, 2),
        (Board { tiles: [0b1010001, 0b101110], turn: 0 }, 9),
        (Board { tiles: [0b10001, 0b1000000], turn: 0 }, 9),
    ];

    for test in tests.iter() {
        // Every test is performed for both turns to make sure it can
        // block winning moves and make winning moves.
        let mut clone = test.0.clone();
        clone.turn ^= 1;

        assert_eq!(test.0.find_forced(&lines), test.1);
        assert_eq!(clone.find_forced(&lines), test.1);
    }
}

#[test]
fn forced_move_same_for_both_turns() {
    let lines = WinLines::new();
    let board = Board { tiles: [0b100010100, 0b101001], turn: 0 };
    let flipped = Board { tiles: [0b100010100, 0b101001], turn: 1 };
    assert_eq!(board.find_forced(&lines), 7);
    assert_eq!(flipped.find_forced(&lines), 7);
}

#[test]
fn forced_win_beats_block() {
    let lines = WinLines::new();
    // X holds squares 1 and 2 (row 1 open at 3); O holds 4 and 5 (row 2 open at 6).
    let board = Board { tiles: [0b11, 0b11000], turn: 0 };
    assert_eq!(board.find_forced(&lines), 3);
    let other = Board { tiles: [0b11, 0b11000], turn: 1 };
    assert_eq!(other.find_forced(&lines), 6);
}

#[test]
fn no_forced_move_on_empty_board() {
    let lines = WinLines::new();
    assert_eq!(Board { tiles: [0, 0], turn: 0 }.find_forced(&lines), 0);
}

#[test]
fn make_sets_square_and_flips_turn() {
    let mut board = Board { tiles: [0, 0], turn: 0 };
    board.make(5);
    assert_eq!(board.tiles, [0b10000, 0]);
    assert_eq!(board.turn, 1);
    board.make(1);
    assert_eq!(board.tiles, [0b10000, 0b1]);
    assert_eq!(board.turn, 0);
    assert_eq!(board.tiles[0] & board.tiles[1], 0);
    assert!(board.tiles[0].count_ones() + board.tiles[1].count_ones() <= 9);
}

#[test]
fn inverse_swaps_players() {
    let board = Board { tiles: [0b101, 0b10], turn: 1 };
    let inv = board.inverse();
    assert_eq!(inv.tiles, [0b10, 0b101]);
    assert_eq!(inv.turn, 0);
}

#[test]
fn empty_squares() {
    let board = Board { tiles: [0b101, 0b10], turn: 0 };
    assert_eq!(board.empty(), FULL & !0b111);
    assert_eq!(Board { tiles: [0, 0], turn: 0 }.empty(), 0x1ff);
}

#[test]
fn gen_moves_ascending_empty_squares() {
    let board = Board { tiles: [0b100010001, 0b000101000], turn: 0 };
    assert_eq!(board.gen_moves(), vec![2, 3, 7, 8]);
    assert_eq!(Board { tiles: [0, 0], turn: 1 }.gen_moves(), (1..=9).collect::<Vec<usize>>());
}

#[test]
fn random_move_is_legal() {
    let board = Board { tiles: [0b100010001, 0b000101000], turn: 0 };
    for _ in 0..50 {
        let m = board.random_move();
        assert!([2, 3, 7, 8].contains(&m));
    }
}

#[test]
fn state_of_boards() {
    let lines = WinLines::new();
    assert_eq!(Board { tiles: [0b111, 0b11000], turn: 1 }.state(&lines), State::Player1Won);
    assert_eq!(Board { tiles: [0b11000, 0b1010100], turn: 0 }.state(&lines), State::Player2Won);
    assert_eq!(Board { tiles: [397, 114], turn: 1 }.state(&lines), State::Draw);
    assert_eq!(Board { tiles: [0b1, 0b10], turn: 0 }.state(&lines), State::Unfinished);
}

#[test]
fn win_on_full_board_is_not_draw() {
    let lines = WinLines::new();
    // X: 1 2 3 6 8, O: 4 5 7 9 -- X completes the top row as the board fills up.
    let board = Board { tiles: [0b010100111, 0b101011000], turn: 1 };
    assert_eq!(board.empty(), 0);
    assert_eq!(board.state(&lines), State::Player1Won);
}

#[test]
fn terminal_scores() {
    let lines = WinLines::new();
    assert_eq!(Board { tiles: [0b111, 0b11000], turn: 0 }.score(&lines), 1);
    assert_eq!(Board { tiles: [0b111, 0b11000], turn: 1 }.score(&lines), -1);
    assert_eq!(Board { tiles: [397, 114], turn: 0 }.score(&lines), 0);
    assert_eq!(Board { tiles: [0b1, 0b10], turn: 0 }.score(&lines), 0);
}

#[test]
fn player_one_line_takes_precedence() {
    let lines = WinLines::new();
    // Player 1 holds the bottom row, player 2 the top row.
    let board = Board { tiles: [0b111000000, 0b111], turn: 0 };
    assert_eq!(board.state(&lines), State::Player1Won);
    assert_eq!(board.score(&lines), 1);
    let other = Board { tiles: [0b111000000, 0b111], turn: 1 };
    assert_eq!(other.state(&lines), State::Player1Won);
    assert_eq!(other.score(&lines), 1);
}
