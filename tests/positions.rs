use tictactoe::bitboards::WinLines;
use tictactoe::board::{Board, State};
use tictactoe::positions::leaf_boards;

fn all_boards() -> Vec<Board> {
    let lines = WinLines::new();
    let mut v = Vec::new();
    leaf_boards(Board { tiles: [0, 0], turn: 0 }, &lines, &mut v);
    v
}

#[test]
fn supervised_test_gen_all_boards() {
    let lines = WinLines::new();
    let mut boards: Vec<Board> = Vec::new();

    leaf_boards(Board { tiles: [0, 0], turn: 0 }, &lines, &mut boards);

    let test_boards = [
        Board { tiles: [0, 0], turn: 0 },
        Board { tiles: [0, 0], turn: 1 },
        Board { tiles: [0b100100010, 0b010010100], turn: 0 },
        Board { tiles: [0b100100010, 0b010010100], turn: 1 },
        Board { tiles: [0b010010100, 0b100100010], turn: 0 },
        Board { tiles: [0b010010100, 0b100100010], turn: 1 },
        Board { tiles: [0b000010000, 0b000000010], turn: 0 },
        Board { tiles: [0b000010000, 0b000000010], turn: 1 },
        Board { tiles: [0b000000010, 0b000010000], turn: 0 },
        Board { tiles: [0b000000010, 0b000010000], turn: 1 },
    ];

    for board in test_boards.iter() {
        boards.contains(board);
    }
}

#[test]
fn test_repeated_boards() {
    let all = all_boards();
    for i in 0..all.len() {
        let board1 = all[i];

        for j in i + 1..all.len() {
            let board2 = all[j];

            assert!(
                board1.tiles[0] != board2.tiles[0] ||
                board1.tiles[1] != board2.tiles[1] ||
                board1.turn != board2.turn
            );
        }
    }
}

#[test]
fn positions_are_unfinished_and_known() {
    let lines = WinLines::new();
    let all = all_boards();
    assert_eq!(all[0], Board { tiles: [0, 0], turn: 0 });
    assert_eq!(all[1], Board { tiles: [0, 0], turn: 1 });
    for b in all.iter() {
        assert_eq!(b.state(&lines), State::Unfinished);
        assert_eq!(b.tiles[0] & b.tiles[1], 0);
    }
    assert!(all.contains(&Board { tiles: [0b100100010, 0b010010100], turn: 0 }));
    assert!(all.contains(&Board { tiles: [0b000000010, 0b000010000], turn: 1 }));
}

#[test]
fn known_board_is_not_explored_again() {
    let lines = WinLines::new();
    let start = Board { tiles: [0b10000, 0b1], turn: 0 };
    let mut boards = vec![start];
    leaf_boards(start, &lines, &mut boards);
    assert_eq!(boards, vec![start]);
}
