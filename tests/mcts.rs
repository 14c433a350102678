use tictactoe::bitboards::WinLines;
use tictactoe::board::Board;
use tictactoe::mcts::{best_child, max_positions, mcts, playout, select_max, tree_policy, Node};

fn uct(parent_visits: u64, reward: u64, visits: u64) -> u64 {
    let cp = 0.5_f64.sqrt();
    let exploitation = (reward as f64 / 2.0) / visits as f64;
    let exploration = 2.0 * cp * (2.0 * (parent_visits as f64).ln() / visits as f64).sqrt();
    (exploitation + exploration).to_bits()
}

fn node(reward: u64, visits: u64, move_: usize) -> Node {
    Node { board: Board { tiles: [0, 0], turn: 0 }, move_, reward, visits }
}

#[test]
fn mcts_prefers_centre() {
    let lines = WinLines::new();
    let board = Board { tiles: [0, 0], turn: 0 };
    let mut centre = 0;
    for _ in 0..3 {
        let (score, m) = mcts(&board, &lines, Some(10_000), &uct);
        assert_eq!(score, 0);
        assert!(m >= 1 && m <= 9);
        if m == 5 {
            centre += 1;
        }
    }
    assert!(centre >= 2);
}

#[test]
fn mcts_takes_the_win() {
    let lines = WinLines::new();
    let board = Board { tiles: [0b11, 0b11000], turn: 0 };
    let (_, m) = mcts(&board, &lines, Some(2000), &uct);
    assert_eq!(m, 3);
}

#[test]
fn expand_one_child_per_move() {
    let root = Node { board: Board { tiles: [0b1, 0b10], turn: 0 }, move_: 0, reward: 0, visits: 0 };
    let children = root.expand();
    let moves: Vec<usize> = children.iter().map(|c| c.move_).collect();
    assert_eq!(moves, vec![3, 4, 5, 6, 7, 8, 9]);
    assert_eq!(children[0].board.tiles, [0b101, 0b10]);
    assert_eq!(children[0].board.turn, 1);
    assert!(children.iter().all(|c| c.visits == 0 && c.reward == 0));
}

#[test]
fn record_rewards_by_turn() {
    let lines = WinLines::new();
    // X has won; O is to move at the end.
    let won = Board { tiles: [0b111, 0b11000], turn: 1 };
    let mut same = node(0, 0, 1);
    same.board.turn = 1;
    same.record(&won, &lines);
    assert_eq!((same.reward, same.visits), (2, 1));
    let mut other = node(0, 0, 1);
    other.record(&won, &lines);
    assert_eq!((other.reward, other.visits), (0, 1));
    let draw = Board { tiles: [397, 114], turn: 0 };
    let mut d = node(4, 3, 1);
    d.record(&draw, &lines);
    assert_eq!((d.reward, d.visits), (5, 4));
}

#[test]
fn playout_reaches_end() {
    let lines = WinLines::new();
    let start = Board { tiles: [0b1, 0b10], turn: 0 };
    for _ in 0..20 {
        let end = playout(&start, &lines);
        assert_ne!(end.state(&lines), tictactoe::board::State::Unfinished);
        assert_eq!(end.tiles[0] & 1, 1);
        assert_eq!(end.tiles[1] & 2, 2);
    }
}

#[test]
fn rollout_counts_one_visit() {
    let lines = WinLines::new();
    let mut n = Node { board: Board { tiles: [0b1, 0b10], turn: 0 }, move_: 2, reward: 0, visits: 0 };
    n.random_rollout(&lines);
    assert_eq!(n.visits, 1);
    assert!(n.reward <= 2);
}

#[test]
fn select_max_picks_a_maximum() {
    for _ in 0..20 {
        let r = select_max(&vec![3, 9, 1, 9]);
        assert!(r == 1 || r == 3);
    }
    assert_eq!(select_max(&vec![7]), 0);
}

#[test]
fn tree_policy_tries_unvisited_first() {
    let children = vec![node(2, 1, 1), node(0, 0, 2), node(8, 4, 3)];
    assert_eq!(tree_policy(5, &children, &uct), 1);
}

#[test]
fn best_child_by_mean_reward() {
    let children = vec![node(2, 2, 1), node(6, 4, 2), node(1, 2, 3)];
    assert_eq!(best_child(&children), 1);
    let with_unvisited = vec![node(2, 2, 1), node(0, 0, 2)];
    assert_eq!(best_child(&with_unvisited), 1);
}

#[test]
fn max_positions_lists_all_maxima() {
    assert_eq!(max_positions(&vec![3, 9, 1, 9]), vec![1, 3]);
    assert_eq!(max_positions(&vec![0]), vec![0]);
}

#[test]
fn tree_policy_follows_rank_when_all_visited() {
    let children = vec![node(2, 4, 1), node(8, 4, 2), node(0, 4, 3)];
    for _ in 0..10 {
        assert_eq!(tree_policy(8, &children, &uct), 1);
    }
}
