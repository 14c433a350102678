use tictactoe::bitboards::{gen_winning_states, WinLines};
use tictactoe::{N, N_STATES};

#[test]
fn bitboards_row_bbs() {
    let lines = WinLines::new();

    for i in 0..N {
        let mut bb = lines.masks[i];

        assert_eq!(bb.count_ones(), N as u32);

        while bb != 0 {
            let lowest_bit = bb.trailing_zeros() as usize;
            assert_eq!(lowest_bit / N, i);
            bb &= bb - 1;
        }
    }
}

#[test]
fn bitboards_column_bbs() {
    let lines = WinLines::new();

    for i in N..2 * N {
        let mut bb = lines.masks[i];

        assert_eq!(bb.count_ones(), N as u32);

        while bb != 0 {
            let lowest_bit = bb.trailing_zeros() as usize;
            assert_eq!(lowest_bit % N, i % N);
            bb &= bb - 1;
        }
    }
}

#[test]
fn bitboards_diag1_bbs() {
    let lines = WinLines::new();
    let mut bb = lines.masks[2 * N];

    assert_eq!(bb.count_ones(), N as u32);

    while bb != 0 {
        let lowest_bit = bb.trailing_zeros() as usize;
        assert_eq!(lowest_bit % N, lowest_bit / N);
        bb &= bb - 1;
    }
}

#[test]
fn bitboards_diag2_bbs() {
    let lines = WinLines::new();
    let mut bb = lines.masks[2 * N + 1];

    assert_eq!(bb.count_ones(), N as u32);

    while bb != 0 {
        let lowest_bit = bb.trailing_zeros() as usize;
        assert_eq!(lowest_bit % N, N - (lowest_bit / N) - 1);
        bb &= bb - 1;
    }
}

#[test]
fn table_has_exact_masks() {
    let masks = gen_winning_states();
    assert_eq!(masks.len(), N_STATES);
    assert_eq!(masks, [0b111, 0b111000, 0b111000000, 0b1001001, 0b10010010, 0b100100100, 0b100010001, 0b1010100]);
}

#[test]
fn every_square_on_one_row_and_one_column() {
    let lines = WinLines::new();
    for sq in 0..N * N {
        let bit = 1u64 << sq;
        let rows = (0..N).filter(|&i| lines.masks[i] & bit != 0).count();
        let cols = (N..2 * N).filter(|&i| lines.masks[i] & bit != 0).count();
        let diags = (2 * N..N_STATES).filter(|&i| lines.masks[i] & bit != 0).count();
        assert_eq!(rows, 1);
        assert_eq!(cols, 1);
        assert!(diags <= 2);
    }
    // only the centre lies on both diagonals
    assert_eq!(lines.masks[2 * N] & lines.masks[2 * N + 1], 1 << 4);
}
