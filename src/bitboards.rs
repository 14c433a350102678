//! The table of winning lines: one bitmask per row, column and diagonal.
use vstd::prelude::*;
use crate::{N, N2, N_STATES};

verus! {

/// Bit `i` of `x` is set.
pub open spec fn bit(x: u64, i: u64) -> bool {
    (x >> i) & 1u64 == 1u64
}

/// Square `sq` (0-indexed, row-major) lies on line `k`: lines `0..N` are the rows,
/// `N..2N` the columns, `2N` the principal diagonal and `2N+1` the anti-diagonal.
pub open spec fn on_line(k: int, sq: int) -> bool {
    let row = sq / (N as int);
    let col = sq % (N as int);
    if k < N {
        row == k
    } else if k < 2 * N {
        col == k - N
    } else if k == 2 * N {
        col == row
    } else {
        col == N - row - 1
    }
}

/// The masks of the winning lines, in table order.
pub open spec fn win_masks() -> Seq<u64> {
    seq![0b111u64, 0b111000, 0b111000000, 0b1001001, 0b10010010, 0b100100100, 0b100010001, 0b1010100]
}

/// The mask of line `k`.
pub open spec fn line_mask(k: int) -> u64 {
    win_masks()[k]
}

/// Number of set bits of `x`.
pub open spec fn popcount(x: u64) -> nat
    decreases x,
{
    if x == 0 {
        0
    } else {
        (x % 2) as nat + popcount(x / 2)
    }
}

/// The table of winning lines, computed once and handed to everything that
/// needs it.
pub struct WinLines {
    pub masks: [u64; N_STATES],
}

impl WinLines {
    /// The table holds exactly the winning lines, in table order.
    pub open spec fn wf(&self) -> bool {
        self.masks@ == win_masks()
    }

    pub fn new() -> (r: WinLines)
        ensures
            r.wf(),
    {
        WinLines { masks: gen_winning_states() }
    }
}

/// Column-0 mask after `i` steps of "shift left by N, add one".
pub open spec fn col_acc(i: nat) -> u64
    decreases i,
{
    if i == 0 {
        0
    } else {
        ((col_acc((i - 1) as nat) << (N as u64)) + 1) as u64
    }
}

/// Principal diagonal after `i` steps of "shift left by N+1, add one".
pub open spec fn prin_acc(i: nat) -> u64
    decreases i,
{
    if i == 0 {
        0
    } else {
        ((prin_acc((i - 1) as nat) << (N as u64 + 1)) + 1) as u64
    }
}

/// Anti-diagonal after `i` steps of "add one, shift left by N-1".
pub open spec fn anti_acc(i: nat) -> u64
    decreases i,
{
    if i == 0 {
        0
    } else {
        ((anti_acc((i - 1) as nat) + 1) as u64) << (N as u64 - 1)
    }
}

proof fn lemma_acc_values()
    ensures
        col_acc(0) == 0 && col_acc(1) == 1 && col_acc(2) == 9 && col_acc(3) == 73,
        prin_acc(0) == 0 && prin_acc(1) == 1 && prin_acc(2) == 17 && prin_acc(3) == 273,
        anti_acc(0) == 0 && anti_acc(1) == 4 && anti_acc(2) == 20 && anti_acc(3) == 84,
{
    reveal_with_fuel(col_acc, 4);
    reveal_with_fuel(prin_acc, 4);
    reveal_with_fuel(anti_acc, 4);
    assert(((0u64 << 3u64) + 1) as u64 == 1 && ((1u64 << 3u64) + 1) as u64 == 9 && ((9u64 << 3u64) + 1) as u64 == 73) by (bit_vector);
    assert(((0u64 << 4u64) + 1) as u64 == 1 && ((1u64 << 4u64) + 1) as u64 == 17 && ((17u64 << 4u64) + 1) as u64 == 273) by (bit_vector);
    assert((1u64 << 2u64) == 4 && (5u64 << 2u64) == 20 && (21u64 << 2u64) == 84) by (bit_vector);
}

/// Builds every N-in-a-row combination: the rows, the columns, then the
/// principal and the anti-diagonal.
pub fn gen_winning_states() -> (r: [u64; N_STATES])
    ensures
        r@ == win_masks(),
        forall|k: int, sq: u64| 0 <= k < N_STATES && sq < 64 ==> (#[trigger] bit(r@[k], sq) <==> (sq < N2 && on_line(k, sq as int))),
        forall|k: int| 0 <= k < N_STATES ==> popcount(#[trigger] r@[k]) == N,
{
    let mut winning_states: [u64; N_STATES] = [0; N_STATES];
    let n: u64 = N as u64;
    assert(1u64 << n == 8) by (bit_vector)
        requires
            n == 3,
    ;
    let row: u64 = (1u64 << n) - 1;
    let mut col: u64 = 0;
    let mut prin_diag: u64 = 0;
    let mut anti_diag: u64 = 0;
    proof {
        lemma_acc_values();
    }
    let mut i: usize = 0;
    while i < N
        invariant
            i <= N,
            col == col_acc(i as nat),
            prin_diag == prin_acc(i as nat),
            anti_diag == anti_acc(i as nat),
            n == N,
        decreases N - i,
    {
        proof {
            lemma_acc_values();
        }
        assert((col <= 9 ==> (col << n) <= 72) && (prin_diag <= 17 ==> (prin_diag << (n + 1)) <= 272)) by (bit_vector)
            requires
                n == 3,
        ;
        col = (col << n) + 1;
        prin_diag = (prin_diag << (n + 1)) + 1;
        anti_diag = anti_diag + 1;
        anti_diag = anti_diag << (n - 1);
        i = i + 1;
    }
    proof {
        lemma_acc_values();
    }
    let mut j: usize = 0;
    while j < N
        invariant
            j <= N,
            row == 7,
            col == 73,
            forall|k: int| 0 <= k < j ==> winning_states@[k] == win_masks()[k],
            forall|k: int| N <= k < N + j ==> winning_states@[k] == win_masks()[k],
        decreases N - j,
    {
        let shift: u64 = (j * N) as u64;
        let r = row << shift;
        let c = col << (j as u64);
        assert(j == 0 ==> r == 7 && c == 73) by (bit_vector)
            requires
                row == 7 && col == 73 && shift == j * 3 && r == row << shift && c == col << (j as u64),
        ;
        assert(j == 1 ==> r == 56 && c == 146) by (bit_vector)
            requires
                row == 7 && col == 73 && shift == j * 3 && r == row << shift && c == col << (j as u64),
        ;
        assert(j == 2 ==> r == 448 && c == 292) by (bit_vector)
            requires
                row == 7 && col == 73 && shift == j * 3 && r == row << shift && c == col << (j as u64),
        ;
        winning_states[j] = r;
        winning_states[N + j] = c;
        j = j + 1;
    }
    winning_states[N_STATES - 2] = prin_diag;
    winning_states[N_STATES - 1] = anti_diag;
    assert(winning_states@ =~= win_masks());
    assert forall|k: int, sq: u64| 0 <= k < N_STATES && sq < 64 implies (#[trigger] bit(winning_states@[k], sq)
        <==> (sq < N2 && on_line(k, sq as int))) by {
        lemma_line_geometry(k);
        assert(winning_states@[k] == line_mask(k));
        assert(bit(line_mask(k), sq) <==> (sq < N2 && on_line(k, sq as int)));
    }
    assert forall|k: int| 0 <= k < N_STATES implies popcount(#[trigger] winning_states@[k]) == N by {
        lemma_line_geometry(k);
        assert(winning_states@[k] == line_mask(k));
    }
    winning_states
}

/// Each mask of the table holds exactly the N squares of its line: a row's
/// squares share the row, a column's the column, and the diagonals' squares
/// have equal row and column, or row and column summing to N-1.
pub proof fn lemma_line_geometry(k: int)
    requires
        0 <= k < N_STATES,
    ensures
        forall|sq: u64| sq < 64 ==> (#[trigger] bit(line_mask(k), sq) <==> (sq < N2 && on_line(k, sq as int))),
        popcount(line_mask(k)) == N,
{
    reveal_with_fuel(popcount, 10);
    if k == 0 {
        assert(forall|sq: u64| sq < 64 ==> (#[trigger] ((7u64 >> sq) & 1u64) == 1u64 <==> (sq < 9 && sq / 3 == 0))) by (bit_vector);
        assert(popcount(7) == 3);
    } else if k == 1 {
        assert(forall|sq: u64| sq < 64 ==> (#[trigger] ((56u64 >> sq) & 1u64) == 1u64 <==> (sq < 9 && sq / 3 == 1))) by (bit_vector);
        assert(popcount(56) == 3);
    } else if k == 2 {
        assert(forall|sq: u64| sq < 64 ==> (#[trigger] ((448u64 >> sq) & 1u64) == 1u64 <==> (sq < 9 && sq / 3 == 2))) by (bit_vector);
        assert(popcount(448) == 3);
    } else if k == 3 {
        assert(forall|sq: u64| sq < 64 ==> (#[trigger] ((73u64 >> sq) & 1u64) == 1u64 <==> (sq < 9 && sq % 3 == 0))) by (bit_vector);
        assert(popcount(73) == 3);
    } else if k == 4 {
        assert(forall|sq: u64| sq < 64 ==> (#[trigger] ((146u64 >> sq) & 1u64) == 1u64 <==> (sq < 9 && sq % 3 == 1))) by (bit_vector);
        assert(popcount(146) == 3);
    } else if k == 5 {
        assert(forall|sq: u64| sq < 64 ==> (#[trigger] ((292u64 >> sq) & 1u64) == 1u64 <==> (sq < 9 && sq % 3 == 2))) by (bit_vector);
        assert(popcount(292) == 3);
    } else if k == 6 {
        assert(forall|sq: u64| sq < 64 ==> (#[trigger] ((273u64 >> sq) & 1u64) == 1u64 <==> (sq < 9 && sq % 3 == sq / 3))) by (bit_vector);
        assert(popcount(273) == 3);
    } else if k == 7 {
        assert(forall|sq: u64| sq < 64 ==> (#[trigger] ((84u64 >> sq) & 1u64) == 1u64 <==> (sq < 9 && sq % 3 + sq / 3 == 2))) by (bit_vector);
        assert(popcount(84) == 3);
    }
}

} // verus!
