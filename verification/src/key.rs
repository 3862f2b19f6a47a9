//! A number for each position of a search, by which positions that were seen
//! are told apart.

use vstd::prelude::*;
use vstd::arithmetic::power2::{lemma2_to64, lemma_pow2_strictly_increases, lemma_pow2_unfold, pow2};
use crate::chess::{at, cells_of, lemma_cells_of, on_board, MovePiece};
use crate::search::{after, captures, lemma_playable_keeps, playable, stands};

verus! {

/// One more than the greatest key.
pub const KEY_LIMIT: u128 = 0x40_0000_0000_0000_0000;

/// The first `n` cells as binary digits, a one for each occupied cell; the
/// first cell is the most significant digit.
pub open spec fn occupancy(cells: Seq<i8>, n: int) -> int
    decreases n,
{
    if n <= 0 {
        0
    } else {
        2 * occupancy(cells, n - 1) + if cells[n - 1] != 0 {
            1int
        } else {
            0int
        }
    }
}

/// The key of a position: which cells are occupied, and where the piece
/// stands.
pub open spec fn key_of(cells: Seq<i8>, pos: (int, int)) -> int {
    64 * occupancy(cells, 64) + 8 * pos.0 + pos.1
}

/// `n` digits are a number below two to the power of `n`.
pub proof fn lemma_occupancy_bound(cells: Seq<i8>, n: int)
    requires
        0 <= n,
    ensures
        0 <= occupancy(cells, n) < pow2(n as nat),
    decreases n,
{
    if n > 0 {
        lemma_occupancy_bound(cells, n - 1);
        lemma_pow2_unfold(n as nat);
    } else {
        lemma2_to64();
    }
}

/// A key is a number below `KEY_LIMIT`.
pub proof fn lemma_key_bound(cells: Seq<i8>, pos: (int, int))
    requires
        on_board(pos.0, pos.1),
    ensures
        0 <= key_of(cells, pos) < KEY_LIMIT,
{
    lemma_occupancy_bound(cells, 64);
    lemma2_to64();
}

/// Equal digits tell of the same occupied cells.
pub proof fn lemma_occupancy_injective(a: Seq<i8>, b: Seq<i8>, n: int)
    requires
        0 <= n,
        occupancy(a, n) == occupancy(b, n),
    ensures
        forall|k: int| 0 <= k < n ==> (#[trigger] a[k] != 0) == (b[k] != 0),
    decreases n,
{
    if n > 0 {
        lemma_occupancy_injective(a, b, n - 1);
    }
}

/// Two paths played from one position that end with the same key end in the
/// same position, and have collected the same number of stars.
pub proof fn lemma_same_key(
    cells: Seq<i8>,
    start: (int, int),
    p: Seq<MovePiece>,
    q: Seq<MovePiece>,
)
    requires
        cells.len() == 64,
        on_board(start.0, start.1),
        playable(cells, start, p),
        playable(cells, start, q),
        key_of(after(cells, p), stands(start, p)) == key_of(after(cells, q), stands(start, q)),
    ensures
        after(cells, p) == after(cells, q),
        stands(start, p) == stands(start, q),
        captures(cells, p) == captures(cells, q),
{
    lemma_playable_keeps(cells, start, p);
    lemma_playable_keeps(cells, start, q);
    let a = after(cells, p);
    let b = after(cells, q);
    lemma_occupancy_bound(a, 64);
    lemma_occupancy_bound(b, 64);
    lemma_occupancy_injective(a, b, 64);
    assert forall|k: int| 0 <= k < 64 implies a[k] == b[k] by {
        assert((a[k] != 0) == (b[k] != 0));
    }
    assert(a =~= b);
}

/// The key of the position with the cells of `grid` and the piece on row
/// `row`, column `col`.
pub fn board_key(grid: &[[i8; 8]; 8], row: usize, col: usize) -> (key: u128)
    requires
        row < 8,
        col < 8,
    ensures
        key == key_of(cells_of(*grid), (row as int, col as int)),
        key < KEY_LIMIT,
{
    let mut digits: u128 = 0;
    let mut r: usize = 0;
    proof {
        lemma2_to64();
    }
    while r < 8
        invariant
            0 <= r <= 8,
            digits == occupancy(cells_of(*grid), 8 * r),
        decreases 8 - r,
    {
        let mut c: usize = 0;
        while c < 8
            invariant
                0 <= r < 8,
                0 <= c <= 8,
                digits == occupancy(cells_of(*grid), 8 * r + c),
            decreases 8 - c,
        {
            proof {
                lemma_cells_of(*grid, r as int, c as int);
                lemma_occupancy_bound(cells_of(*grid), 8 * r + c);
                lemma_occupancy_bound(cells_of(*grid), 8 * r + c + 1);
                lemma_pow2_strictly_increases((8 * r + c + 1) as nat, 65);
                lemma_pow2_65();
            }
            let bit: u128 = if grid[r][c] != 0 {
                1
            } else {
                0
            };
            digits = 2 * digits + bit;
            c = c + 1;
        }
        r = r + 1;
    }
    proof {
        lemma_key_bound(cells_of(*grid), (row as int, col as int));
    }
    64 * digits + (8 * row + col) as u128
}

/// Two to the power of 65.
proof fn lemma_pow2_65()
    ensures
        pow2(65) == 0x2_0000_0000_0000_0000,
{
    lemma2_to64();
    lemma_pow2_unfold(65);
}

} // verus!
