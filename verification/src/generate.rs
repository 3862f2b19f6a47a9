//! Making a puzzle: a piece and some stars on squares picked at random.

use vstd::prelude::*;
use crate::chess::{at, cells_of, lemma_cells_of, on_board, LiBoard, QUEEN_WHITE, STAR_VALUE};
use crate::search::{lemma_stars_in_update, star_count, stars_in};

verus! {

/// The number of fresh squares that are drawn for one star before the first
/// free square of the board is taken instead.
pub const DRAWS: usize = 64;

/// `rand::random::<u8>`: a byte from the thread's generator. Nothing is
/// known of it but its type.
#[verifier::external_body]
fn random_byte() -> u8 {
    rand::random::<u8>()
}

/// The square with index `k` can take a star: it is empty, and the piece does
/// not stand on it.
pub open spec fn is_free(cells: Seq<i8>, main: int, k: int) -> bool {
    0 <= k < 64 && k != main && cells[k] == 0
}

/// Off the piece's square there is nothing but stars and empty squares.
pub open spec fn only_stars(cells: Seq<i8>, main: int) -> bool {
    forall|k: int| 0 <= k < 64 && k != main ==> #[trigger] cells[k] == 0 || cells[k] == STAR_VALUE
}

/// The number of stars off the piece's square.
pub open spec fn stars_off(cells: Seq<i8>, main: int) -> int {
    star_count(cells) - if cells[main] == STAR_VALUE {
        1int
    } else {
        0int
    }
}

impl LiBoard {
    /// The board is a puzzle with `stars` stars for the piece `piece`: the
    /// piece stands on the board where `main_piece` says, `stars` other
    /// squares hold a star, and the rest is empty.
    pub open spec fn is_puzzle(&self, stars: int, piece: i8) -> bool {
        let main = 8 * self.start().0 + self.start().1;
        &&& on_board(self.start().0, self.start().1)
        &&& at(self.cells(), self.start().0, self.start().1) == piece
        &&& self.num_star_cnt == stars
        &&& only_stars(self.cells(), main)
        &&& stars_off(self.cells(), main) == stars
    }
}

/// Where no square is free, every square but the piece's holds a star.
proof fn lemma_full(cells: Seq<i8>, main: int, n: int)
    requires
        cells.len() == 64,
        0 <= main < 64,
        0 <= n <= 64,
        only_stars(cells, main),
        forall|k: int| 0 <= k < 64 ==> !#[trigger] is_free(cells, main, k),
    ensures
        stars_in(cells, n) - (if main < n && cells[main] == STAR_VALUE {
            1int
        } else {
            0int
        }) == n - if main < n {
            1int
        } else {
            0int
        },
    decreases n,
{
    if n > 0 {
        lemma_full(cells, main, n - 1);
        assert(!is_free(cells, main, n - 1));
        if n - 1 != main {
            assert(cells[n - 1] == 0 || cells[n - 1] == STAR_VALUE);
        }
    }
}

/// A board with fewer than 63 stars has a free square.
proof fn lemma_room(cells: Seq<i8>, main: int)
    requires
        cells.len() == 64,
        0 <= main < 64,
        only_stars(cells, main),
        stars_off(cells, main) < 63,
    ensures
        exists|k: int| #[trigger] is_free(cells, main, k),
{
    if forall|k: int| 0 <= k < 64 ==> !#[trigger] is_free(cells, main, k) {
        lemma_full(cells, main, 64);
    }
}

/// A free square of the grid: one drawn at random, or, where `DRAWS` draws in
/// a row hit taken squares, the first free one.
fn free_square(grid: &[[i8; 8]; 8], pr: usize, pc: usize) -> (sq: (usize, usize))
    requires
        pr < 8,
        pc < 8,
        exists|k: int| #[trigger] is_free(cells_of(*grid), 8 * pr + pc, k),
    ensures
        sq.0 < 8,
        sq.1 < 8,
        is_free(cells_of(*grid), 8 * pr + pc, 8 * sq.0 + sq.1),
{
    let mut tries: usize = 0;
    while tries < DRAWS
        invariant
            pr < 8,
            pc < 8,
        decreases DRAWS - tries,
    {
        let r = (random_byte() % 8) as usize;
        let c = (random_byte() % 8) as usize;
        proof {
            lemma_cells_of(*grid, r as int, c as int);
        }
        if (r != pr || c != pc) && grid[r][c] == 0 {
            return (r, c);
        }
        tries = tries + 1;
    }
    let mut idx: usize = 0;
    loop
        invariant
            pr < 8,
            pc < 8,
            0 <= idx < 64,
            exists|k: int| #[trigger] is_free(cells_of(*grid), 8 * pr + pc, k),
            forall|k: int| 0 <= k < idx ==> !#[trigger] is_free(cells_of(*grid), 8 * pr + pc, k),
        decreases 64 - idx,
    {
        let r = idx / 8;
        let c = idx % 8;
        proof {
            lemma_cells_of(*grid, r as int, c as int);
        }
        if (r != pr || c != pc) && grid[r][c] == 0 {
            return (r, c);
        }
        proof {
            assert(!is_free(cells_of(*grid), 8 * pr + pc, idx as int));
            let k = choose|k: int| #[trigger] is_free(cells_of(*grid), 8 * pr + pc, k);
            assert(idx < k);
        }
        idx = idx + 1;
    }
}

impl LiBoard {
    /// A puzzle with `star_cnt` stars for the piece `choice_piece`, each on a
    /// square picked at random.
    pub fn new(star_cnt: i8, choice_piece: i8) -> (b: LiBoard)
        requires
            0 <= star_cnt <= 63,
        ensures
            b.is_puzzle(star_cnt as int, choice_piece),
    {
        let mut grid = [[0i8; 8]; 8];
        let pr = (random_byte() % 8) as usize;
        let pc = (random_byte() % 8) as usize;
        let ghost main = 8 * pr + pc;
        proof {
            let empty = cells_of(grid);
            assert forall|k: int| 0 <= k < 64 implies empty[k] == 0 by {
                lemma_cells_of(grid, k / 8, k % 8);
            }
            lemma_no_stars(empty, 64);
        }
        let ghost blank = cells_of(grid);
        grid[pr][pc] = choice_piece;
        proof {
            let cells = cells_of(grid);
            assert forall|k: int| 0 <= k < 64 implies cells[k] == blank.update(
                main,
                choice_piece,
            )[k] by {
                lemma_cells_of(grid, k / 8, k % 8);
            }
            assert(cells =~= blank.update(main, choice_piece));
            lemma_stars_in_update(blank, main, choice_piece, 64);
        }
        let mut placed: i8 = 0;
        while placed < star_cnt
            invariant
                0 <= placed <= star_cnt <= 63,
                pr < 8,
                pc < 8,
                main == 8 * pr + pc,
                cells_of(grid).len() == 64,
                cells_of(grid)[main] == choice_piece,
                only_stars(cells_of(grid), main),
                stars_off(cells_of(grid), main) == placed,
            decreases star_cnt - placed,
        {
            proof {
                lemma_room(cells_of(grid), main);
            }
            let (r, c) = free_square(&grid, pr, pc);
            let ghost before = cells_of(grid);
            grid[r][c] = STAR_VALUE;
            proof {
                let cells = cells_of(grid);
                assert forall|k: int| 0 <= k < 64 implies cells[k] == before.update(
                    8 * r + c,
                    STAR_VALUE,
                )[k] by {
                    lemma_cells_of(grid, k / 8, k % 8);
                }
                assert(cells =~= before.update(8 * r + c, STAR_VALUE));
                lemma_stars_in_update(before, 8 * r + c, STAR_VALUE, 64);
            }
            placed = placed + 1;
        }
        proof {
            lemma_cells_of(grid, pr as int, pc as int);
        }
        LiBoard { board: grid, main_piece: (pr as i8, pc as i8), num_star_cnt: star_cnt }
    }
}

impl Default for LiBoard {
    /// A puzzle with five stars for a white queen.
    fn default() -> (b: LiBoard)
        ensures
            b.is_puzzle(5, QUEEN_WHITE),
    {
        Self::new(5, QUEEN_WHITE)
    }
}

/// A board of empty squares holds no star.
proof fn lemma_no_stars(cells: Seq<i8>, n: int)
    requires
        0 <= n <= 64,
        forall|k: int| 0 <= k < 64 ==> cells[k] == 0,
    ensures
        stars_in(cells, n) == 0,
    decreases n,
{
    if n > 0 {
        lemma_no_stars(cells, n - 1);
    }
}

} // verus!
