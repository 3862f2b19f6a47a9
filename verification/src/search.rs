//! What it means to play a sequence of moves, and what a sequence collects.

use vstd::prelude::*;
use crate::chess::{at, legal, moved, on_board, is_unsupported, LiBoard, MovePiece, STAR_VALUE};

verus! {

/// The number of stars among the first `n` cells.
pub open spec fn stars_in(cells: Seq<i8>, n: int) -> int
    decreases n,
{
    if n <= 0 {
        0
    } else {
        stars_in(cells, n - 1) + if cells[n - 1] == STAR_VALUE {
            1int
        } else {
            0int
        }
    }
}

/// The number of stars on the board.
pub open spec fn star_count(cells: Seq<i8>) -> int {
    stars_in(cells, 64)
}

/// The cells after every move of `path` was made, in order.
pub open spec fn after(cells: Seq<i8>, path: Seq<MovePiece>) -> Seq<i8>
    decreases path.len(),
{
    if path.len() == 0 {
        cells
    } else {
        moved(after(cells, path.drop_last()), path.last())
    }
}

/// Where the piece that started at `start` stands after `path`.
pub open spec fn stands(start: (int, int), path: Seq<MovePiece>) -> (int, int) {
    if path.len() == 0 {
        start
    } else {
        (path.last().goal_i as int, path.last().goal_j as int)
    }
}

/// Every move of `path` starts where the piece stands and is legal on the
/// board as the moves before it left it.
pub open spec fn playable(cells: Seq<i8>, start: (int, int), path: Seq<MovePiece>) -> bool
    decreases path.len(),
{
    path.len() == 0 || {
        let before = path.drop_last();
        let m = path.last();
        &&& playable(cells, start, before)
        &&& (m.i as int, m.j as int) == stands(start, before)
        &&& legal(after(cells, before), m)
    }
}

/// The number of moves of `path` that end on a star.
pub open spec fn captures(cells: Seq<i8>, path: Seq<MovePiece>) -> int
    decreases path.len(),
{
    if path.len() == 0 {
        0
    } else {
        let before = path.drop_last();
        let m = path.last();
        captures(cells, before) + if at(after(cells, before), m.goal_i as int, m.goal_j as int)
            == STAR_VALUE {
            1int
        } else {
            0int
        }
    }
}

impl LiBoard {
    /// Where the player's piece stands.
    pub open spec fn start(&self) -> (int, int) {
        (self.main_piece.0 as int, self.main_piece.1 as int)
    }

    /// The search can run: the player's piece stands on the board, and it is
    /// nothing that the rules cannot move.
    pub open spec fn searchable(&self) -> bool {
        &&& on_board(self.start().0, self.start().1)
        &&& !is_unsupported(at(self.cells(), self.start().0, self.start().1))
    }

    /// `path` can be played from this board by the player's piece.
    pub open spec fn follows(&self, path: Seq<MovePiece>) -> bool {
        playable(self.cells(), self.start(), path)
    }

    /// `path` can be played and collects as many stars as the puzzle asks for.
    pub open spec fn solved_by(&self, path: Seq<MovePiece>) -> bool {
        self.follows(path) && captures(self.cells(), path) == self.num_star_cnt
    }
}

/// Among `n` cells there are at most `n` stars.
pub proof fn lemma_stars_in_bounds(cells: Seq<i8>, n: int)
    requires
        0 <= n,
    ensures
        0 <= stars_in(cells, n) <= n,
    decreases n,
{
    if n > 0 {
        lemma_stars_in_bounds(cells, n - 1);
    }
}

/// Writing one cell changes the count by what left and what came.
pub proof fn lemma_stars_in_update(cells: Seq<i8>, k: int, v: i8, n: int)
    requires
        0 <= k < cells.len(),
        0 <= n <= cells.len(),
    ensures
        stars_in(cells.update(k, v), n) == stars_in(cells, n) + if k < n {
            (if v == STAR_VALUE {
                1int
            } else {
                0int
            }) - (if cells[k] == STAR_VALUE {
                1int
            } else {
                0int
            })
        } else {
            0int
        },
    decreases n,
{
    if n > 0 {
        lemma_stars_in_update(cells, k, v, n - 1);
    }
}

/// A move of anything but a star takes one star off the board if it ends on
/// one, and none otherwise.
pub proof fn lemma_moved_stars(cells: Seq<i8>, m: MovePiece)
    requires
        cells.len() == 64,
        m.in_bounds(),
        !m.is_noop(),
        at(cells, m.i as int, m.j as int) != STAR_VALUE,
    ensures
        moved(cells, m).len() == 64,
        star_count(moved(cells, m)) == star_count(cells) - if at(
            cells,
            m.goal_i as int,
            m.goal_j as int,
        ) == STAR_VALUE {
            1int
        } else {
            0int
        },
{
    let goal = 8 * m.goal_i + m.goal_j;
    let origin = 8 * m.i + m.j;
    let v = at(cells, m.i as int, m.j as int);
    let mid = cells.update(goal, v);
    lemma_stars_in_update(cells, goal, v, 64);
    lemma_stars_in_update(mid, origin, 0i8, 64);
}

/// What a played path leaves: the piece stands on the board with its old
/// value, and every other cell is as it was or empty.
pub proof fn lemma_playable_keeps(cells: Seq<i8>, start: (int, int), path: Seq<MovePiece>)
    requires
        cells.len() == 64,
        on_board(start.0, start.1),
        playable(cells, start, path),
    ensures
        after(cells, path).len() == 64,
        on_board(stands(start, path).0, stands(start, path).1),
        at(after(cells, path), stands(start, path).0, stands(start, path).1) == at(
            cells,
            start.0,
            start.1,
        ),
        forall|k: int|
            0 <= k < 64 && k != 8 * stands(start, path).0 + stands(start, path).1 ==> {
                ||| #[trigger] after(cells, path)[k] == 0
                ||| after(cells, path)[k] == cells[k]
            },
        path.len() > 0 ==> at(cells, start.0, start.1) != STAR_VALUE && at(
            cells,
            start.0,
            start.1,
        ) != 0,
        captures(cells, path) + star_count(after(cells, path)) == star_count(cells),
        0 <= captures(cells, path) <= 64,
    decreases path.len(),
{
    lemma_stars_in_bounds(cells, 64);
    if path.len() > 0 {
        let before = path.drop_last();
        let m = path.last();
        lemma_playable_keeps(cells, start, before);
        lemma_moved_stars(after(cells, before), m);
        lemma_stars_in_bounds(after(cells, path), 64);
    }
}

} // verus!
