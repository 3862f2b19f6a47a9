//! The board, its cells, moves, and the rules that decide whether a move is
//! legal.

use vstd::prelude::*;

pub use crate::path::SolutionPath;

verus! {

pub const PAWN_WHITE: i8 = 2;

pub const PAWN_BLACK: i8 = 1;

pub const ROOK_WHITE: i8 = 10;

pub const ROOK_BLACK: i8 = 5;

pub const KNIGHT_WHITE: i8 = 11;

pub const KNIGHT_BLACK: i8 = 4;

pub const QUEEN_WHITE: i8 = 13;

pub const QUEEN_BLACK: i8 = 6;

pub const BISHOP_WHITE: i8 = 12;

pub const BISHOP_BLACK: i8 = 3;

pub const KING_BLACK: i8 = 7;

pub const KING_WHITE: i8 = 14;

pub const STAR_VALUE: i8 = 99;

/// A candidate move: whatever stands on row `i`, column `j` is asked to go to
/// row `goal_i`, column `goal_j`.
#[derive(Debug, Clone, Copy)]
pub struct MovePiece {
    pub i: usize,
    pub j: usize,
    pub goal_i: usize,
    pub goal_j: usize,
}

/// Whether a move is legal.
pub enum MoveStatus {
    Valid,
    Invalid,
}

/// A puzzle: the board, where the player's piece stands, and how many stars
/// are to be collected.
#[derive(Debug, Clone, Copy)]
pub struct LiBoard {
    pub board: [[i8; 8]; 8],
    pub main_piece: (i8, i8),
    pub num_star_cnt: i8,
}

/// The 64 cells of a grid, row after row.
pub open spec fn cells_of(grid: [[i8; 8]; 8]) -> Seq<i8> {
    Seq::new(64, |k: int| grid[k / 8][k % 8])
}

/// The cell on row `r`, column `c`.
pub open spec fn at(cells: Seq<i8>, r: int, c: int) -> i8 {
    cells[8 * r + c]
}

/// Row `r`, column `c` is a square of the board.
pub open spec fn on_board(r: int, c: int) -> bool {
    0 <= r < 8 && 0 <= c < 8
}

/// The cell holds a rook, of either colour.
pub open spec fn is_rook(v: i8) -> bool {
    v == ROOK_BLACK || v == ROOK_WHITE
}

/// The cell holds a bishop, of either colour.
pub open spec fn is_bishop(v: i8) -> bool {
    v == BISHOP_BLACK || v == BISHOP_WHITE
}

/// The cell holds a queen, of either colour.
pub open spec fn is_queen(v: i8) -> bool {
    v == QUEEN_BLACK || v == QUEEN_WHITE
}

/// The cell holds a knight, of either colour.
pub open spec fn is_knight(v: i8) -> bool {
    v == KNIGHT_BLACK || v == KNIGHT_WHITE
}

/// A cell value that stands for something which the rules cannot move: a
/// pawn, a king, a star, or a positive number that names nothing.
pub open spec fn is_unsupported(v: i8) -> bool {
    v > 0 && !is_rook(v) && !is_bishop(v) && !is_queen(v) && !is_knight(v)
}

/// How far two coordinates are apart.
pub open spec fn distance(a: int, b: int) -> int {
    if a <= b {
        b - a
    } else {
        a - b
    }
}

/// `k` steps from `from` in the direction of `to`.
pub open spec fn toward(from: int, to: int, k: int) -> int {
    if from < to {
        from + k
    } else if from > to {
        from - k
    } else {
        from
    }
}

impl MovePiece {
    /// The move starts and ends on the board.
    pub open spec fn in_bounds(self) -> bool {
        self.i < 8 && self.j < 8 && self.goal_i < 8 && self.goal_j < 8
    }

    /// The move ends where it starts.
    pub open spec fn is_noop(self) -> bool {
        self.i == self.goal_i && self.j == self.goal_j
    }

    /// The number of rows that the move crosses.
    pub open spec fn rows(self) -> int {
        distance(self.i as int, self.goal_i as int)
    }

    /// The number of columns that the move crosses.
    pub open spec fn cols(self) -> int {
        distance(self.j as int, self.goal_j as int)
    }

    /// Along a row or a column.
    pub open spec fn is_straight(self) -> bool {
        self.rows() == 0 || self.cols() == 0
    }

    /// As many rows as columns.
    pub open spec fn is_diagonal(self) -> bool {
        self.rows() == self.cols()
    }

    /// Two rows and one column, or one row and two columns.
    pub open spec fn is_leap(self) -> bool {
        (self.rows() == 2 && self.cols() == 1) || (self.rows() == 1 && self.cols() == 2)
    }

    /// The number of steps from the origin to the goal along a line.
    pub open spec fn span(self) -> int {
        if self.rows() >= self.cols() {
            self.rows()
        } else {
            self.cols()
        }
    }

    /// The index in `cells_of` of the square `k` steps from the origin on the
    /// way to the goal.
    pub open spec fn way(self, k: int) -> int {
        8 * toward(self.i as int, self.goal_i as int, k) + toward(
            self.j as int,
            self.goal_j as int,
            k,
        )
    }
}

/// A move along a line is blocked when a square strictly between origin and
/// goal is occupied, or when the goal holds anything but a star.
pub open spec fn blocked(cells: Seq<i8>, m: MovePiece) -> bool {
    ||| exists|k: int| 1 <= k < m.span() && #[trigger] cells[m.way(k)] != 0
    ||| (m.span() >= 1 && at(cells, m.goal_i as int, m.goal_j as int) != 0 && at(
        cells,
        m.goal_i as int,
        m.goal_j as int,
    ) != STAR_VALUE)
}

/// What a rook may do: move along a row or a column that is not blocked.
pub open spec fn rook_allows(cells: Seq<i8>, m: MovePiece) -> bool {
    m.is_straight() && !blocked(cells, m)
}

/// What a bishop may do: move along a diagonal that is not blocked.
pub open spec fn bishop_allows(cells: Seq<i8>, m: MovePiece) -> bool {
    m.is_diagonal() && !blocked(cells, m)
}

/// What a queen may do: whatever a rook or a bishop may.
pub open spec fn queen_allows(cells: Seq<i8>, m: MovePiece) -> bool {
    (m.is_straight() || m.is_diagonal()) && !blocked(cells, m)
}

/// The rule of the whole game: the move goes somewhere else, stays on the
/// board, and the piece at its origin can make it.
pub open spec fn legal(cells: Seq<i8>, m: MovePiece) -> bool {
    let v = at(cells, m.i as int, m.j as int);
    &&& !m.is_noop()
    &&& m.in_bounds()
    &&& {
        ||| is_bishop(v) && bishop_allows(cells, m)
        ||| is_knight(v) && m.is_leap()
        ||| is_rook(v) && rook_allows(cells, m)
        ||| is_queen(v) && queen_allows(cells, m)
    }
}

/// The verdict that says `allowed`.
pub open spec fn status_of(allowed: bool) -> MoveStatus {
    if allowed {
        MoveStatus::Valid
    } else {
        MoveStatus::Invalid
    }
}

/// The cells after the move: the goal holds what the origin held, and the
/// origin is empty.
pub open spec fn moved(cells: Seq<i8>, m: MovePiece) -> Seq<i8> {
    cells.update(8 * m.goal_i + m.goal_j, at(cells, m.i as int, m.j as int)).update(
        8 * m.i + m.j,
        0i8,
    )
}

/// The cell of `cells_of` on row `r`, column `c` is the cell of the grid
/// there.
pub proof fn lemma_cells_of(grid: [[i8; 8]; 8], r: int, c: int)
    requires
        on_board(r, c),
    ensures
        cells_of(grid).len() == 64,
        at(cells_of(grid), r, c) == grid[r][c],
{
}

impl MoveStatus {
    /// Whether the verdict is `Valid`.
    #[inline]
    pub fn is_valid(&self) -> (b: bool)
        ensures
            b == (self is Valid),
    {
        match self {
            Self::Valid => true,
            Self::Invalid => false,
        }
    }
}

/// The distance between two coordinates.
fn gap(a: usize, b: usize) -> (d: usize)
    ensures
        d == distance(a as int, b as int),
{
    if a <= b {
        b - a
    } else {
        a - b
    }
}

/// One step from `from` in the direction of `to`, on the board.
fn step_toward(from: usize, to: usize, at_k: usize, k: Ghost<int>) -> (next: usize)
    requires
        from < 8,
        to < 8,
        0 <= k@ < distance(from as int, to as int) || from == to,
        at_k == toward(from as int, to as int, k@),
    ensures
        next == toward(from as int, to as int, k@ + 1),
        next < 8,
{
    if from < to {
        at_k + 1
    } else if from > to {
        at_k - 1
    } else {
        at_k
    }
}

impl LiBoard {
    /// The 64 cells of the board, row after row.
    pub open spec fn cells(&self) -> Seq<i8> {
        cells_of(self.board)
    }

    /// `validate_move` can judge `m`: the move is off the board or goes
    /// nowhere, or what stands at its origin is nothing that the rules cannot
    /// move.
    pub open spec fn can_judge(&self, m: MovePiece) -> bool {
        !m.is_noop() && m.in_bounds() ==> !is_unsupported(at(self.cells(), m.i as int, m.j as int))
    }

    /// Whether the move along a line would pass over an occupied square, or
    /// end on one that holds no star.
    pub fn is_jumping_over_piece(&self, m_piece: &MovePiece) -> (jumping: bool)
        requires
            m_piece.in_bounds(),
            m_piece.is_straight() || m_piece.is_diagonal(),
        ensures
            jumping == blocked(self.cells(), *m_piece),
    {
        let rows = gap(m_piece.i, m_piece.goal_i);
        let cols = gap(m_piece.j, m_piece.goal_j);
        let span = if rows >= cols {
            rows
        } else {
            cols
        };
        let mut r = m_piece.i;
        let mut c = m_piece.j;
        let mut k: usize = 0;
        proof {
            lemma_cells_of(self.board, m_piece.goal_i as int, m_piece.goal_j as int);
        }
        while k < span
            invariant
                m_piece.in_bounds(),
                m_piece.is_straight() || m_piece.is_diagonal(),
                span == m_piece.span(),
                0 <= k <= span,
                r == toward(m_piece.i as int, m_piece.goal_i as int, k as int),
                c == toward(m_piece.j as int, m_piece.goal_j as int, k as int),
                r < 8,
                c < 8,
                forall|n: int| 1 <= n <= k ==> #[trigger] self.cells()[m_piece.way(n)] == 0,
            decreases span - k,
        {
            r = step_toward(m_piece.i, m_piece.goal_i, r, Ghost(k as int));
            c = step_toward(m_piece.j, m_piece.goal_j, c, Ghost(k as int));
            k = k + 1;
            proof {
                lemma_cells_of(self.board, r as int, c as int);
                assert(m_piece.way(k as int) == 8 * r + c);
            }
            if self.board[r][c] != 0 {
                if k == span && self.board[m_piece.goal_i][m_piece.goal_j] == STAR_VALUE {
                    return false;
                }
                proof {
                    if k < span {
                        assert(self.cells()[m_piece.way(k as int)] != 0);
                    }
                }
                return true;
            }
        }
        proof {
            if span >= 1 {
                assert(m_piece.way(span as int) == 8 * m_piece.goal_i + m_piece.goal_j);
                assert(self.cells()[m_piece.way(span as int)] == 0);
            }
        }
        false
    }

    /// The rule of the rook, whatever stands at the origin.
    pub fn validate_move_rook(&self, m_piece: &MovePiece) -> (status: MoveStatus)
        requires
            m_piece.in_bounds(),
        ensures
            status == status_of(rook_allows(self.cells(), *m_piece)),
    {
        if (gap(m_piece.i, m_piece.goal_i) == 0 || gap(m_piece.j, m_piece.goal_j) == 0)
            && !self.is_jumping_over_piece(m_piece) {
            return MoveStatus::Valid;
        }
        MoveStatus::Invalid
    }

    /// The rule of the bishop, whatever stands at the origin.
    pub fn validate_move_bishop(&self, m_piece: &MovePiece) -> (status: MoveStatus)
        requires
            m_piece.in_bounds(),
        ensures
            status == status_of(bishop_allows(self.cells(), *m_piece)),
    {
        if gap(m_piece.i, m_piece.goal_i) == gap(m_piece.j, m_piece.goal_j)
            && !self.is_jumping_over_piece(m_piece) {
            return MoveStatus::Valid;
        }
        MoveStatus::Invalid
    }

    /// The rule of the queen, whatever stands at the origin.
    pub fn validate_move_queen(&self, m_piece: &MovePiece) -> (status: MoveStatus)
        requires
            m_piece.in_bounds(),
        ensures
            status == status_of(queen_allows(self.cells(), *m_piece)),
    {
        let rows = gap(m_piece.i, m_piece.goal_i);
        let cols = gap(m_piece.j, m_piece.goal_j);
        if (rows == 0 || cols == 0 || rows == cols) && !self.is_jumping_over_piece(m_piece) {
            return MoveStatus::Valid;
        }
        MoveStatus::Invalid
    }

    /// A knight leaps: only the shape of the move counts, not what stands on
    /// the board.
    pub fn validate_move_knight(&self, m_piece: &MovePiece) -> (status: MoveStatus)
        ensures
            status == status_of(m_piece.is_leap()),
    {
        let rows = gap(m_piece.i, m_piece.goal_i);
        let cols = gap(m_piece.j, m_piece.goal_j);
        if (rows == 2 && cols == 1) || (rows == 1 && cols == 2) {
            return MoveStatus::Valid;
        }
        MoveStatus::Invalid
    }

    /// Whether `validate_move` can judge `m_piece` on this board.
    pub fn judges(&self, m_piece: &MovePiece) -> (yes: bool)
        ensures
            yes == self.can_judge(*m_piece),
    {
        if m_piece.i == m_piece.goal_i && m_piece.j == m_piece.goal_j {
            return true;
        }
        if m_piece.i >= 8 || m_piece.j >= 8 || m_piece.goal_i >= 8 || m_piece.goal_j >= 8 {
            return true;
        }
        proof {
            lemma_cells_of(self.board, m_piece.i as int, m_piece.j as int);
        }
        let v = self.board[m_piece.i][m_piece.j];
        v <= 0 || v == BISHOP_BLACK || v == BISHOP_WHITE || v == KNIGHT_BLACK || v == KNIGHT_WHITE
            || v == ROOK_BLACK || v == ROOK_WHITE || v == QUEEN_BLACK || v == QUEEN_WHITE
    }

    /// The verdict on a move. A move that goes nowhere, or that starts or ends
    /// off the board, is invalid whatever the board holds; so is a move from
    /// an empty square. Otherwise the piece at the origin decides.
    pub fn validate_move(&self, m_piece: &MovePiece) -> (status: MoveStatus)
        requires
            self.can_judge(*m_piece),
        ensures
            status == status_of(legal(self.cells(), *m_piece)),
            m_piece.is_noop() ==> status is Invalid,
            !m_piece.in_bounds() ==> status is Invalid,
    {
        if m_piece.i == m_piece.goal_i && m_piece.j == m_piece.goal_j {
            return MoveStatus::Invalid;
        }
        if m_piece.goal_i >= 8 || m_piece.goal_j >= 8 {
            return MoveStatus::Invalid;
        }
        if m_piece.i >= 8 || m_piece.j >= 8 {
            return MoveStatus::Invalid;
        }
        proof {
            lemma_cells_of(self.board, m_piece.i as int, m_piece.j as int);
        }
        let v = self.board[m_piece.i][m_piece.j];
        if v == BISHOP_BLACK || v == BISHOP_WHITE {
            self.validate_move_bishop(m_piece)
        } else if v == KNIGHT_BLACK || v == KNIGHT_WHITE {
            self.validate_move_knight(m_piece)
        } else if v == ROOK_BLACK || v == ROOK_WHITE {
            self.validate_move_rook(m_piece)
        } else if v == QUEEN_BLACK || v == QUEEN_WHITE {
            self.validate_move_queen(m_piece)
        } else {
            MoveStatus::Invalid
        }
    }

    /// Moves what stands at the origin to the goal and empties the origin,
    /// without asking whether the move is legal.
    pub fn update_board(&mut self, m_piece: &MovePiece)
        requires
            m_piece.in_bounds(),
        ensures
            final(self).cells() == moved(old(self).cells(), *m_piece),
            final(self).main_piece == old(self).main_piece,
            final(self).num_star_cnt == old(self).num_star_cnt,
    {
        let temp = self.board[m_piece.i][m_piece.j];
        self.board[m_piece.goal_i][m_piece.goal_j] = temp;
        self.board[m_piece.i][m_piece.j] = 0;
        proof {
            let before = old(self).cells();
            let after = self.cells();
            assert forall|k: int| 0 <= k < 64 implies after[k] == moved(before, *m_piece)[k] by {
                lemma_cells_of(old(self).board, k / 8, k % 8);
                lemma_cells_of(self.board, k / 8, k % 8);
                lemma_cells_of(old(self).board, m_piece.i as int, m_piece.j as int);
            }
            assert(after =~= moved(before, *m_piece));
        }
    }
}

} // verus!
