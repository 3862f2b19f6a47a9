//! What holds of the rules and of the search, whatever the board.

use vstd::prelude::*;
use crate::chess::{
    at, bishop_allows, blocked, is_bishop, is_knight, is_queen, is_rook, legal, queen_allows,
    rook_allows, status_of, LiBoard, MovePiece, STAR_VALUE,
};
use crate::search::{after, captures, lemma_playable_keeps, playable, star_count};

verus! {

/// The verdict depends on nothing but the cells and the move: two boards with
/// the same cells give the same move the same verdict.
pub proof fn law_verdict_is_determined(a: LiBoard, b: LiBoard, m: MovePiece, n: MovePiece)
    requires
        a.cells() == b.cells(),
        m == n,
    ensures
        status_of(legal(a.cells(), m)) == status_of(legal(b.cells(), n)),
{
}

/// A move that goes nowhere is invalid on every board.
pub proof fn law_noop_is_invalid(cells: Seq<i8>, m: MovePiece)
    requires
        m.is_noop(),
    ensures
        !legal(cells, m),
        status_of(legal(cells, m)) is Invalid,
{
}

/// A move that starts or ends off the board is invalid on every board.
pub proof fn law_off_board_is_invalid(cells: Seq<i8>, m: MovePiece)
    requires
        m.i >= 8 || m.j >= 8 || m.goal_i >= 8 || m.goal_j >= 8,
    ensures
        !legal(cells, m),
        status_of(legal(cells, m)) is Invalid,
{
}

/// A knight's leap on the board is valid whatever else the board holds.
pub proof fn law_knight_leaps(cells: Seq<i8>, m: MovePiece)
    requires
        is_knight(at(cells, m.i as int, m.j as int)),
        m.in_bounds(),
        m.is_leap(),
    ensures
        legal(cells, m),
{
}

/// For a knight the verdict is the same on any two boards: only the move
/// counts.
pub proof fn law_knight_ignores_the_board(a: Seq<i8>, b: Seq<i8>, m: MovePiece)
    requires
        is_knight(at(a, m.i as int, m.j as int)),
        is_knight(at(b, m.i as int, m.j as int)),
    ensures
        legal(a, m) == legal(b, m),
{
}

/// A rook, a bishop or a queen does not pass an occupied square, whatever it
/// holds.
pub proof fn law_sliders_do_not_jump(cells: Seq<i8>, m: MovePiece, k: int)
    requires
        is_rook(at(cells, m.i as int, m.j as int)) || is_bishop(at(cells, m.i as int, m.j as int))
            || is_queen(at(cells, m.i as int, m.j as int)),
        1 <= k < m.span(),
        cells[m.way(k)] != 0,
    ensures
        !legal(cells, m),
{
    assert(blocked(cells, m));
}

/// A rook, a bishop or a queen whose way is free may end on an empty square
/// or on a star, and on nothing else.
pub proof fn law_sliders_land_on_stars(cells: Seq<i8>, m: MovePiece)
    requires
        !m.is_noop(),
        m.in_bounds(),
        forall|k: int| 1 <= k < m.span() ==> #[trigger] cells[m.way(k)] == 0,
    ensures
        rook_allows(cells, m) == (m.is_straight() && (at(cells, m.goal_i as int, m.goal_j as int)
            == 0 || at(cells, m.goal_i as int, m.goal_j as int) == STAR_VALUE)),
        bishop_allows(cells, m) == (m.is_diagonal() && (at(
            cells,
            m.goal_i as int,
            m.goal_j as int,
        ) == 0 || at(cells, m.goal_i as int, m.goal_j as int) == STAR_VALUE)),
        queen_allows(cells, m) == ((m.is_straight() || m.is_diagonal()) && (at(
            cells,
            m.goal_i as int,
            m.goal_j as int,
        ) == 0 || at(cells, m.goal_i as int, m.goal_j as int) == STAR_VALUE)),
{
}

/// A path that can be played at all starts on the board.
proof fn lemma_played_from_the_board(cells: Seq<i8>, start: (int, int), path: Seq<MovePiece>)
    requires
        playable(cells, start, path),
        path.len() > 0,
    ensures
        0 <= start.0 < 8,
        0 <= start.1 < 8,
    decreases path.len(),
{
    if path.len() > 1 {
        lemma_played_from_the_board(cells, start, path.drop_last());
    }
}

/// Every star that a played path collects has left the board, and no other.
pub proof fn law_captures_leave_the_board(b: LiBoard, path: Seq<MovePiece>)
    requires
        b.follows(path),
    ensures
        star_count(after(b.cells(), path)) == star_count(b.cells()) - captures(b.cells(), path),
        path.len() <= 0 || captures(b.cells(), path) <= path.len(),
{
    if path.len() > 0 {
        lemma_played_from_the_board(b.cells(), b.start(), path);
        lemma_playable_keeps(b.cells(), b.start(), path);
        lemma_captures_at_most_moves(b.cells(), path);
    }
}

proof fn lemma_captures_at_most_moves(cells: Seq<i8>, path: Seq<MovePiece>)
    ensures
        0 <= captures(cells, path) <= path.len(),
    decreases path.len(),
{
    if path.len() > 0 {
        lemma_captures_at_most_moves(cells, path.drop_last());
    }
}

/// Where the puzzle asks for every star of the board, the moves of a solution,
/// made in order, leave a board without stars.
pub proof fn law_solution_clears_the_board(b: LiBoard, path: Seq<MovePiece>)
    requires
        b.num_star_cnt == star_count(b.cells()),
        b.solved_by(path),
    ensures
        star_count(after(b.cells(), path)) == 0,
{
    law_captures_leave_the_board(b, path);
}

/// A puzzle for a rook, a knight, a bishop or a queen can be searched, and it
/// asks for every star of the board.
pub proof fn law_puzzles_can_be_searched(b: LiBoard, stars: int, piece: i8)
    requires
        b.is_puzzle(stars, piece),
        is_rook(piece) || is_knight(piece) || is_bishop(piece) || is_queen(piece),
    ensures
        b.searchable(),
        b.num_star_cnt == star_count(b.cells()),
{
}

/// A puzzle that asks for no star is solved before the first move.
pub proof fn law_no_star_needs_no_move(b: LiBoard)
    requires
        b.num_star_cnt == 0,
    ensures
        b.solved_by(Seq::empty()),
{
}

/// A solution has at least as many moves as the puzzle asks stars.
pub proof fn law_a_move_for_each_star(b: LiBoard, path: Seq<MovePiece>)
    requires
        b.solved_by(path),
    ensures
        path.len() >= b.num_star_cnt,
{
    lemma_captures_at_most_moves(b.cells(), path);
}

} // verus!
