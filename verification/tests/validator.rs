use lilearn::chess::{
    LiBoard, MovePiece, MoveStatus, BISHOP_BLACK, BISHOP_WHITE, KING_WHITE, KNIGHT_BLACK,
    KNIGHT_WHITE, PAWN_BLACK, PAWN_WHITE, QUEEN_BLACK, QUEEN_WHITE, ROOK_BLACK, ROOK_WHITE,
    STAR_VALUE,
};

fn board_with(cells: &[(usize, usize, i8)]) -> LiBoard {
    let mut grid = [[0i8; 8]; 8];
    for (r, c, v) in cells {
        grid[*r][*c] = *v;
    }
    LiBoard { board: grid, num_star_cnt: 0, main_piece: (0, 0) }
}

fn mv(i: usize, j: usize, goal_i: usize, goal_j: usize) -> MovePiece {
    MovePiece { i, j, goal_i, goal_j }
}

fn valid(b: &LiBoard, m: &MovePiece) -> bool {
    assert!(b.judges(m));
    b.validate_move(m).is_valid()
}

#[test]
fn is_valid_tells_the_variants_apart() {
    assert!(MoveStatus::Valid.is_valid());
    assert!(!MoveStatus::Invalid.is_valid());
}

#[test]
fn the_same_board_and_move_give_the_same_verdict() {
    let b = board_with(&[(0, 0, ROOK_WHITE), (0, 3, STAR_VALUE)]);
    let other = LiBoard { board: b.board, num_star_cnt: 5, main_piece: (4, 4) };
    for gi in 0..9 {
        for gj in 0..9 {
            let m = mv(0, 0, gi, gj);
            let first = valid(&b, &m);
            assert_eq!(first, valid(&b, &m));
            assert_eq!(first, valid(&other, &m));
        }
    }
}

#[test]
fn a_move_that_goes_nowhere_is_invalid() {
    let b = board_with(&[
        (0, 0, ROOK_WHITE),
        (1, 1, KNIGHT_WHITE),
        (2, 2, QUEEN_WHITE),
        (3, 3, BISHOP_WHITE),
        (4, 4, STAR_VALUE),
        (5, 5, PAWN_WHITE),
        (6, 6, KING_WHITE),
    ]);
    for r in 0..8 {
        for c in 0..8 {
            assert!(!valid(&b, &mv(r, c, r, c)));
        }
    }
    assert!(!valid(&b, &mv(9, 9, 9, 9)));
}

#[test]
fn a_move_off_the_board_is_invalid() {
    let b = board_with(&[(7, 7, QUEEN_WHITE), (0, 0, KNIGHT_WHITE)]);
    assert!(!valid(&b, &mv(7, 7, 8, 7)));
    assert!(!valid(&b, &mv(7, 7, 7, 8)));
    assert!(!valid(&b, &mv(7, 7, 8, 8)));
    assert!(!valid(&b, &mv(7, 7, usize::MAX, 7)));
    assert!(!valid(&b, &mv(8, 7, 7, 7)));
    assert!(!valid(&b, &mv(7, 8, 7, 7)));
    assert!(!valid(&b, &mv(usize::MAX, usize::MAX, 0, 0)));
    assert!(!valid(&b, &mv(9, 10, 7, 9)));
}

#[test]
fn a_move_from_an_empty_square_is_invalid() {
    let b = board_with(&[(0, 0, QUEEN_WHITE)]);
    assert!(!valid(&b, &mv(3, 3, 3, 4)));
    assert!(!valid(&b, &mv(3, 3, 5, 4)));
}

#[test]
fn a_negative_cell_moves_nowhere() {
    let b = board_with(&[(3, 3, -5)]);
    assert!(!valid(&b, &mv(3, 3, 3, 4)));
}

#[test]
fn knight_leaps_over_whatever_stands_between() {
    let mut cells = vec![(3usize, 3usize, KNIGHT_WHITE)];
    for r in 2..5 {
        for c in 2..5 {
            if (r, c) != (3, 3) {
                cells.push((r, c, ROOK_BLACK));
            }
        }
    }
    let crowded = board_with(&cells);
    let bare = board_with(&[(3, 3, KNIGHT_WHITE)]);
    let leaps = [(1, 2), (1, 4), (2, 1), (2, 5), (4, 1), (4, 5), (5, 2), (5, 4)];
    for (r, c) in leaps {
        assert!(valid(&crowded, &mv(3, 3, r, c)));
        assert!(valid(&bare, &mv(3, 3, r, c)));
    }
    for r in 0..8 {
        for c in 0..8 {
            let m = mv(3, 3, r, c);
            assert_eq!(valid(&crowded, &m), leaps.contains(&(r, c)));
            assert_eq!(valid(&bare, &m), leaps.contains(&(r, c)));
        }
    }
}

#[test]
fn knight_lands_on_what_stands_at_the_goal() {
    let b = board_with(&[(0, 0, KNIGHT_BLACK), (1, 2, ROOK_WHITE), (2, 1, STAR_VALUE)]);
    assert!(valid(&b, &mv(0, 0, 1, 2)));
    assert!(valid(&b, &mv(0, 0, 2, 1)));
}

#[test]
fn rook_is_stopped_by_a_piece_in_the_way() {
    let b = board_with(&[(0, 0, ROOK_WHITE), (0, 3, KNIGHT_WHITE)]);
    assert!(!valid(&b, &mv(0, 0, 0, 6)));
    assert!(!valid(&b, &mv(0, 0, 0, 4)));
    assert!(!valid(&b, &mv(0, 0, 0, 3)));
    assert!(valid(&b, &mv(0, 0, 0, 2)));
    assert!(valid(&b, &mv(0, 0, 0, 1)));
    assert!(valid(&b, &mv(0, 0, 7, 0)));
}

#[test]
fn rook_lands_on_a_star_but_does_not_pass_it() {
    let b = board_with(&[(0, 0, ROOK_WHITE), (0, 3, STAR_VALUE)]);
    assert!(valid(&b, &mv(0, 0, 0, 3)));
    assert!(!valid(&b, &mv(0, 0, 0, 4)));
    assert!(!valid(&b, &mv(0, 0, 0, 6)));
    assert!(valid(&b, &mv(0, 0, 0, 2)));
}

#[test]
fn rook_does_not_reach_a_star_behind_a_star() {
    let b = board_with(&[(0, 0, ROOK_BLACK), (0, 2, STAR_VALUE), (0, 5, STAR_VALUE)]);
    assert!(valid(&b, &mv(0, 0, 0, 2)));
    assert!(!valid(&b, &mv(0, 0, 0, 5)));
}

#[test]
fn rook_moves_along_rows_and_columns_only() {
    let b = board_with(&[(4, 4, ROOK_WHITE)]);
    for r in 0..8 {
        for c in 0..8 {
            let expect = (r == 4) != (c == 4);
            assert_eq!(valid(&b, &mv(4, 4, r, c)), expect);
        }
    }
}

#[test]
fn rook_moves_in_all_four_directions_and_is_blocked_in_each() {
    let b = board_with(&[
        (4, 4, ROOK_WHITE),
        (4, 6, QUEEN_BLACK),
        (4, 1, QUEEN_BLACK),
        (1, 4, QUEEN_BLACK),
        (6, 4, QUEEN_BLACK),
    ]);
    assert!(valid(&b, &mv(4, 4, 4, 5)));
    assert!(!valid(&b, &mv(4, 4, 4, 6)));
    assert!(!valid(&b, &mv(4, 4, 4, 7)));
    assert!(valid(&b, &mv(4, 4, 4, 2)));
    assert!(!valid(&b, &mv(4, 4, 4, 1)));
    assert!(!valid(&b, &mv(4, 4, 4, 0)));
    assert!(valid(&b, &mv(4, 4, 2, 4)));
    assert!(!valid(&b, &mv(4, 4, 1, 4)));
    assert!(!valid(&b, &mv(4, 4, 0, 4)));
    assert!(valid(&b, &mv(4, 4, 5, 4)));
    assert!(!valid(&b, &mv(4, 4, 6, 4)));
    assert!(!valid(&b, &mv(4, 4, 7, 4)));
}

#[test]
fn bishop_moves_along_diagonals_only() {
    let b = board_with(&[(3, 4, BISHOP_WHITE)]);
    for r in 0..8usize {
        for c in 0..8usize {
            let dr = if r > 3 { r - 3 } else { 3 - r };
            let dc = if c > 4 { c - 4 } else { 4 - c };
            let expect = dr == dc && dr != 0;
            assert_eq!(valid(&b, &mv(3, 4, r, c)), expect);
        }
    }
}

#[test]
fn bishop_is_blocked_on_each_diagonal() {
    let b = board_with(&[
        (4, 4, BISHOP_BLACK),
        (6, 6, ROOK_WHITE),
        (2, 2, STAR_VALUE),
        (2, 6, ROOK_WHITE),
        (6, 2, STAR_VALUE),
    ]);
    assert!(valid(&b, &mv(4, 4, 5, 5)));
    assert!(!valid(&b, &mv(4, 4, 6, 6)));
    assert!(!valid(&b, &mv(4, 4, 7, 7)));
    assert!(valid(&b, &mv(4, 4, 2, 2)));
    assert!(!valid(&b, &mv(4, 4, 1, 1)));
    assert!(valid(&b, &mv(4, 4, 3, 5)));
    assert!(!valid(&b, &mv(4, 4, 2, 6)));
    assert!(!valid(&b, &mv(4, 4, 1, 7)));
    assert!(valid(&b, &mv(4, 4, 6, 2)));
    assert!(!valid(&b, &mv(4, 4, 7, 1)));
}

#[test]
fn queen_moves_as_rook_and_as_bishop() {
    let b = board_with(&[(4, 4, QUEEN_BLACK)]);
    for r in 0..8usize {
        for c in 0..8usize {
            let dr = if r > 4 { r - 4 } else { 4 - r };
            let dc = if c > 4 { c - 4 } else { 4 - c };
            let expect = (dr == dc || dr == 0 || dc == 0) && (dr, dc) != (0, 0);
            assert_eq!(valid(&b, &mv(4, 4, r, c)), expect);
        }
    }
}

#[test]
fn queen_is_blocked_like_rook_and_bishop() {
    let b = board_with(&[(0, 0, QUEEN_WHITE), (3, 3, STAR_VALUE), (0, 2, ROOK_BLACK)]);
    assert!(valid(&b, &mv(0, 0, 3, 3)));
    assert!(!valid(&b, &mv(0, 0, 4, 4)));
    assert!(valid(&b, &mv(0, 0, 0, 1)));
    assert!(!valid(&b, &mv(0, 0, 0, 2)));
    assert!(!valid(&b, &mv(0, 0, 0, 3)));
    assert!(valid(&b, &mv(0, 0, 7, 0)));
    assert!(!valid(&b, &mv(0, 0, 1, 2)));
}

#[test]
fn judges_refuses_pawns_kings_and_stars_at_the_origin() {
    let b = board_with(&[
        (0, 0, PAWN_WHITE),
        (0, 1, PAWN_BLACK),
        (0, 2, KING_WHITE),
        (0, 3, STAR_VALUE),
        (0, 4, 50),
        (0, 5, ROOK_WHITE),
        (0, 6, -3),
    ]);
    for c in 0..5 {
        assert!(!b.judges(&mv(0, c, 1, c)));
        assert!(b.judges(&mv(0, c, 0, c)));
        assert!(b.judges(&mv(0, c, 8, c)));
        assert!(!b.validate_move(&mv(0, c, 0, c)).is_valid());
        assert!(!b.validate_move(&mv(0, c, 8, c)).is_valid());
    }
    assert!(b.judges(&mv(0, 5, 1, 5)));
    assert!(b.judges(&mv(0, 6, 1, 6)));
    assert!(b.judges(&mv(0, 7, 1, 7)));
    assert!(b.judges(&mv(8, 0, 1, 1)));
}

#[test]
fn the_rules_of_one_piece_alone() {
    let b = board_with(&[(0, 0, STAR_VALUE), (0, 3, ROOK_WHITE), (3, 3, STAR_VALUE)]);
    // Each rule looks at the shape of the move and at the way, not at what
    // stands at the origin.
    assert!(b.validate_move_rook(&mv(0, 0, 0, 2)).is_valid());
    assert!(!b.validate_move_rook(&mv(0, 0, 0, 3)).is_valid());
    assert!(!b.validate_move_rook(&mv(0, 0, 0, 4)).is_valid());
    assert!(!b.validate_move_rook(&mv(0, 0, 1, 1)).is_valid());
    assert!(b.validate_move_rook(&mv(5, 5, 5, 5)).is_valid());
    assert!(b.validate_move_bishop(&mv(0, 0, 3, 3)).is_valid());
    assert!(!b.validate_move_bishop(&mv(0, 0, 4, 4)).is_valid());
    assert!(!b.validate_move_bishop(&mv(0, 0, 0, 1)).is_valid());
    assert!(b.validate_move_queen(&mv(0, 0, 3, 3)).is_valid());
    assert!(b.validate_move_queen(&mv(0, 0, 0, 1)).is_valid());
    assert!(!b.validate_move_queen(&mv(0, 0, 2, 1)).is_valid());
    assert!(b.validate_move_knight(&mv(0, 0, 2, 1)).is_valid());
    assert!(b.validate_move_knight(&mv(0, 0, 1, 2)).is_valid());
    assert!(!b.validate_move_knight(&mv(0, 0, 2, 2)).is_valid());
    assert!(!b.validate_move_knight(&mv(0, 0, 0, 0)).is_valid());
    assert!(b.validate_move_knight(&mv(7, 7, 9, 8)).is_valid());
}

#[test]
fn is_jumping_over_piece_looks_at_the_way_and_at_the_goal() {
    let b = board_with(&[(2, 2, ROOK_WHITE), (2, 5, STAR_VALUE), (5, 5, KNIGHT_WHITE)]);
    assert!(!b.is_jumping_over_piece(&mv(2, 2, 2, 4)));
    assert!(!b.is_jumping_over_piece(&mv(2, 2, 2, 5)));
    assert!(b.is_jumping_over_piece(&mv(2, 2, 2, 6)));
    assert!(!b.is_jumping_over_piece(&mv(2, 2, 4, 4)));
    assert!(b.is_jumping_over_piece(&mv(2, 2, 5, 5)));
    assert!(b.is_jumping_over_piece(&mv(2, 2, 6, 6)));
    assert!(!b.is_jumping_over_piece(&mv(2, 2, 2, 2)));
    assert!(!b.is_jumping_over_piece(&mv(2, 2, 0, 0)));
    assert!(!b.is_jumping_over_piece(&mv(2, 2, 0, 2)));
    assert!(b.is_jumping_over_piece(&mv(7, 7, 4, 4)));
    assert!(b.is_jumping_over_piece(&mv(2, 7, 2, 3)));
}

#[test]
fn update_board_moves_the_piece_and_empties_the_origin() {
    let mut b = board_with(&[(1, 2, QUEEN_WHITE), (5, 6, STAR_VALUE)]);
    b.num_star_cnt = 1;
    b.main_piece = (1, 2);
    b.update_board(&mv(1, 2, 5, 6));
    assert_eq!(b.board[5][6], QUEEN_WHITE);
    assert_eq!(b.board[1][2], 0);
    assert_eq!(b.num_star_cnt, 1);
    assert_eq!(b.main_piece, (1, 2));
    let mut count = 0;
    for r in 0..8 {
        for c in 0..8 {
            if b.board[r][c] != 0 {
                count += 1;
            }
        }
    }
    assert_eq!(count, 1);
}

#[test]
fn update_board_asks_nothing_of_the_move() {
    let mut b = board_with(&[(0, 0, BISHOP_WHITE), (0, 1, STAR_VALUE)]);
    b.update_board(&mv(0, 1, 7, 0));
    assert_eq!(b.board[7][0], STAR_VALUE);
    assert_eq!(b.board[0][1], 0);
    assert_eq!(b.board[0][0], BISHOP_WHITE);
    b.update_board(&mv(0, 0, 0, 0));
    assert_eq!(b.board[0][0], 0);
}
