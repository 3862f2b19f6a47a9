use lilearn::chess::{LiBoard, KNIGHT_WHITE, QUEEN_WHITE, ROOK_WHITE, STAR_VALUE};

fn check_puzzle(b: &LiBoard, stars: i8, piece: i8) {
    let (r, c) = b.main_piece;
    assert!((0..8).contains(&r) && (0..8).contains(&c));
    assert_eq!(b.board[r as usize][c as usize], piece);
    assert_eq!(b.num_star_cnt, stars);
    let mut seen = 0;
    for i in 0..8 {
        for j in 0..8 {
            if (i, j) == (r as usize, c as usize) {
                continue;
            }
            let v = b.board[i][j];
            assert!(v == 0 || v == STAR_VALUE);
            if v == STAR_VALUE {
                seen += 1;
            }
        }
    }
    assert_eq!(seen, stars);
}

#[test]
fn new_places_the_piece_and_the_stars() {
    for _ in 0..50 {
        check_puzzle(&LiBoard::new(5, QUEEN_WHITE), 5, QUEEN_WHITE);
        check_puzzle(&LiBoard::new(18, KNIGHT_WHITE), 18, KNIGHT_WHITE);
        check_puzzle(&LiBoard::new(1, ROOK_WHITE), 1, ROOK_WHITE);
    }
}

#[test]
fn new_with_no_star_places_the_piece_alone() {
    check_puzzle(&LiBoard::new(0, ROOK_WHITE), 0, ROOK_WHITE);
}

#[test]
fn new_fills_the_whole_board() {
    for _ in 0..20 {
        check_puzzle(&LiBoard::new(63, QUEEN_WHITE), 63, QUEEN_WHITE);
        check_puzzle(&LiBoard::new(62, QUEEN_WHITE), 62, QUEEN_WHITE);
    }
}

#[test]
fn new_draws_more_than_one_square() {
    let mut places = std::collections::HashSet::new();
    for _ in 0..200 {
        places.insert(LiBoard::new(3, QUEEN_WHITE).main_piece);
    }
    assert!(places.len() > 1);
}

#[test]
fn default_is_a_queen_with_five_stars() {
    check_puzzle(&LiBoard::default(), 5, QUEEN_WHITE);
}

#[test]
fn a_new_puzzle_can_be_searched() {
    let b = LiBoard::new(4, QUEEN_WHITE);
    assert!(b.is_searchable());
    let (count, path) = b.num_optimal_moves_to_star();
    assert!(count >= 4);
    assert!(count < i8::MAX);
    assert_eq!(path.len(), count as usize);
}
