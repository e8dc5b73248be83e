use popstar::board::{PopStarEngine, BOARD_SIZE, EMPTY};

fn blank() -> Vec<i8> {
    vec![EMPTY; BOARD_SIZE]
}

fn put(b: &mut Vec<i8>, r: usize, c: usize, v: i8) {
    b[r * 10 + c] = v;
}

fn tiles_left(e: &PopStarEngine) -> usize {
    e.board.iter().filter(|&&v| v != EMPTY).count()
}

fn corner_board() -> Vec<i8> {
    let mut b = blank();
    put(&mut b, 8, 0, 2);
    put(&mut b, 8, 1, 2);
    put(&mut b, 9, 0, 2);
    put(&mut b, 9, 1, 2);
    b
}

/// Colours that never repeat between neighbours.
fn checkered() -> Vec<i8> {
    let mut b = blank();
    for r in 0..10 {
        for c in 0..10 {
            put(&mut b, r, c, ((r + c) % 2) as i8);
        }
    }
    b
}

#[test]
fn corner_group_is_found_from_each_cell() {
    let e = PopStarEngine::new(Some(corner_board()));
    for &(r, c) in &[(8, 0), (8, 1), (9, 0), (9, 1)] {
        let mut g = e.get_connected_group(r, c);
        g.sort();
        assert_eq!(g, vec![(8, 0), (8, 1), (9, 0), (9, 1)]);
    }
}

#[test]
fn corner_group_clears_the_board() {
    let mut e = PopStarEngine::new(Some(corner_board()));
    assert_eq!(e.eliminate(9, 0, None), 80);
    assert!(e.board.iter().all(|&v| v == EMPTY));
    assert_eq!(e.total_score, 80);
    assert_eq!(e.score, 80);
}

#[test]
fn empty_cell_is_a_no_op() {
    let mut e = PopStarEngine::new(Some(corner_board()));
    let before = e.board;
    assert_eq!(e.eliminate(0, 0, None), 0);
    assert_eq!(e.board, before);
    assert_eq!(e.total_score, 0);
    assert!(e.get_connected_group(0, 0).is_empty());
}

#[test]
fn cell_outside_the_grid_is_a_no_op() {
    let mut e = PopStarEngine::new(Some(corner_board()));
    let before = e.board;
    assert_eq!(e.eliminate(10, 3, None), 0);
    assert_eq!(e.eliminate(3, 10, None), 0);
    assert_eq!(e.board, before);
    assert!(e.get_connected_group(10, 0).is_empty());
}

#[test]
fn lone_tile_earns_nothing() {
    let mut b = blank();
    put(&mut b, 9, 0, 1);
    put(&mut b, 9, 1, 3);
    let mut e = PopStarEngine::new(Some(b));
    let before = e.board;
    assert_eq!(e.get_connected_group(9, 0), vec![(9, 0)]);
    assert_eq!(e.eliminate(9, 0, None), 0);
    assert_eq!(e.board, before);
}

#[test]
fn known_group_gives_the_same_result() {
    let mut a = PopStarEngine::new(Some(checkered()));
    put_pair(&mut a);
    let mut b = a.clone();
    let g = a.get_connected_group(5, 5);
    assert_eq!(a.eliminate(5, 5, Some(g)), b.eliminate(5, 5, None));
    assert_eq!(a.board, b.board);
}

fn put_pair(e: &mut PopStarEngine) {
    e.board[5 * 10 + 6] = e.board[5 * 10 + 5];
}

#[test]
fn removal_adds_five_n_squared_and_removes_n_tiles() {
    let mut b = checkered();
    // An L of colour 4: three tiles.
    put(&mut b, 3, 3, 4);
    put(&mut b, 4, 3, 4);
    put(&mut b, 4, 4, 4);
    let mut e = PopStarEngine::new(Some(b));
    let n = e.get_connected_group(4, 3).len();
    assert_eq!(n, 3);
    let left = tiles_left(&e);
    let gained = e.eliminate(3, 3, None);
    assert_eq!(gained, 45);
    assert_eq!(e.total_score, 45);
    assert_eq!(tiles_left(&e), left - 3);
    let again = e.eliminate(0, 0, None);
    assert!(e.total_score >= 45 + again);
}

#[test]
fn tiles_fall_and_keep_their_order() {
    let mut b = blank();
    // Column 0, top to bottom: 1, gap, 2, 2, 3.
    put(&mut b, 5, 0, 1);
    put(&mut b, 7, 0, 2);
    put(&mut b, 8, 0, 2);
    put(&mut b, 9, 0, 3);
    let mut e = PopStarEngine::new(Some(b));
    assert_eq!(e.eliminate(7, 0, None), 20);
    let mut expected = blank();
    put(&mut expected, 8, 0, 1);
    put(&mut expected, 9, 0, 3);
    assert_eq!(e.board.to_vec(), expected);
    for c in 0..10 {
        for r1 in 0..10 {
            for r2 in r1 + 1..10 {
                if e.board[r1 * 10 + c] != EMPTY {
                    assert_ne!(e.board[r2 * 10 + c], EMPTY);
                }
            }
        }
    }
}

#[test]
fn empty_columns_close_up() {
    let mut b = blank();
    put(&mut b, 9, 0, 1);
    put(&mut b, 8, 1, 2);
    put(&mut b, 9, 1, 2);
    put(&mut b, 9, 2, 3);
    put(&mut b, 8, 4, 4);
    put(&mut b, 9, 4, 0);
    let mut e = PopStarEngine::new(Some(b));
    assert_eq!(e.eliminate(8, 1, None), 20);
    let mut expected = blank();
    put(&mut expected, 9, 0, 1);
    put(&mut expected, 9, 1, 3);
    put(&mut expected, 8, 2, 4);
    put(&mut expected, 9, 2, 0);
    assert_eq!(e.board.to_vec(), expected);
    let empty_col = |c: usize| (0..10).all(|r| e.board[r * 10 + c] == EMPTY);
    for c1 in 0..10 {
        for c2 in c1 + 1..10 {
            if empty_col(c1) {
                assert!(empty_col(c2));
            }
        }
    }
}

#[test]
fn no_moves_when_every_group_is_single() {
    let e = PopStarEngine::new(Some(checkered()));
    assert!(!e.has_moves());
    for r in 0..10 {
        for c in 0..10 {
            assert_eq!(e.get_connected_group(r, c).len(), 1);
        }
    }
}

#[test]
fn moves_found_right_and_below() {
    let mut right = checkered();
    put(&mut right, 0, 1, 0);
    assert!(PopStarEngine::new(Some(right)).has_moves());
    let mut below = checkered();
    put(&mut below, 9, 9, 1);
    assert!(PopStarEngine::new(Some(below)).has_moves());
    assert!(!PopStarEngine::new(Some(blank())).has_moves());
}

fn with_tiles(k: usize) -> PopStarEngine {
    let mut b = blank();
    for i in 0..k {
        b[i] = (i % 2) as i8;
    }
    PopStarEngine::new(Some(b))
}

#[test]
fn end_bonus_values() {
    assert_eq!(with_tiles(0).calculate_end_bonus(), 2000);
    assert_eq!(with_tiles(1).calculate_end_bonus(), 1980);
    assert_eq!(with_tiles(5).calculate_end_bonus(), 1500);
    assert_eq!(with_tiles(9).calculate_end_bonus(), 380);
    assert_eq!(with_tiles(10).calculate_end_bonus(), 0);
    assert_eq!(with_tiles(100).calculate_end_bonus(), 0);
    for k in 1..10 {
        assert!(with_tiles(k - 1).calculate_end_bonus() > with_tiles(k).calculate_end_bonus());
    }
}

#[test]
fn read_accessors_are_stable() {
    let e = PopStarEngine::new(Some(checkered()));
    let first = e.rows();
    let second = e.rows();
    assert_eq!(first, second);
    assert_eq!(first.len(), 10);
    assert_eq!(first[3][4], 1);
    assert_eq!(first[2][4], 0);
    assert_eq!(e.total_score, e.total_score);
}

#[test]
fn random_board_holds_colours_only() {
    let e = PopStarEngine::new(None);
    assert!(e.board.iter().all(|&v| (0..5).contains(&v)));
    assert_eq!(e.score, 0);
    assert_eq!(e.total_score, 0);
}

#[test]
fn empty_cell_ignores_any_hint() {
    let mut e = PopStarEngine::new(Some(corner_board()));
    let before = e.board;
    assert_eq!(e.eliminate(0, 0, Some(vec![(8, 0), (9, 0)])), 0);
    assert_eq!(e.board, before);
    assert_eq!(e.total_score, 0);
}
