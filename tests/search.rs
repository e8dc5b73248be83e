use popstar::board::{PopStarEngine, BOARD_SIZE, EMPTY};
use popstar::solver::PopStarSolver;
use rand::rngs::StdRng;
use rand::SeedableRng;

fn ucb(parent_visits: u32, stats: Vec<(u32, i64)>) -> usize {
    let log_n = (parent_visits as f64).ln();
    let c = 100.0;
    let score = |s: &(u32, i64)| s.1 as f64 / s.0 as f64 + c * (log_n / s.0 as f64).sqrt();
    let mut best = 0;
    for i in 1..stats.len() {
        if score(&stats[i]) >= score(&stats[best]) {
            best = i;
        }
    }
    best
}

fn checkered() -> Vec<i8> {
    let mut b = vec![EMPTY; BOARD_SIZE];
    for r in 0..10 {
        for c in 0..10 {
            b[r * 10 + c] = ((r + c) % 2) as i8;
        }
    }
    b
}

fn small_board() -> Vec<i8> {
    let mut b = vec![EMPTY; BOARD_SIZE];
    let bottom: [[i8; 4]; 3] = [[1, 2, 2, 3], [1, 1, 2, 3], [3, 1, 2, 2]];
    for (i, row) in bottom.iter().enumerate() {
        for (c, &v) in row.iter().enumerate() {
            b[(7 + i) * 10 + c] = v;
        }
    }
    b
}

fn replay(board: Vec<i8>, path: &[(usize, usize)]) -> PopStarEngine {
    let mut e = PopStarEngine::new(Some(board));
    for &(r, c) in path {
        assert!(e.eliminate(r, c, None) > 0);
    }
    e
}

#[test]
fn zero_iterations_recommend_nothing() {
    let mut s = PopStarSolver::new(PopStarEngine::new(Some(small_board())));
    let mut rng = StdRng::seed_from_u64(1);
    let (m, score, path) = s.solve(0, &mut rng, ucb);
    assert_eq!(m, None);
    assert_eq!(score, 0);
    assert!(path.is_empty());
}

#[test]
fn board_without_moves_recommends_nothing() {
    for &n in &[1usize, 5, 40] {
        let mut s = PopStarSolver::new(PopStarEngine::new(Some(checkered())));
        let mut rng = StdRng::seed_from_u64(3);
        assert_eq!(s.solve(n, &mut rng, ucb), (None, 0, vec![]));
    }
}

#[test]
fn empty_board_recommends_nothing() {
    let mut s = PopStarSolver::new(PopStarEngine::new(Some(vec![EMPTY; BOARD_SIZE])));
    let mut rng = StdRng::seed_from_u64(4);
    assert_eq!(s.solve(10, &mut rng, ucb), (None, 0, vec![]));
}

#[test]
fn best_line_replays_to_its_score() {
    let mut s = PopStarSolver::new(PopStarEngine::new(Some(small_board())));
    let mut rng = StdRng::seed_from_u64(7);
    let (m, score, path) = s.solve(200, &mut rng, ucb);
    assert_eq!(m, Some(path[0]));
    let end = replay(small_board(), &path);
    assert!(!end.has_moves());
    assert_eq!(score, end.total_score + end.calculate_end_bonus());
    assert!(score >= 20);
}

#[test]
fn corner_board_is_solved_in_one_move() {
    let mut b = vec![EMPTY; BOARD_SIZE];
    for &(r, c) in &[(8usize, 0usize), (8, 1), (9, 0), (9, 1)] {
        b[r * 10 + c] = 2;
    }
    let mut s = PopStarSolver::new(PopStarEngine::new(Some(b)));
    let mut rng = StdRng::seed_from_u64(9);
    let (m, score, path) = s.solve(5, &mut rng, ucb);
    assert!(matches!(m, Some((8, 0)) | Some((8, 1)) | Some((9, 0)) | Some((9, 1))));
    assert_eq!(path.len(), 1);
    assert_eq!(score, 80 + 2000);
}

#[test]
fn fixed_seed_gives_the_same_search() {
    let run = || {
        let mut s = PopStarSolver::new(PopStarEngine::new(Some(small_board())));
        let mut rng = StdRng::seed_from_u64(42);
        s.solve(100, &mut rng, ucb)
    };
    assert_eq!(run(), run());
}

#[test]
fn search_leaves_the_callers_engine_alone() {
    let e = PopStarEngine::new(Some(small_board()));
    let mut s = PopStarSolver::new(e.clone());
    let mut rng = StdRng::seed_from_u64(5);
    let _ = s.solve(50, &mut rng, ucb);
    assert_eq!(e.board.to_vec(), small_board());
    assert_eq!(e.total_score, 0);
}

#[test]
fn out_of_range_selection_still_searches() {
    let mut s = PopStarSolver::new(PopStarEngine::new(Some(small_board())));
    let mut rng = StdRng::seed_from_u64(11);
    let (m, score, path) = s.solve(60, &mut rng, |_, _| usize::MAX);
    assert_eq!(m, Some(path[0]));
    let end = replay(small_board(), &path);
    assert_eq!(score, end.total_score + end.calculate_end_bonus());
}
