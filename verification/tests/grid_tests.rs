use sudoku_solver::Puzzle;
use sudoku_solver::SolutionGrid;
use sudoku_solver::Value;

const SOLVED: [[u8; 9]; 9] = [
    [1, 2, 3, 4, 5, 6, 7, 8, 9],
    [4, 5, 6, 7, 8, 9, 1, 2, 3],
    [7, 8, 9, 1, 2, 3, 4, 5, 6],
    [2, 3, 1, 6, 7, 4, 8, 9, 5],
    [8, 7, 5, 9, 1, 2, 3, 6, 4],
    [6, 9, 4, 5, 3, 8, 2, 1, 7],
    [3, 1, 7, 2, 6, 5, 9, 4, 8],
    [5, 4, 2, 8, 9, 7, 6, 3, 1],
    [9, 6, 8, 3, 4, 1, 5, 7, 2],
];

#[test]
fn seed_grid_detects_direct_conflict() {
    let mut p = Puzzle::default();
    p.pin(0, 0, Value::new(1));
    p.pin(0, 1, Value::new(1));
    assert!(SolutionGrid::from_puzzle(&p).is_err());
}

#[test]
fn grid_pin_rejects_conflicts() {
    let mut g = SolutionGrid::default();
    assert!(g.pin(0, 0, Value::new(5)).is_ok());
    // pinning the same cell again to the same value is fine
    assert!(g.pin(0, 0, Value::new(5)).is_ok());
    // same value in the same row, column or block is a contradiction
    let mut row_conflict = g;
    assert!(row_conflict.pin(0, 7, Value::new(5)).is_err());
    let mut col_conflict = g;
    assert!(col_conflict.pin(6, 0, Value::new(5)).is_err());
    let mut blk_conflict = g;
    assert!(blk_conflict.pin(1, 1, Value::new(5)).is_err());
    // a different value somewhere else is fine
    let mut ok = g;
    assert!(ok.pin(0, 7, Value::new(4)).is_ok());
    // repinning an already pinned cell to another value is a contradiction
    let mut repin = g;
    assert!(repin.pin(0, 0, Value::new(6)).is_err());
}

#[test]
fn grid_forbid_fails_on_last_candidate() {
    let mut g = SolutionGrid::default();
    for d in 1..9 {
        assert!(g.forbid(4, 4, Value::new(d)).is_ok());
    }
    assert!(g.forbid(4, 4, Value::new(9)).is_err());
}

#[test]
fn propagation_completes_a_naked_single() {
    let mut g = SolutionGrid::default();
    for i in 0..8 {
        assert!(g.pin(0, i, Value::new((i + 1) as u8)).is_ok());
    }
    assert!(g.maximize_constraints().is_ok());
    // the last cell of the row had a single candidate left and must now be
    // pinned to 9
    let pv = g.possible_values(0, 8);
    assert_eq!(pv.len(), 1);
    assert_eq!(pv[0].value(), 9);
}

#[test]
fn branching_picks_first_least_constrained_cell() {
    let g = SolutionGrid::default();
    assert!(!g.is_solved());
    let (row, col, sc) = g.find_least_sols_fuzzy().unwrap();
    assert_eq!((row, col), (0, 0));
    assert_eq!(sc.num_solutions(), 9);
}

#[test]
fn solved_grid_converts_back() {
    let p = Puzzle::from_arr(SOLVED);
    let g = match SolutionGrid::from_puzzle(&p) {
        Ok(g) => g,
        Err(_) => panic!("a full valid grid must seed"),
    };
    assert!(g.is_solved());
    assert!(g.find_least_sols_fuzzy().is_none());
    let out = g.into_grid().unwrap();
    assert_eq!(out, SOLVED);
}

#[test]
fn unsolved_grid_does_not_convert() {
    let g = SolutionGrid::default();
    assert!(g.into_grid().is_none());
}
