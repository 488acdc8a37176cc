use std::sync::Arc;
use std::sync::atomic::AtomicBool;
use std::sync::atomic::Ordering;

use sudoku_solver::CounterUpTo;
use sudoku_solver::PossibleValuesFinder;
use sudoku_solver::Puzzle;
use sudoku_solver::SolutionIterator;
use sudoku_solver::Value;
use sudoku_solver::count_saturated;

fn is_valid_solution(g: &[[u8; 9]; 9]) -> bool {
    for unit in 0..9 {
        let mut row_seen = [false; 10];
        let mut col_seen = [false; 10];
        let mut blk_seen = [false; 10];
        for k in 0..9 {
            let rv = g[unit][k] as usize;
            let cv = g[k][unit] as usize;
            let bv = g[(unit / 3) * 3 + k / 3][(unit % 3) * 3 + k % 3] as usize;
            if rv < 1 || rv > 9 || row_seen[rv] || col_seen[cv] || blk_seen[bv] {
                return false;
            }
            row_seen[rv] = true;
            col_seen[cv] = true;
            blk_seen[bv] = true;
        }
    }
    true
}

const TRIPLE: [[u8; 9]; 9] = [
    [3, 0, 9, 6, 0, 0, 4, 0, 0],
    [0, 0, 0, 7, 0, 9, 0, 0, 0],
    [0, 8, 7, 0, 0, 0, 0, 0, 0],
    [7, 5, 0, 0, 6, 0, 2, 3, 0],
    [6, 0, 0, 9, 0, 4, 0, 0, 8],
    [0, 2, 8, 0, 5, 0, 0, 4, 1],
    [0, 0, 0, 0, 0, 0, 5, 9, 0],
    [0, 0, 0, 1, 9, 6, 0, 0, 7],
    [0, 0, 6, 0, 0, 0, 1, 0, 4],
];

#[test]
fn solutions_are_valid_and_honour_pins() {
    let p = Puzzle::from_arr(TRIPLE);
    let mut sols = p.solutions();
    let mut seen: usize = 0;
    while let Some(sol) = sols.next() {
        assert!(is_valid_solution(&sol));
        for row in 0..9 {
            for col in 0..9 {
                if TRIPLE[row][col] != 0 {
                    assert_eq!(sol[row][col], TRIPLE[row][col]);
                }
            }
        }
        seen += 1;
    }
    assert_eq!(seen, 3);
}

#[test]
fn solution_sequences_are_deterministic() {
    let p = Puzzle::default();
    let mut first = p.solutions();
    let mut second = p.solutions();
    for _ in 0..50 {
        assert_eq!(first.next(), second.next());
    }
    let t = Puzzle::from_arr(TRIPLE);
    let mut a = t.solutions();
    let mut b = t.solutions();
    loop {
        let x = a.next();
        let y = b.next();
        assert_eq!(x, y);
        if x.is_none() {
            break;
        }
    }
}

#[test]
fn empty_puzzle_solutions_are_distinct() {
    let p = Puzzle::default();
    let mut sols = p.solutions();
    let mut seen: Vec<[[u8; 9]; 9]> = Vec::new();
    for _ in 0..25 {
        let sol = sols.next().unwrap();
        assert!(!seen.contains(&sol));
        seen.push(sol);
    }
}

#[test]
fn possible_values_unsolvable_all_empty() {
    let mut p = Puzzle::default();
    p.pin(0, 0, Value::new(1));
    p.pin(0, 1, Value::new(1));
    let pvs = p.possible_values();
    assert_eq!(pvs.len(), 9);
    for row in pvs.iter() {
        assert_eq!(row.len(), 9);
        for set in row.iter() {
            assert!(set.is_empty());
        }
    }
}

#[test]
fn possible_values_unique_puzzle_pinned_cells() {
    // The unique solution of the single-solution puzzle, with three cells
    // blanked out: still uniquely solvable, and quick to probe.
    let mut arr: [[u8; 9]; 9] = [
        [3, 5, 9, 4, 1, 2, 8, 7, 6],
        [8, 4, 6, 7, 3, 9, 5, 2, 1],
        [1, 7, 2, 5, 8, 6, 4, 9, 3],
        [9, 8, 5, 2, 6, 7, 1, 3, 4],
        [4, 2, 1, 8, 5, 3, 9, 6, 7],
        [7, 6, 3, 9, 4, 1, 2, 8, 5],
        [6, 9, 8, 1, 7, 4, 3, 5, 2],
        [5, 1, 7, 3, 2, 8, 6, 4, 9],
        [2, 3, 4, 6, 9, 5, 7, 1, 8],
    ];
    arr[0][0] = 0;
    arr[4][4] = 0;
    arr[8][8] = 0;
    let p = Puzzle::from_arr(arr);
    let pvs = p.possible_values();
    for row in 0..9 {
        for col in 0..9 {
            if arr[row][col] != 0 {
                assert_eq!(pvs[row][col].len(), 1);
                assert!(pvs[row][col].contains(&arr[row][col]));
            } else {
                // the blanked cells admit exactly their original digit too,
                // since the puzzle is still uniquely solvable
                assert_eq!(pvs[row][col].len(), 1);
            }
        }
    }
}

#[test]
fn possible_values_two_solution_puzzle_exact() {
    // this puzzle has exactly two solutions, differing in four cells
    let p = Puzzle::from_arr([
        [0, 0, 3, 4, 5, 6, 7, 8, 9],
        [4, 5, 6, 7, 8, 9, 1, 2, 3],
        [7, 8, 9, 1, 2, 3, 4, 5, 6],
        [0, 0, 4, 8, 3, 5, 9, 6, 7],
        [8, 3, 5, 6, 9, 7, 2, 1, 4],
        [6, 9, 7, 2, 1, 4, 5, 3, 8],
        [3, 4, 2, 5, 7, 8, 6, 9, 1],
        [5, 6, 8, 9, 4, 1, 3, 7, 2],
        [9, 7, 1, 3, 6, 2, 8, 4, 5],
    ]);
    let sol1 = [
        [1, 2, 3, 4, 5, 6, 7, 8, 9],
        [4, 5, 6, 7, 8, 9, 1, 2, 3],
        [7, 8, 9, 1, 2, 3, 4, 5, 6],
        [2, 1, 4, 8, 3, 5, 9, 6, 7],
        [8, 3, 5, 6, 9, 7, 2, 1, 4],
        [6, 9, 7, 2, 1, 4, 5, 3, 8],
        [3, 4, 2, 5, 7, 8, 6, 9, 1],
        [5, 6, 8, 9, 4, 1, 3, 7, 2],
        [9, 7, 1, 3, 6, 2, 8, 4, 5],
    ];
    let sol2 = [
        [2, 1, 3, 4, 5, 6, 7, 8, 9],
        [4, 5, 6, 7, 8, 9, 1, 2, 3],
        [7, 8, 9, 1, 2, 3, 4, 5, 6],
        [1, 2, 4, 8, 3, 5, 9, 6, 7],
        [8, 3, 5, 6, 9, 7, 2, 1, 4],
        [6, 9, 7, 2, 1, 4, 5, 3, 8],
        [3, 4, 2, 5, 7, 8, 6, 9, 1],
        [5, 6, 8, 9, 4, 1, 3, 7, 2],
        [9, 7, 1, 3, 6, 2, 8, 4, 5],
    ];
    let pvs = p.possible_values();
    for row in 0..9 {
        for col in 0..9 {
            // each cell admits exactly the digits of the two solutions
            let mut expected = vec![sol1[row][col]];
            if sol2[row][col] != sol1[row][col] {
                expected.push(sol2[row][col]);
            }
            expected.sort();
            let got: Vec<u8> = pvs[row][col].iter().copied().collect();
            assert_eq!(got, expected);
        }
    }
}

#[test]
fn cancellation_stops_the_sequence() {
    let flag = Arc::new(AtomicBool::new(true));
    let p = Puzzle::default();
    let mut sols = p.solutions().with_handle(flag.clone());
    assert!(sols.next().is_some());
    flag.store(false, Ordering::Relaxed);
    assert!(sols.next().is_none());
    // once ended, the sequence stays ended, even if the flag is restored
    flag.store(true, Ordering::Relaxed);
    assert!(sols.next().is_none());
}

#[test]
fn cancellation_empties_possible_values() {
    let flag = Arc::new(AtomicBool::new(false));
    let finder = PossibleValuesFinder::with_handle(flag);
    let pvs = finder.search(&Puzzle::default());
    for row in pvs.iter() {
        for set in row.iter() {
            assert!(set.is_empty());
        }
    }
}

#[test]
fn cloned_iterator_continues_independently() {
    let p = Puzzle::from_arr(TRIPLE);
    let mut a = p.solutions();
    let first = a.next().unwrap();
    let mut b = a.clone();
    // both continuations see the same remaining sequence
    let a2 = a.next().unwrap();
    let b2 = b.next().unwrap();
    assert_eq!(a2, b2);
    assert!(a2 != first);
}

#[test]
fn cloned_iterator_shares_the_flag() {
    let flag = Arc::new(AtomicBool::new(true));
    let p = Puzzle::default();
    let a = p.solutions().with_handle(flag.clone());
    let mut b = a.clone();
    assert!(b.next().is_some());
    // clearing the original flag must also stop the cloned iterator
    flag.store(false, Ordering::Relaxed);
    assert!(b.next().is_none());
}

#[test]
fn count_saturated_reports_exact_and_truncated_counts() {
    let p = Puzzle::from_arr(TRIPLE);
    let mut sols = p.solutions();
    assert!(matches!(count_saturated(&mut sols, 10), CounterUpTo::Exactly(3)));
    let mut sols2 = p.solutions();
    assert!(matches!(count_saturated(&mut sols2, 2), CounterUpTo::MoreThan(2)));
    let mut sols3 = p.solutions();
    assert!(matches!(count_saturated(&mut sols3, 3), CounterUpTo::Exactly(3)));
}
