//! The user-facing problem statement: validated digits and a sparse grid of
//! pinned cells.

use vstd::prelude::*;

use std::collections::BTreeSet;

use crate::board::cell_at;
use crate::board::lemma_cell_coords;
use crate::board::solvable;
use crate::solver::PossibleValuesFinder;
use crate::solver::SolutionIterator;
use crate::solver::admits;
use crate::solver::values_sound;

verus! {

/// Sudoku-shaped array holding a given type.
pub type Grid<T> = [[T; 9]; 9];

/// A valid cell value, i.e. an integer between 1 and 9 inclusive.
#[derive(Clone, Copy, Debug, PartialEq, Eq, Structural)]
pub struct Value {
    digit: u8,
}

impl View for Value {
    type V = int;

    closed spec fn view(&self) -> int {
        self.digit as int
    }
}

impl Value {
    #[verifier::type_invariant]
    pub(crate) closed spec fn inv(self) -> bool {
        1 <= self.digit <= 9
    }

    /// Create a new value.  Out-of-range digits are a construction fault, so
    /// they are ruled out by contract.
    pub fn new(val: u8) -> (r: Self)
        requires
            1 <= val <= 9,
        ensures
            r@ == val,
    {
        Value { digit: val }
    }

    /// The cell value, always between 1 and 9 inclusive.
    pub fn value(&self) -> (r: u8)
        ensures
            r == self@,
            1 <= r <= 9,
    {
        proof {
            use_type_invariant(self);
        }
        self.digit
    }
}

/// A puzzle always views as its 81 cells.
pub broadcast proof fn lemma_puzzle_view_len(p: Puzzle)
    ensures
        (#[trigger] p@).len() == 81,
{
}

/// Two values showing the same digit are the same value.
pub proof fn lemma_value_eq(a: Value, b: Value)
    requires
        a@ == b@,
    ensures
        a == b,
{
}

/// A sudoku puzzle: a sparse 9x9 grid of pinned values.  It does not have to
/// be well-posed; it may admit zero, one or many solutions.
///
/// The view is the flat row-major sequence of its 81 cells.
#[derive(Clone, Copy)]
pub struct Puzzle {
    cells: [Option<Value>; 81],
}

impl View for Puzzle {
    type V = Seq<Option<Value>>;

    closed spec fn view(&self) -> Seq<Option<Value>> {
        self.cells@
    }
}

impl Puzzle {
    /// An empty puzzle: no cell is constrained.
    pub fn new() -> (r: Self)
        ensures
            r@.len() == 81,
            forall|i: int| 0 <= i < 81 ==> r@[i] is None,
    {
        Puzzle { cells: [None;81] }
    }

    /// Build a puzzle from an array of digits; zeros are unconstrained cells.
    /// Digits above 9 are a construction fault, ruled out by contract.
    pub fn from_arr(arr: Grid<u8>) -> (r: Self)
        requires
            forall|row: int, col: int|
                0 <= row < 9 && 0 <= col < 9 ==> #[trigger] arr@[row]@[col] <= 9,
        ensures
            r@.len() == 81,
            forall|row: int, col: int|
                0 <= row < 9 && 0 <= col < 9 ==> match r@[#[trigger] cell_at(row, col)] {
                    None => arr@[row]@[col] == 0,
                    Some(v) => v@ == arr@[row]@[col],
                },
    {
        let mut cells: [Option<Value>; 81] = [None;81];
        let mut row: usize = 0;
        while row < 9
            invariant
                row <= 9,
                forall|r2: int, c2: int|
                    0 <= r2 < row as int && 0 <= c2 < 9 ==> match cells@[#[trigger] cell_at(
                        r2,
                        c2,
                    )] {
                        None => arr@[r2]@[c2] == 0,
                        Some(v) => v@ == arr@[r2]@[c2],
                    },
                forall|row2: int, col2: int|
                    0 <= row2 < 9 && 0 <= col2 < 9 ==> #[trigger] arr@[row2]@[col2] <= 9,
            decreases 9 - row,
        {
            let mut col: usize = 0;
            while col < 9
                invariant
                    row < 9,
                    col <= 9,
                    forall|r2: int, c2: int|
                        0 <= r2 < row as int && 0 <= c2 < 9 ==> match cells@[#[trigger] cell_at(
                            r2,
                            c2,
                        )] {
                            None => arr@[r2]@[c2] == 0,
                            Some(v) => v@ == arr@[r2]@[c2],
                        },
                    forall|c2: int|
                        0 <= c2 < col as int ==> match cells@[#[trigger] cell_at(
                            row as int,
                            c2,
                        )] {
                            None => arr@[row as int]@[c2] == 0,
                            Some(v) => v@ == arr@[row as int]@[c2],
                        },
                    forall|row2: int, col2: int|
                        0 <= row2 < 9 && 0 <= col2 < 9 ==> #[trigger] arr@[row2]@[col2] <= 9,
                decreases 9 - col,
            {
                let x = arr[row][col];
                proof {
                    lemma_cell_coords(row as int, col as int);
                }
                if x != 0 {
                    cells[row * 9 + col] = Some(Value::new(x));
                } else {
                    cells[row * 9 + col] = None;
                }
                proof {
                    assert forall|r2: int, c2: int|
                        0 <= r2 < 9 && 0 <= c2 < 9 && cell_at(r2, c2) != cell_at(
                            row as int,
                            col as int,
                        ) implies cell_at(r2, c2) != row as int * 9 + col as int by {
                        lemma_cell_coords(r2, c2);
                    }
                }
                col = col + 1;
            }
            row = row + 1;
        }
        Puzzle { cells }
    }

    /// The pinned value at a given position, if any.  Positions are 0-indexed.
    pub fn get(&self, row: usize, col: usize) -> (r: Option<Value>)
        requires
            row < 9,
            col < 9,
        ensures
            r == self@[cell_at(row as int, col as int)],
    {
        proof {
            lemma_cell_coords(row as int, col as int);
        }
        self.cells[row * 9 + col]
    }

    /// Pin the value at a given position.  Positions are 0-indexed.
    pub fn pin(&mut self, row: usize, col: usize, val: Value)
        requires
            row < 9,
            col < 9,
        ensures
            final(self)@ == old(self)@.update(cell_at(row as int, col as int), Some(val)),
    {
        proof {
            lemma_cell_coords(row as int, col as int);
        }
        self.cells[row * 9 + col] = Some(val);
    }

    /// Unpin the value at a given position.  Positions are 0-indexed.
    pub fn unpin(&mut self, row: usize, col: usize)
        requires
            row < 9,
            col < 9,
        ensures
            final(self)@ == old(self)@.update(cell_at(row as int, col as int), None),
    {
        proof {
            lemma_cell_coords(row as int, col as int);
        }
        self.cells[row * 9 + col] = None;
    }

    /// Create an iterator through all the solutions of the puzzle, in the
    /// deterministic depth-first order of the search.  It starts with an
    /// empty yield history and full coverage: nothing has been lost yet.
    pub fn solutions(&self) -> (r: SolutionIterator)
        ensures
            r.origin() == self@,
            r.history() == Seq::<Seq<int>>::empty(),
            !r.cancelled(),
            r.exhaustive(),
            r.is_exhausted() ==> !solvable(self@),
    {
        SolutionIterator::new(self)
    }

    /// Compute, for every cell, the set of values that lead to a solvable
    /// grid.  Every recorded digit is witnessed by an actual solution, so
    /// the result is all-empty for an unsolvable puzzle and a pinned cell is
    /// only ever confirmed with its own value; and any nonempty result is
    /// complete: it holds every digit that still admits a solution.
    pub fn possible_values(&self) -> (r: Vec<Vec<BTreeSet<u8>>>)
        ensures
            r@.len() == 9,
            forall|i: int| 0 <= i < 9 ==> #[trigger] r@[i]@.len() == 9,
            values_sound(r@, self@),
            !solvable(self@) ==> forall|row: int, col: int, d: u8|
                0 <= row < 9 && 0 <= col < 9 ==> !(#[trigger] r@[row]@[col]@.contains(d)),
            forall|row: int, col: int, d: u8|
                0 <= row < 9 && 0 <= col < 9 && #[trigger] r@[row]@[col]@.contains(d)
                    && self@[cell_at(row, col)] is Some ==> d as int == self@[cell_at(row, col)]->0@,
            (exists|r0: int, c0: int, d0: u8|
                0 <= r0 < 9 && 0 <= c0 < 9 && #[trigger] r@[r0]@[c0]@.contains(d0)) ==> forall|
                row: int,
                col: int,
                d: u8,
            |
                0 <= row < 9 && 0 <= col < 9 && admits(self@, cell_at(row, col), d as int)
                    ==> #[trigger] r@[row]@[col]@.contains(d),
    {
        PossibleValuesFinder::new().search(self)
    }
}

impl Default for Puzzle {
    /// Same as [`Puzzle::new`]: the fully unconstrained puzzle.
    fn default() -> (r: Self)
        ensures
            r@.len() == 81,
            forall|i: int| 0 <= i < 81 ==> r@[i] is None,
    {
        Puzzle::new()
    }
}

} // verus!
