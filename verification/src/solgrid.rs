//! The propagating grid state: one node of the backtracking search tree, a
//! partial assignment plus the domain reductions it forces.

use vstd::prelude::*;

use crate::board::block_of;
use crate::board::cell_at;
use crate::board::col_of;
use crate::board::agrees;
use crate::board::board_of;
use crate::board::is_solution;
use crate::board::lemma_cell_coords;
use crate::board::lemma_cell_decompose;
use crate::board::lemma_same_block;
use crate::board::peers;
use crate::board::row_of;
use crate::board::solvable;
use crate::puzzle::Grid;
use crate::puzzle::Puzzle;
use crate::puzzle::Value;
use crate::soft::SoftConstraint;

verus! {

/// Returned by operations that detect the grid admits no solution.
pub struct NoSolError {}

/// Result of an operation susceptible to detect the puzzle has no solution.
pub type SolResult<T> = Result<T, NoSolError>;

/// One cell's knowledge at a point in the search.
#[derive(Clone, Copy)]
enum CellState {
    /// A cell with a known value.
    Pinned(Value),
    /// A cell that still has several possible values.
    Fuzzy(SoftConstraint),
}

impl CellState {
    /// Whether digit `d` is still possible in this cell.
    spec fn chas(self, d: int) -> bool {
        match self {
            CellState::Pinned(v) => v@ == d,
            CellState::Fuzzy(sc) => sc.has(d),
        }
    }

    /// Whether the cell has a fixed value.
    fn is_fixed(&self) -> (r: bool)
        ensures
            r == (self is Pinned),
    {
        match self {
            CellState::Pinned(_) => true,
            CellState::Fuzzy(_) => false,
        }
    }

    /// Extract the value of a pinned cell.
    fn fixed_val(&self) -> (r: Option<Value>)
        ensures
            match r {
                Some(v) => *self == CellState::Pinned(v),
                None => self is Fuzzy,
            },
    {
        match self {
            CellState::Pinned(v) => Some(*v),
            CellState::Fuzzy(_) => None,
        }
    }

    /// Extract the domain of a fuzzy cell.
    fn fuzzy_constraint(&self) -> (r: Option<SoftConstraint>)
        ensures
            match r {
                Some(sc) => *self == CellState::Fuzzy(sc),
                None => self is Pinned,
            },
    {
        match self {
            CellState::Pinned(_) => None,
            CellState::Fuzzy(sc) => Some(*sc),
        }
    }

    /// Fix the cell to `val`.  Fails iff `val` is not possible here; on
    /// failure the cell is left unchanged.
    fn pin(&mut self, val: Value) -> (r: SolResult<()>)
        ensures
            (r is Ok) == old(self).chas(val@),
            r is Ok ==> *final(self) == CellState::Pinned(val),
            r is Err ==> *final(self) == *old(self),
    {
        match *self {
            CellState::Pinned(v) => {
                proof {
                    if v@ == val@ {
                        crate::puzzle::lemma_value_eq(v, val);
                    }
                }
                if v == val {
                    Ok(())
                } else {
                    Err(NoSolError {  })
                }
            },
            CellState::Fuzzy(sc) => {
                if sc.has_solution(val) {
                    *self = CellState::Pinned(val);
                    Ok(())
                } else {
                    Err(NoSolError {  })
                }
            },
        }
    }

    /// Remove `val` from the possible digits.  Fails iff no other digit
    /// remains possible; on success only `val` is removed.
    fn forbid(&mut self, val: Value) -> (r: SolResult<()>)
        ensures
            (r is Ok) == exists|d: int| d != val@ && old(self).chas(d),
            r is Ok ==> forall|d: int|
                final(self).chas(d) == (old(self).chas(d) && d != val@),
            r is Ok ==> ((*final(self)) is Pinned) == ((*old(self)) is Pinned),
            r is Ok && (*old(self)) is Pinned ==> *final(self) == *old(self),
    {
        match *self {
            CellState::Pinned(v) => {
                if v.value() != val.value() {
                    proof {
                        assert(v@ != val@ && old(self).chas(v@));
                    }
                    Ok(())
                } else {
                    Err(NoSolError {  })
                }
            },
            CellState::Fuzzy(mut sc) => {
                sc.forbid(val);
                let ok = sc.has_solutions();
                proof {
                    if exists|d: int| d != val@ && old(self).chas(d) {
                        let d = choose|d: int| d != val@ && old(self).chas(d);
                        assert(sc.has(d));
                    }
                    if exists|d: int| sc.has(d) {
                        let d = choose|d: int| sc.has(d);
                        assert(d != val@ && old(self).chas(d));
                    }
                }
                *self = CellState::Fuzzy(sc);
                if ok {
                    Ok(())
                } else {
                    Err(NoSolError {  })
                }
            },
        }
    }

    /// Every possible digit of the cell, ascending.
    fn all_values(&self) -> (r: Vec<Value>)
        ensures
            forall|k: int| 0 <= k < r@.len() ==> self.chas(#[trigger] r@[k]@),
            forall|d: int| self.chas(d) ==> exists|k: int| 0 <= k < r@.len() && r@[k]@ == d,
            forall|k1: int, k2: int| 0 <= k1 < k2 < r@.len() ==> r@[k1]@ < r@[k2]@,
    {
        match self {
            CellState::Pinned(v) => {
                let mut out: Vec<Value> = Vec::new();
                out.push(*v);
                proof {
                    assert(out@[0] == *v);
                    assert forall|d: int| self.chas(d) implies exists|k: int|
                        0 <= k < out@.len() && out@[k]@ == d by {
                        assert(out@[0]@ == d);
                    }
                }
                out
            },
            CellState::Fuzzy(sc) => sc.all_values(),
        }
    }

    /// A cell about which nothing is known.
    fn open() -> (r: Self)
        ensures
            forall|d: int| r.chas(d) == (1 <= d <= 9),
            r is Fuzzy,
    {
        CellState::Fuzzy(SoftConstraint::default())
    }
}

/// A search node: 81 cell states, row-major.
#[derive(Clone, Copy)]
pub struct SolutionGrid {
    cells: [CellState; 81],
}

impl SolutionGrid {
    /// The state of cell `i`.
    spec fn cell(self, i: int) -> CellState {
        self.cells@[i]
    }

    /// Whether digit `d` is still possible in cell `i`.
    pub closed spec fn chas(self, i: int, d: int) -> bool {
        self.cell(i).chas(d)
    }

    /// Whether cell `i` is pinned.
    pub closed spec fn pinned(self, i: int) -> bool {
        self.cell(i) is Pinned
    }

    /// The digit of cell `i` if pinned, 0 otherwise.
    pub closed spec fn digit_at(self, i: int) -> int {
        match self.cell(i) {
            CellState::Pinned(v) => v@,
            CellState::Fuzzy(_) => 0,
        }
    }

    /// How many digits are still possible in fuzzy cell `i` (0 for a pinned
    /// cell).
    pub closed spec fn fuzzy_cands(self, i: int) -> nat {
        match self.cell(i) {
            CellState::Pinned(_) => 0,
            CellState::Fuzzy(sc) => sc.ncands(),
        }
    }

    /// The board of pinned digits (0 where still fuzzy).
    pub open spec fn board(self) -> Seq<int> {
        Seq::new(81, |i: int| self.digit_at(i))
    }

    /// Whether the grid honours every pinned cell of a puzzle.
    pub open spec fn refines(self, p: Seq<Option<Value>>) -> bool {
        forall|i: int|
            0 <= i < 81 ==> (#[trigger] p[i] matches Some(v) ==> self.pinned(i) && self.digit_at(
                i,
            ) == v@)
    }

    /// Validity of one cell: a pinned digit is in range, a fuzzy domain is
    /// nonempty.
    spec fn cell_ok(self, i: int) -> bool {
        match self.cell(i) {
            CellState::Pinned(v) => 1 <= v@ <= 9,
            CellState::Fuzzy(sc) => exists|d: int| sc.has(d),
        }
    }

    /// Well-formedness of a search node: every cell is valid, and every
    /// pinned digit has been propagated, i.e. is no longer possible in any
    /// peer cell.  Contradictory grids (a failed `pin`) are never
    /// well-formed and must be discarded.
    pub closed spec fn wf(self) -> bool {
        &&& forall|i: int| 0 <= i < 81 ==> self.cell_ok(i)
        &&& forall|i: int, j: int|
            0 <= i < 81 && 0 <= j < 81 && #[trigger] peers(i, j) && self.pinned(i)
                ==> !self.chas(j, self.digit_at(i))
    }
}

impl SolutionGrid {
    /// Search effort left in one cell: the size of a fuzzy domain, 0 once
    /// the cell is pinned.
    spec fn score_at(self, i: int) -> nat {
        match self.cell(i) {
            CellState::Pinned(_) => 0,
            CellState::Fuzzy(sc) => sc.ncands(),
        }
    }

    /// Sum of the cell scores from cell `c` up.
    spec fn score_from(self, c: int) -> nat
        decreases 81 - c,
    {
        if c >= 81 {
            0
        } else {
            self.score_at(c) + self.score_from(c + 1)
        }
    }

    /// Total search effort left in the grid.  Every branching step of the
    /// search strictly shrinks it, which bounds the depth-first exploration.
    pub closed spec fn score(self) -> nat {
        self.score_from(0)
    }
}

/// Cell `c` of a pointwise-narrower grid scores no higher.
proof fn lemma_score_at_le(g1: SolutionGrid, g2: SolutionGrid, c: int)
    requires
        0 <= c < 81,
        forall|i: int| 0 <= i < 81 && g1.pinned(i) ==> g2.pinned(i),
        forall|i: int, d: int| 0 <= i < 81 && #[trigger] g2.chas(i, d) ==> g1.chas(i, d),
    ensures
        g2.score_at(c) <= g1.score_at(c),
{
    if !g2.pinned(c) {
        assert(!g1.pinned(c));
        let sc1 = g1.cell(c)->Fuzzy_0;
        let sc2 = g2.cell(c)->Fuzzy_0;
        assert forall|d: int| sc2.has(d) implies sc1.has(d) by {
            assert(g2.chas(c, d));
            assert(g1.chas(c, d));
        }
        crate::soft::lemma_count_subset(sc1, sc2, 1);
    }
}

/// A pointwise-narrower grid scores no higher.
proof fn lemma_score_from_le(g1: SolutionGrid, g2: SolutionGrid, c: int)
    requires
        0 <= c,
        forall|i: int| 0 <= i < 81 && g1.pinned(i) ==> g2.pinned(i),
        forall|i: int, d: int| 0 <= i < 81 && #[trigger] g2.chas(i, d) ==> g1.chas(i, d),
    ensures
        g2.score_from(c) <= g1.score_from(c),
    decreases 81 - c,
{
    if c < 81 {
        lemma_score_at_le(g1, g2, c);
        lemma_score_from_le(g1, g2, c + 1);
    }
}

/// A pointwise-narrower grid that scores strictly less at one cell scores
/// strictly less in total.
proof fn lemma_score_from_lt(g1: SolutionGrid, g2: SolutionGrid, c: int, i0: int)
    requires
        0 <= c <= i0 < 81,
        forall|i: int| 0 <= i < 81 && g1.pinned(i) ==> g2.pinned(i),
        forall|i: int, d: int| 0 <= i < 81 && #[trigger] g2.chas(i, d) ==> g1.chas(i, d),
        g2.score_at(i0) < g1.score_at(i0),
    ensures
        g2.score_from(c) < g1.score_from(c),
    decreases 81 - c,
{
    if c == i0 {
        lemma_score_from_le(g1, g2, c + 1);
    } else {
        lemma_score_at_le(g1, g2, c);
        lemma_score_from_lt(g1, g2, c + 1, i0);
    }
}

/// A grid narrowed by a propagation step (domains only shrink, pinned cells
/// stay pinned) scores no higher than before.
pub proof fn lemma_score_le(g1: SolutionGrid, g2: SolutionGrid)
    requires
        forall|i: int| 0 <= i < 81 && g1.pinned(i) ==> g2.pinned(i),
        forall|i: int, d: int| 0 <= i < 81 && #[trigger] g2.chas(i, d) ==> g1.chas(i, d),
    ensures
        g2.score() <= g1.score(),
{
    lemma_score_from_le(g1, g2, 0);
}

/// The whole grid scores at least as much as any single cell.
proof fn lemma_score_from_lower(g: SolutionGrid, c: int, i: int)
    requires
        0 <= c <= i < 81,
    ensures
        g.score_from(c) >= g.score_at(i),
    decreases 81 - c,
{
    if c < i {
        lemma_score_from_lower(g, c + 1, i);
    }
}

/// The score is at least the candidate count of any fuzzy cell.
pub proof fn lemma_score_fuzzy_lower(g: SolutionGrid, i: int)
    requires
        0 <= i < 81,
    ensures
        g.score() >= g.fuzzy_cands(i),
{
    lemma_score_from_lower(g, 0, i);
}

/// Pinning a fuzzy cell that still admitted some digit strictly shrinks the
/// score.
pub proof fn lemma_score_lt_pinned(g1: SolutionGrid, g2: SolutionGrid, i0: int)
    requires
        0 <= i0 < 81,
        forall|i: int| 0 <= i < 81 && g1.pinned(i) ==> g2.pinned(i),
        forall|i: int, d: int| 0 <= i < 81 && #[trigger] g2.chas(i, d) ==> g1.chas(i, d),
        !g1.pinned(i0),
        g2.pinned(i0),
        exists|d: int| g1.chas(i0, d),
    ensures
        g2.score() < g1.score(),
{
    let d = choose|d: int| g1.chas(i0, d);
    crate::soft::lemma_has_nonzero_count(g1.cell(i0)->Fuzzy_0, d);
    lemma_score_from_lt(g1, g2, 0, i0);
}

/// Removing a still-viable digit from a fuzzy cell strictly shrinks the
/// score.
pub proof fn lemma_score_lt_forbidden(g1: SolutionGrid, g2: SolutionGrid, i0: int, dd: int)
    requires
        0 <= i0 < 81,
        forall|i: int| 0 <= i < 81 && g1.pinned(i) ==> g2.pinned(i),
        forall|i: int, d: int| 0 <= i < 81 && #[trigger] g2.chas(i, d) ==> g1.chas(i, d),
        !g1.pinned(i0),
        g1.chas(i0, dd),
        !g2.chas(i0, dd),
    ensures
        g2.score() < g1.score(),
{
    crate::soft::lemma_has_nonzero_count(g1.cell(i0)->Fuzzy_0, dd);
    crate::soft::lemma_has_range(g1.cell(i0)->Fuzzy_0, dd);
    if g2.pinned(i0) {
        assert(g2.score_at(i0) < g1.score_at(i0));
    } else {
        let sc1 = g1.cell(i0)->Fuzzy_0;
        let sc2 = g2.cell(i0)->Fuzzy_0;
        assert forall|d: int| sc2.has(d) implies sc1.has(d) by {
            assert(g2.chas(i0, d));
            assert(g1.chas(i0, d));
        }
        crate::soft::lemma_count_subset_strict(sc1, sc2, 1, dd);
    }
    lemma_score_from_lt(g1, g2, 0, i0);
}

/// Cell `i` looks the same in both grids: same pinned state, same pinned
/// digit, same possible digits.
pub open spec fn same_cell(g1: SolutionGrid, g2: SolutionGrid, i: int) -> bool {
    &&& g1.pinned(i) == g2.pinned(i)
    &&& g1.digit_at(i) == g2.digit_at(i)
    &&& forall|d: int| g1.chas(i, d) == g2.chas(i, d)
}

/// A full assignment `s` is still reachable from search node `g`: every
/// assigned digit is possible in its cell.
pub open spec fn consistent(s: Seq<int>, g: SolutionGrid) -> bool {
    forall|i: int| 0 <= i < 81 ==> g.chas(i, #[trigger] s[i])
}

impl SolutionGrid {
    /// A fuzzy cell with some possible digit is a valid cell.
    proof fn lemma_fuzzy_cell_ok(self, a: int, d: int)
        requires
            0 <= a < 81,
            !self.pinned(a),
            self.chas(a, d),
        ensures
            self.cell_ok(a),
    {
    }

    /// A valid fuzzy cell has some possible digit.
    proof fn lemma_fuzzy_cell_witness(self, a: int)
        requires
            0 <= a < 81,
            self.cell_ok(a),
            !self.pinned(a),
        ensures
            exists|d: int| self.chas(a, d),
    {
        let sc = self.cell(a)->Fuzzy_0;
        let d = choose|d: int| sc.has(d);
        assert(self.chas(a, d));
    }

    /// A pinned cell with an in-range digit is a valid cell.
    proof fn lemma_pinned_cell_ok(self, a: int)
        requires
            0 <= a < 81,
            self.pinned(a),
            1 <= self.digit_at(a) <= 9,
        ensures
            self.cell_ok(a),
    {
    }

    /// In a pinned cell, exactly the pinned digit remains possible.
    pub proof fn lemma_pinned_chas(self, i: int)
        requires
            0 <= i < 81,
            self.pinned(i),
        ensures
            forall|d: int| self.chas(i, d) <==> d == self.digit_at(i),
    {
    }

    /// A valid pinned cell has an in-range digit.
    proof fn lemma_pinned_cell_digit(self, a: int)
        requires
            0 <= a < 81,
            self.cell_ok(a),
            self.pinned(a),
        ensures
            1 <= self.digit_at(a) <= 9,
    {
    }
}

/// A digit that is still possible in a valid cell lies in 1..=9.
proof fn lemma_chas_range(g: SolutionGrid, i: int, d: int)
    requires
        0 <= i < 81,
        g.cell_ok(i),
        g.chas(i, d),
    ensures
        1 <= d <= 9,
{
    if !g.pinned(i) {
        crate::soft::lemma_has_range(g.cell(i)->Fuzzy_0, d);
    }
}

/// Relation of a processed peer cell to its pre-pin state: exactly `vd` was
/// removed from its possible digits, its pinned state is untouched, and it
/// had some other digit to keep (the removal succeeded).
spec fn peer_forbidden(g: SolutionGrid, g0: SolutionGrid, j: int, vd: int) -> bool {
    &&& forall|d: int| g.chas(j, d) == (g0.chas(j, d) && d != vd)
    &&& g.pinned(j) == g0.pinned(j)
    &&& g.digit_at(j) == g0.digit_at(j)
    &&& exists|d: int| d != vd && g0.chas(j, d)
}

/// The peers of `(row, col)` handled by the row/column pass once its loop
/// counter has reached `i`.
spec fn rc_processed(j: int, row: int, col: int, i: int) -> bool {
    ||| (col_of(j) == col && row_of(j) < i)
    ||| (row_of(j) == row && col_of(j) < i)
}

/// The peers of `(row, col)` handled by the block pass once its loop
/// counters have reached `(ir, ic)`.
spec fn blk_processed(j: int, row: int, col: int, ir: int, ic: int) -> bool {
    &&& block_of(j) == block_of(cell_at(row, col))
    &&& row_of(j) != row
    &&& col_of(j) != col
    &&& (row_of(j) < ir || (row_of(j) == ir && col_of(j) < ic))
}

/// Transfer of "some digit other than `vd` is possible in cell `j`" between
/// two grids whose cell `j` looks the same.
proof fn lemma_other_digit_transfer(g1: SolutionGrid, g2: SolutionGrid, j: int, vd: int)
    requires
        forall|d: int| g1.chas(j, d) == g2.chas(j, d),
    ensures
        (exists|d: int| d != vd && g1.chas(j, d)) == (exists|d: int| d != vd && g2.chas(j, d)),
{
    if exists|d: int| d != vd && g1.chas(j, d) {
        let d = choose|d: int| d != vd && g1.chas(j, d);
        assert(d != vd && g2.chas(j, d));
    }
    if exists|d: int| d != vd && g2.chas(j, d) {
        let d = choose|d: int| d != vd && g2.chas(j, d);
        assert(d != vd && g1.chas(j, d));
    }
}

/// If a valid full board is consistent with a grid and assigns `val` to cell
/// `idx`, then pinning `idx` to `val` must succeed: the cell still admits
/// `val`, and every peer still admits its own (different) digit.
pub proof fn lemma_consistent_pin_ok(g: SolutionGrid, s: Seq<int>, idx: int, val: int)
    requires
        is_solution(s),
        consistent(s, g),
        0 <= idx < 81,
        s[idx] == val,
    ensures
        g.chas(idx, val),
        forall|j: int| 0 <= j < 81 && #[trigger] peers(idx, j) ==> exists|d: int|
            d != val && g.chas(j, d),
{
    assert forall|j: int| 0 <= j < 81 && #[trigger] peers(idx, j) implies exists|d: int|
        d != val && g.chas(j, d) by {
        assert(s[j] != s[idx]);
        assert(g.chas(j, s[j]));
    }
}

impl SolutionGrid {
    /// Whether every cell is pinned.
    pub fn is_solved(&self) -> (r: bool)
        ensures
            r == forall|i: int| 0 <= i < 81 ==> self.pinned(i),
    {
        let mut i: usize = 0;
        while i < 81
            invariant
                i <= 81,
                forall|j: int| 0 <= j < i as int ==> self.pinned(j),
            decreases 81 - i,
        {
            if !self.cells[i].is_fixed() {
                proof {
                    assert(!self.pinned(i as int));
                }
                return false;
            }
            i = i + 1;
        }
        true
    }

    /// Pin cell `(row, col)` to `val`, then propagate: remove `val` from the
    /// domains of all 20 peer cells (8 in the row, 8 in the column, 4 more in
    /// the block).  Fails iff the cell no longer admits `val`, or some peer
    /// would be left without any possible digit.  A failed pin leaves the
    /// grid partially mutated: callers must discard it unconditionally.
    pub fn pin(&mut self, row: usize, col: usize, val: Value) -> (r: SolResult<()>)
        requires
            row < 9,
            col < 9,
            old(self).wf(),
        ensures
            (r is Ok) == (old(self).chas(cell_at(row as int, col as int), val@) && (forall|j: int|
                0 <= j < 81 && #[trigger] peers(cell_at(row as int, col as int), j)
                    ==> exists|d: int| d != val@ && old(self).chas(j, d))),
            r is Ok ==> final(self).wf(),
            r is Ok ==> final(self).pinned(cell_at(row as int, col as int)),
            r is Ok ==> final(self).digit_at(cell_at(row as int, col as int)) == val@,
            r is Ok ==> forall|j: int|
                0 <= j < 81 && j != cell_at(row as int, col as int) ==> final(self).pinned(j)
                    == old(self).pinned(j) && final(self).digit_at(j) == old(self).digit_at(j),
            r is Ok ==> forall|i: int, d: int|
                0 <= i < 81 ==> #[trigger] final(self).chas(i, d) == (old(self).chas(i, d) && !(i
                    == cell_at(row as int, col as int) && d != val@) && !(peers(
                    cell_at(row as int, col as int),
                    i,
                ) && d == val@)),
    {
        proof {
            lemma_cell_coords(row as int, col as int);
        }
        let ghost ii = cell_at(row as int, col as int);
        let ghost g0 = *self;
        let idx = row * 9 + col;
        let mut c = self.cells[idx];
        if c.pin(val).is_err() {
            return Err(NoSolError {  });
        }
        self.cells[idx] = c;
        proof {
            lemma_chas_range(g0, ii, val@);
        }
        let mut i: usize = 0;
        while i < 9
            invariant
                row < 9,
                col < 9,
                i <= 9,
                ii == cell_at(row as int, col as int),
                g0 == *old(self),
                g0.wf(),
                1 <= val@ <= 9,
                g0.chas(ii, val@),
                self.pinned(ii) && self.digit_at(ii) == val@,
                forall|d: int| self.chas(ii, d) == (d == val@),
                forall|j: int|
                    0 <= j < 81 && j != ii && !rc_processed(j, row as int, col as int, i as int)
                        ==> #[trigger] same_cell(*self, g0, j),
                forall|j: int|
                    0 <= j < 81 && j != ii && rc_processed(j, row as int, col as int, i as int)
                        ==> #[trigger] peer_forbidden(*self, g0, j, val@),
            decreases 9 - i,
        {
            let ghost s_a = *self;
            let ghost t1 = cell_at(i as int, col as int);
            let ghost t2 = cell_at(row as int, i as int);
            proof {
                lemma_cell_coords(i as int, col as int);
                lemma_cell_coords(row as int, i as int);
            }
            if i != row {
                proof {
                    assert(!rc_processed(t1, row as int, col as int, i as int));
                    assert(same_cell(s_a, g0, t1));
                }
                let res = self.forbid(i, col, val);
                proof {
                    lemma_other_digit_transfer(s_a, g0, t1, val@);
                    if res is Err {
                        assert(peers(ii, t1));
                        assert(!(exists|d: int| d != val@ && g0.chas(t1, d)));
                    }
                }
                if res.is_err() {
                    return Err(NoSolError {  });
                }
            }
            let ghost s_b = *self;
            proof {
                if i != row {
                    assert(t1 != ii);
                    assert(same_cell(s_b, s_a, ii));
                    assert(peer_forbidden(s_b, g0, t1, val@));
                }
            }
            if i != col {
                proof {
                    assert(!rc_processed(t2, row as int, col as int, i as int));
                    assert(t2 != ii);
                    assert(same_cell(s_a, g0, t2));
                    if i != row {
                        assert(t1 != t2);
                        assert(same_cell(s_b, s_a, t2));
                    }
                    assert(same_cell(s_b, g0, t2));
                }
                let res = self.forbid(row, i, val);
                proof {
                    lemma_other_digit_transfer(s_b, g0, t2, val@);
                    if res is Err {
                        assert(peers(ii, t2));
                        assert(!(exists|d: int| d != val@ && g0.chas(t2, d)));
                    }
                }
                if res.is_err() {
                    return Err(NoSolError {  });
                }
            }
            proof {
                let s_c = *self;
                if i != col {
                    assert(t2 != ii);
                    assert(same_cell(s_c, s_b, ii));
                }
                assert(s_c.pinned(ii) && s_c.digit_at(ii) == val@);
                assert(forall|d: int| s_c.chas(ii, d) == (d == val@));
                assert forall|j: int|
                    0 <= j < 81 && j != ii && !rc_processed(
                        j,
                        row as int,
                        col as int,
                        i as int + 1,
                    ) implies #[trigger] same_cell(s_c, g0, j) by {
                    lemma_cell_decompose(j);
                    assert(!rc_processed(j, row as int, col as int, i as int));
                    assert(same_cell(s_a, g0, j));
                    assert(j != t1 && j != t2);
                    if i != row {
                        assert(same_cell(s_b, s_a, j));
                    }
                    if i != col {
                        assert(same_cell(s_c, s_b, j));
                    }
                }
                assert forall|j: int|
                    0 <= j < 81 && j != ii && rc_processed(
                        j,
                        row as int,
                        col as int,
                        i as int + 1,
                    ) implies #[trigger] peer_forbidden(s_c, g0, j, val@) by {
                    lemma_cell_decompose(j);
                    if rc_processed(j, row as int, col as int, i as int) {
                        assert(peer_forbidden(s_a, g0, j, val@));
                        assert(j != t1 && j != t2);
                        if i != row {
                            assert(same_cell(s_b, s_a, j));
                        }
                        if i != col {
                            assert(same_cell(s_c, s_b, j));
                        }
                    } else if i != row && j == t1 {
                        assert(peer_forbidden(s_b, g0, j, val@));
                        if i != col {
                            assert(j != t2);
                            assert(same_cell(s_c, s_b, j));
                        }
                    } else {
                        assert(i != col && j == t2);
                        assert(peer_forbidden(s_c, g0, j, val@));
                    }
                }
            }
            i = i + 1;
        }
        let block_row = row / 3;
        let block_col = col / 3;
        proof {
            assert forall|j: int|
                0 <= j < 81 && j != ii && (rc_processed(j, row as int, col as int, 9)
                    || blk_processed(
                    j,
                    row as int,
                    col as int,
                    3 * block_row as int,
                    3 * block_col as int,
                )) implies #[trigger] peer_forbidden(*self, g0, j, val@) by {
                if !rc_processed(j, row as int, col as int, 9) {
                    lemma_cell_decompose(j);
                    lemma_same_block(j, ii);
                    assert(false);
                }
            }
        }
        let mut ir: usize = 3 * block_row;
        while ir < 3 * (block_row + 1)
            invariant
                row < 9,
                col < 9,
                block_row == row / 3,
                block_col == col / 3,
                3 * block_row <= ir <= 3 * block_row + 3,
                ii == cell_at(row as int, col as int),
                g0 == *old(self),
                g0.wf(),
                1 <= val@ <= 9,
                g0.chas(ii, val@),
                self.pinned(ii) && self.digit_at(ii) == val@,
                forall|d: int| self.chas(ii, d) == (d == val@),
                forall|j: int|
                    0 <= j < 81 && j != ii && !rc_processed(j, row as int, col as int, 9)
                        && !blk_processed(
                        j,
                        row as int,
                        col as int,
                        ir as int,
                        3 * block_col as int,
                    ) ==> #[trigger] same_cell(*self, g0, j),
                forall|j: int|
                    0 <= j < 81 && j != ii && (rc_processed(j, row as int, col as int, 9)
                        || blk_processed(
                        j,
                        row as int,
                        col as int,
                        ir as int,
                        3 * block_col as int,
                    )) ==> #[trigger] peer_forbidden(*self, g0, j, val@),
            decreases 3 * block_row + 3 - ir,
        {
            let mut ic: usize = 3 * block_col;
            while ic < 3 * (block_col + 1)
                invariant
                    row < 9,
                    col < 9,
                    block_row == row / 3,
                    block_col == col / 3,
                    3 * block_row <= ir < 3 * block_row + 3,
                    3 * block_col <= ic <= 3 * block_col + 3,
                    ii == cell_at(row as int, col as int),
                    g0 == *old(self),
                    g0.wf(),
                    1 <= val@ <= 9,
                    g0.chas(ii, val@),
                    self.pinned(ii) && self.digit_at(ii) == val@,
                    forall|d: int| self.chas(ii, d) == (d == val@),
                    forall|j: int|
                        0 <= j < 81 && j != ii && !rc_processed(j, row as int, col as int, 9)
                            && !blk_processed(j, row as int, col as int, ir as int, ic as int)
                            ==> #[trigger] same_cell(*self, g0, j),
                    forall|j: int|
                        0 <= j < 81 && j != ii && (rc_processed(j, row as int, col as int, 9)
                            || blk_processed(j, row as int, col as int, ir as int, ic as int))
                            ==> #[trigger] peer_forbidden(*self, g0, j, val@),
                decreases 3 * block_col + 3 - ic,
            {
                let ghost s_a = *self;
                let ghost t = cell_at(ir as int, ic as int);
                proof {
                    lemma_cell_coords(ir as int, ic as int);
                    assert(ir as int / 3 == block_row as int && ic as int / 3 == block_col as int);
                    assert(block_of(t) == block_of(ii));
                }
                if ir != row && ic != col {
                    proof {
                        assert(t != ii);
                        assert(!rc_processed(t, row as int, col as int, 9));
                        assert(!blk_processed(t, row as int, col as int, ir as int, ic as int));
                        assert(same_cell(s_a, g0, t));
                    }
                    let res = self.forbid(ir, ic, val);
                    proof {
                        lemma_other_digit_transfer(s_a, g0, t, val@);
                        if res is Err {
                            assert(peers(ii, t));
                            assert(!(exists|d: int| d != val@ && g0.chas(t, d)));
                        }
                    }
                    if res.is_err() {
                        return Err(NoSolError {  });
                    }
                }
                proof {
                    let s_c = *self;
                    if ir != row && ic != col {
                        assert(t != ii);
                        assert(same_cell(s_c, s_a, ii));
                        assert(peer_forbidden(s_c, g0, t, val@));
                    }
                    assert(s_c.pinned(ii) && s_c.digit_at(ii) == val@);
                    assert(forall|d: int| s_c.chas(ii, d) == (d == val@));
                    assert forall|j: int|
                        0 <= j < 81 && j != ii && !rc_processed(j, row as int, col as int, 9)
                            && !blk_processed(
                            j,
                            row as int,
                            col as int,
                            ir as int,
                            ic as int + 1,
                        ) implies #[trigger] same_cell(s_c, g0, j) by {
                        lemma_cell_decompose(j);
                        assert(!blk_processed(j, row as int, col as int, ir as int, ic as int));
                        assert(same_cell(s_a, g0, j));
                        if ir != row && ic != col {
                            assert(j != t);
                            assert(same_cell(s_c, s_a, j));
                        } else {
                            assert(s_c == s_a);
                        }
                    }
                    assert forall|j: int|
                        0 <= j < 81 && j != ii && (rc_processed(j, row as int, col as int, 9)
                            || blk_processed(
                            j,
                            row as int,
                            col as int,
                            ir as int,
                            ic as int + 1,
                        )) implies #[trigger] peer_forbidden(s_c, g0, j, val@) by {
                        lemma_cell_decompose(j);
                        if rc_processed(j, row as int, col as int, 9) || blk_processed(
                            j,
                            row as int,
                            col as int,
                            ir as int,
                            ic as int,
                        ) {
                            assert(peer_forbidden(s_a, g0, j, val@));
                            if ir != row && ic != col {
                                assert(j != t);
                                assert(same_cell(s_c, s_a, j));
                            } else {
                                assert(s_c == s_a);
                            }
                        } else {
                            assert(j == t && ir != row && ic != col);
                        }
                    }
                }
                ic = ic + 1;
            }
            proof {
                assert forall|j: int|
                    0 <= j < 81 && j != ii && #[trigger] blk_processed(
                        j,
                        row as int,
                        col as int,
                        ir as int + 1,
                        3 * block_col as int,
                    ) implies blk_processed(
                    j,
                    row as int,
                    col as int,
                    ir as int,
                    3 * block_col as int + 3,
                ) by {
                    lemma_cell_decompose(j);
                    lemma_same_block(j, ii);
                }
            }
            ir = ir + 1;
        }
        proof {
            let g1 = *self;
            assert forall|j: int| 0 <= j < 81 && #[trigger] peers(ii, j) implies peer_forbidden(
                g1,
                g0,
                j,
                val@,
            ) by {
                lemma_cell_decompose(j);
                if row_of(j) == row as int || col_of(j) == col as int {
                    assert(rc_processed(j, row as int, col as int, 9));
                } else {
                    assert(block_of(j) == block_of(ii));
                    lemma_same_block(j, ii);
                    assert(blk_processed(
                        j,
                        row as int,
                        col as int,
                        3 * block_row as int + 3,
                        3 * block_col as int,
                    ));
                }
            }
            assert forall|j: int| 0 <= j < 81 && j != ii && !peers(ii, j) implies same_cell(
                g1,
                g0,
                j,
            ) by {
                lemma_cell_decompose(j);
                if blk_processed(
                    j,
                    row as int,
                    col as int,
                    3 * block_row as int + 3,
                    3 * block_col as int,
                ) {
                    lemma_same_block(j, ii);
                    assert(peers(ii, j));
                }
            }
            assert forall|j: int|
                0 <= j < 81 && j != ii implies g1.pinned(j) == g0.pinned(j) && g1.digit_at(j)
                    == g0.digit_at(j) by {
                if peers(ii, j) {
                    assert(peer_forbidden(g1, g0, j, val@));
                } else {
                    assert(same_cell(g1, g0, j));
                }
            }
            assert forall|i2: int, d: int| 0 <= i2 < 81 implies #[trigger] g1.chas(i2, d) == (
            g0.chas(i2, d) && !(i2 == ii && d != val@) && !(peers(ii, i2) && d == val@)) by {
                if i2 == ii {
                    assert(!peers(ii, ii));
                } else if peers(ii, i2) {
                    assert(peer_forbidden(g1, g0, i2, val@));
                } else {
                    assert(same_cell(g1, g0, i2));
                }
            }
            assert forall|a: int, b: int|
                0 <= a < 81 && 0 <= b < 81 && #[trigger] peers(a, b) && g1.pinned(a) implies !g1
                .chas(b, g1.digit_at(a)) by {
                if a == ii {
                    assert(g1.chas(b, val@) == false);
                } else {
                    if peers(ii, a) {
                        assert(peer_forbidden(g1, g0, a, val@));
                    } else {
                        assert(same_cell(g1, g0, a));
                    }
                    let dd = g1.digit_at(a);
                    assert(g0.pinned(a) && g0.digit_at(a) == dd);
                    if b == ii {
                        assert(peers(a, ii));
                        assert(!g0.chas(ii, dd));
                        assert(dd != val@);
                        assert(!g1.chas(ii, dd));
                    } else {
                        assert(!g0.chas(b, dd));
                        assert(!g1.chas(b, dd));
                    }
                }
            }
            assert forall|a: int| 0 <= a < 81 implies g1.cell_ok(a) by {
                if a == ii {
                    g1.lemma_pinned_cell_ok(a);
                } else {
                    if peers(ii, a) {
                        assert(peer_forbidden(g1, g0, a, val@));
                    } else {
                        assert(same_cell(g1, g0, a));
                    }
                    assert(g0.cell_ok(a));
                    if g1.pinned(a) {
                        g0.lemma_pinned_cell_digit(a);
                        g1.lemma_pinned_cell_ok(a);
                    } else {
                        if peers(ii, a) {
                            let d = choose|d: int| d != val@ && g0.chas(a, d);
                            assert(g1.chas(a, d));
                            g1.lemma_fuzzy_cell_ok(a, d);
                        } else {
                            g0.lemma_fuzzy_cell_witness(a);
                            let d = choose|d: int| g0.chas(a, d);
                            assert(g1.chas(a, d));
                            g1.lemma_fuzzy_cell_ok(a, d);
                        }
                    }
                }
            }
        }
        Ok(())
    }

    /// Remove `val` from the possible digits of cell `(row, col)`.  No-op on
    /// a pinned cell holding a different value; fails iff the cell would be
    /// left with no possible digit.
    pub fn forbid(&mut self, row: usize, col: usize, val: Value) -> (r: SolResult<()>)
        requires
            row < 9,
            col < 9,
        ensures
            (r is Ok) == exists|d: int|
                d != val@ && old(self).chas(cell_at(row as int, col as int), d),
            r is Ok ==> forall|d: int|
                final(self).chas(cell_at(row as int, col as int), d) == (old(self).chas(
                    cell_at(row as int, col as int),
                    d,
                ) && d != val@),
            r is Ok ==> final(self).pinned(cell_at(row as int, col as int)) == old(self).pinned(
                cell_at(row as int, col as int),
            ) && final(self).digit_at(cell_at(row as int, col as int)) == old(self).digit_at(
                cell_at(row as int, col as int),
            ),
            r is Ok ==> forall|j: int|
                0 <= j < 81 && j != cell_at(row as int, col as int) ==> #[trigger] same_cell(
                    *final(self),
                    *old(self),
                    j,
                ),
            r is Ok && old(self).wf() ==> final(self).wf(),
    {
        proof {
            lemma_cell_coords(row as int, col as int);
        }
        let idx = row * 9 + col;
        let mut c = self.cells[idx];
        let ghost c0 = c;
        let r = c.forbid(val);
        proof {
            let i = cell_at(row as int, col as int);
            if exists|d: int| d != val@ && old(self).chas(i, d) {
                let d = choose|d: int| d != val@ && old(self).chas(i, d);
                assert(d != val@ && c0.chas(d));
            }
            if exists|d: int| d != val@ && c0.chas(d) {
                let d = choose|d: int| d != val@ && c0.chas(d);
                assert(d != val@ && old(self).chas(i, d));
            }
        }
        if r.is_ok() {
            self.cells[idx] = c;
            proof {
                if old(self).wf() {
                    let g0 = *old(self);
                    let g1 = *self;
                    let ii = cell_at(row as int, col as int);
                    assert forall|a: int| 0 <= a < 81 && a != ii implies g1.cell(a) == g0.cell(
                        a,
                    ) && same_cell(g1, g0, a) by {}
                    assert forall|a: int| 0 <= a < 81 implies g1.cell_ok(a) by {
                        if a == ii {
                            if g1.pinned(a) {
                                g0.lemma_pinned_cell_digit(a);
                                g1.lemma_pinned_cell_ok(a);
                            } else {
                                let d = choose|d: int| d != val@ && g0.chas(ii, d);
                                assert(g1.chas(ii, d));
                                g1.lemma_fuzzy_cell_ok(a, d);
                            }
                        } else {
                            assert(g0.cell_ok(a));
                        }
                    }
                    assert forall|a: int, b: int|
                        0 <= a < 81 && 0 <= b < 81 && #[trigger] peers(a, b) && g1.pinned(
                            a,
                        ) implies !g1.chas(b, g1.digit_at(a)) by {
                        assert(g0.pinned(a) && g0.digit_at(a) == g1.digit_at(a));
                        assert(!g0.chas(b, g0.digit_at(a)));
                    }
                }
            }
            Ok(())
        } else {
            Err(NoSolError {  })
        }
    }

    /// Every digit not yet ruled out for cell `(row, col)`, ascending.
    pub fn possible_values(&self, row: usize, col: usize) -> (r: Vec<Value>)
        requires
            row < 9,
            col < 9,
        ensures
            forall|k: int|
                0 <= k < r@.len() ==> self.chas(cell_at(row as int, col as int), #[trigger] r@[k]@),
            forall|d: int|
                self.chas(cell_at(row as int, col as int), d) ==> exists|k: int|
                    0 <= k < r@.len() && r@[k]@ == d,
            forall|k1: int, k2: int| 0 <= k1 < k2 < r@.len() ==> r@[k1]@ < r@[k2]@,
    {
        proof {
            lemma_cell_coords(row as int, col as int);
        }
        let idx = row * 9 + col;
        self.cells[idx].all_values()
    }

    /// Find all fuzzy cells with exactly one possibility left, row-major.
    fn find_fuzzy_uniques(&self) -> (r: Vec<(usize, usize, Value)>)
        ensures
            forall|k: int|
                0 <= k < r@.len() ==> {
                    let t = #[trigger] r@[k];
                    &&& t.0 < 9
                    &&& t.1 < 9
                    &&& !self.pinned(cell_at(t.0 as int, t.1 as int))
                    &&& self.fuzzy_cands(cell_at(t.0 as int, t.1 as int)) == 1
                    &&& self.chas(cell_at(t.0 as int, t.1 as int), t.2@)
                    &&& forall|d: int| self.chas(cell_at(t.0 as int, t.1 as int), d) ==> d == t.2@
                },
            forall|i: int|
                0 <= i < 81 && !self.pinned(i) && #[trigger] self.fuzzy_cands(i) == 1
                    ==> exists|k: int|
                    0 <= k < r@.len() && cell_at(r@[k].0 as int, r@[k].1 as int) == i,
            forall|k1: int, k2: int|
                0 <= k1 < k2 < r@.len() ==> cell_at(r@[k1].0 as int, r@[k1].1 as int) < cell_at(
                    r@[k2].0 as int,
                    r@[k2].1 as int,
                ),
            r@.len() == 0 ==> forall|i: int|
                0 <= i < 81 && !self.pinned(i) ==> #[trigger] self.fuzzy_cands(i) != 1,
    {
        let mut out: Vec<(usize, usize, Value)> = Vec::new();
        let mut row: usize = 0;
        while row < 9
            invariant
                row <= 9,
                forall|k: int|
                    0 <= k < out@.len() ==> {
                        let t = #[trigger] out@[k];
                        &&& t.0 < 9
                        &&& t.1 < 9
                        &&& cell_at(t.0 as int, t.1 as int) < cell_at(row as int, 0)
                        &&& !self.pinned(cell_at(t.0 as int, t.1 as int))
                        &&& self.fuzzy_cands(cell_at(t.0 as int, t.1 as int)) == 1
                        &&& self.chas(cell_at(t.0 as int, t.1 as int), t.2@)
                        &&& forall|d: int|
                            self.chas(cell_at(t.0 as int, t.1 as int), d) ==> d == t.2@
                    },
                forall|i: int|
                    0 <= i < cell_at(row as int, 0) && !self.pinned(i) && #[trigger] self
                        .fuzzy_cands(i) == 1 ==> exists|k: int|
                        0 <= k < out@.len() && cell_at(out@[k].0 as int, out@[k].1 as int) == i,
                forall|k1: int, k2: int|
                    0 <= k1 < k2 < out@.len() ==> cell_at(out@[k1].0 as int, out@[k1].1 as int)
                        < cell_at(out@[k2].0 as int, out@[k2].1 as int),
            decreases 9 - row,
        {
            let mut col: usize = 0;
            while col < 9
                invariant
                    row < 9,
                    col <= 9,
                    forall|k: int|
                        0 <= k < out@.len() ==> {
                            let t = #[trigger] out@[k];
                            &&& t.0 < 9
                            &&& t.1 < 9
                            &&& cell_at(t.0 as int, t.1 as int) < cell_at(row as int, col as int)
                            &&& !self.pinned(cell_at(t.0 as int, t.1 as int))
                            &&& self.fuzzy_cands(cell_at(t.0 as int, t.1 as int)) == 1
                            &&& self.chas(cell_at(t.0 as int, t.1 as int), t.2@)
                            &&& forall|d: int|
                                self.chas(cell_at(t.0 as int, t.1 as int), d) ==> d == t.2@
                        },
                    forall|i: int|
                        0 <= i < cell_at(row as int, col as int) && !self.pinned(i)
                            && #[trigger] self.fuzzy_cands(i) == 1 ==> exists|k: int|
                            0 <= k < out@.len() && cell_at(out@[k].0 as int, out@[k].1 as int)
                                == i,
                    forall|k1: int, k2: int|
                        0 <= k1 < k2 < out@.len() ==> cell_at(out@[k1].0 as int, out@[k1].1 as int)
                            < cell_at(out@[k2].0 as int, out@[k2].1 as int),
                decreases 9 - col,
            {
                proof {
                    lemma_cell_coords(row as int, col as int);
                }
                let idx = row * 9 + col;
                let ghost prev = out@;
                if let Some(sc) = self.cells[idx].fuzzy_constraint() {
                    if let Some(val) = sc.unique_solution() {
                        out.push((row, col, val));
                        proof {
                            assert(out@ == prev.push((row, col, val)));
                            assert forall|i: int|
                                0 <= i < cell_at(row as int, col as int) + 1 && !self.pinned(i)
                                    && #[trigger] self.fuzzy_cands(i) == 1 implies exists|k: int|
                                0 <= k < out@.len() && cell_at(out@[k].0 as int, out@[k].1 as int)
                                    == i by {
                                if i < cell_at(row as int, col as int) {
                                    let k = choose|k: int|
                                        0 <= k < prev.len() && cell_at(
                                            prev[k].0 as int,
                                            prev[k].1 as int,
                                        ) == i;
                                    assert(out@[k] == prev[k]);
                                } else {
                                    let k = out@.len() - 1;
                                    assert(out@[k].0 == row && out@[k].1 == col);
                                    assert(cell_at(out@[k].0 as int, out@[k].1 as int) == i);
                                }
                            }
                        }
                    } else {
                        proof {
                            assert(self.fuzzy_cands(cell_at(row as int, col as int)) != 1);
                        }
                    }
                } else {
                    proof {
                        assert(self.pinned(cell_at(row as int, col as int)));
                    }
                }
                proof {
                    assert(cell_at(row as int, col as int + 1) == cell_at(
                        row as int,
                        col as int,
                    ) + 1);
                }
                col = col + 1;
            }
            proof {
                assert(cell_at(row as int + 1, 0) == cell_at(row as int, 9));
            }
            row = row + 1;
        }
        proof {
            assert forall|i: int|
                0 <= i < 81 && !self.pinned(i) && #[trigger] self.fuzzy_cands(i)
                    == 1 implies exists|k: int|
                0 <= k < out@.len() && cell_at(out@[k].0 as int, out@[k].1 as int) == i by {
                assert(i < cell_at(9, 0));
            }
            if out@.len() == 0 {
                assert forall|i: int| 0 <= i < 81 && !self.pinned(i) implies #[trigger] self
                    .fuzzy_cands(i) != 1 by {
                    assert(i < cell_at(9, 0));
                }
            }
        }
        out
    }

    /// Naked-single propagation to a fixed point: repeatedly pin every fuzzy
    /// cell whose domain has exactly one candidate, until none remains.
    /// Fails on the first contradiction found anywhere in the cascade; the
    /// grid must then be discarded.  Propagation is sound: it never loses a
    /// full solution that was still reachable, and it cannot fail while one
    /// is reachable.
    pub fn maximize_constraints(&mut self) -> (r: SolResult<()>)
        requires
            old(self).wf(),
        ensures
            r is Ok ==> final(self).wf(),
            r is Ok ==> forall|i: int|
                0 <= i < 81 && old(self).pinned(i) ==> final(self).pinned(i)
                    && final(self).digit_at(i) == old(self).digit_at(i),
            r is Ok ==> forall|i: int, d: int|
                0 <= i < 81 && #[trigger] final(self).chas(i, d) ==> old(self).chas(i, d),
            r is Ok ==> forall|i: int|
                0 <= i < 81 && !final(self).pinned(i) ==> #[trigger] final(self).fuzzy_cands(i)
                    != 1,
            forall|s: Seq<int>|
                is_solution(s) && #[trigger] consistent(s, *old(self)) ==> r is Ok && consistent(
                    s,
                    *final(self),
                ),
    {
        loop
            invariant
                self.wf(),
                forall|i: int|
                    0 <= i < 81 && old(self).pinned(i) ==> self.pinned(i) && self.digit_at(i)
                        == old(self).digit_at(i),
                forall|i: int, d: int|
                    0 <= i < 81 && #[trigger] self.chas(i, d) ==> old(self).chas(i, d),
                forall|s: Seq<int>|
                    is_solution(s) && #[trigger] consistent(s, *old(self)) ==> consistent(
                        s,
                        *self,
                    ),
            decreases self.score(),
        {
            let uniques = self.find_fuzzy_uniques();
            if uniques.len() == 0 {
                return Ok(());
            }
            let ghost g_scan = *self;
            let mut k: usize = 0;
            while k < uniques.len()
                invariant
                    self.wf(),
                    k <= uniques@.len(),
                    uniques@.len() > 0,
                    k == 0 ==> *self == g_scan,
                    forall|k2: int|
                        0 <= k2 < uniques@.len() ==> {
                            let t = #[trigger] uniques@[k2];
                            &&& t.0 < 9
                            &&& t.1 < 9
                            &&& !g_scan.pinned(cell_at(t.0 as int, t.1 as int))
                            &&& g_scan.chas(cell_at(t.0 as int, t.1 as int), t.2@)
                            &&& forall|d: int|
                                g_scan.chas(cell_at(t.0 as int, t.1 as int), d) ==> d == t.2@
                        },
                    forall|i: int|
                        0 <= i < 81 && old(self).pinned(i) ==> self.pinned(i) && self.digit_at(i)
                            == old(self).digit_at(i),
                    forall|i: int, d: int|
                        0 <= i < 81 && #[trigger] self.chas(i, d) ==> old(self).chas(i, d),
                    forall|s: Seq<int>|
                        is_solution(s) && #[trigger] consistent(s, *old(self)) ==> consistent(
                            s,
                            g_scan,
                        ),
                    forall|s: Seq<int>|
                        is_solution(s) && #[trigger] consistent(s, g_scan) ==> consistent(
                            s,
                            *self,
                        ),
                    k > 0 ==> self.score() < g_scan.score(),
                decreases uniques@.len() - k,
            {
                let t = uniques[k];
                let ghost s_pre = *self;
                let ghost ti = cell_at(t.0 as int, t.1 as int);
                proof {
                    lemma_cell_coords(t.0 as int, t.1 as int);
                    if exists|s: Seq<int>| is_solution(s) && #[trigger] consistent(s, g_scan) {
                        let s = choose|s: Seq<int>|
                            is_solution(s) && #[trigger] consistent(s, g_scan);
                        assert(g_scan.chas(ti, s[ti]));
                        assert(s[ti] == t.2@);
                        lemma_consistent_pin_ok(s_pre, s, ti, t.2@);
                    }
                }
                let res = self.pin(t.0, t.1, t.2);
                if res.is_err() {
                    proof {
                        assert forall|s: Seq<int>|
                            is_solution(s) && #[trigger] consistent(s, *old(self)) implies false by {
                            assert(consistent(s, g_scan));
                        }
                    }
                    return Err(NoSolError {  });
                }
                proof {
                    assert forall|i: int| 0 <= i < 81 && s_pre.pinned(i) implies self.pinned(
                        i,
                    ) by {
                        if i != ti {
                            assert(self.pinned(i) && self.digit_at(i) == s_pre.digit_at(i));
                        }
                    }
                    assert forall|i: int, d: int|
                        0 <= i < 81 && #[trigger] self.chas(i, d) implies s_pre.chas(i, d) by {}
                    if k == 0 {
                        assert(s_pre == g_scan);
                        lemma_score_lt_pinned(s_pre, *self, ti);
                    } else {
                        lemma_score_le(s_pre, *self);
                    }
                    assert forall|s: Seq<int>|
                        is_solution(s) && #[trigger] consistent(s, g_scan) implies consistent(
                        s,
                        *self,
                    ) by {
                        assert(consistent(s, s_pre));
                        assert(s[ti] == t.2@);
                        assert forall|i: int| 0 <= i < 81 implies self.chas(i, #[trigger] s[i]) by {
                            if peers(ti, i) {
                                assert(s[i] != s[ti]);
                            }
                            assert(s_pre.chas(i, s[i]));
                        }
                    }
                }
                k = k + 1;
            }
        }
    }

    /// Row-major scan for the fuzzy cell with strictly fewest remaining
    /// candidates; the first such cell wins ties.  `None` iff the grid is
    /// fully pinned.
    pub fn find_least_sols_fuzzy(&self) -> (r: Option<(usize, usize, SoftConstraint)>)
        ensures
            match r {
                Some(t) => {
                    &&& t.0 < 9
                    &&& t.1 < 9
                    &&& !self.pinned(cell_at(t.0 as int, t.1 as int))
                    &&& forall|d: int|
                        self.chas(cell_at(t.0 as int, t.1 as int), d) == t.2.has(d)
                    &&& self.fuzzy_cands(cell_at(t.0 as int, t.1 as int)) == t.2.ncands()
                    &&& forall|i: int|
                        0 <= i < 81 && !self.pinned(i) ==> #[trigger] self.fuzzy_cands(i)
                            >= t.2.ncands()
                    &&& forall|i: int|
                        0 <= i < cell_at(t.0 as int, t.1 as int) && !self.pinned(i)
                            ==> #[trigger] self.fuzzy_cands(i) > t.2.ncands()
                },
                None => forall|i: int| 0 <= i < 81 ==> self.pinned(i),
            },
    {
        let mut min_nsols: u32 = 10;
        let mut out: Option<(usize, usize, SoftConstraint)> = None;
        let mut row: usize = 0;
        while row < 9
            invariant
                row <= 9,
                min_nsols <= 10,
                match out {
                    Some(t) => {
                        &&& t.0 < 9
                        &&& t.1 < 9
                        &&& cell_at(t.0 as int, t.1 as int) < cell_at(row as int, 0)
                        &&& !self.pinned(cell_at(t.0 as int, t.1 as int))
                        &&& forall|d: int|
                            self.chas(cell_at(t.0 as int, t.1 as int), d) == t.2.has(d)
                        &&& self.fuzzy_cands(cell_at(t.0 as int, t.1 as int)) == t.2.ncands()
                        &&& t.2.ncands() == min_nsols
                        &&& forall|i: int|
                            0 <= i < cell_at(row as int, 0) && !self.pinned(i)
                                ==> #[trigger] self.fuzzy_cands(i) >= min_nsols
                        &&& forall|i: int|
                            0 <= i < cell_at(t.0 as int, t.1 as int) && !self.pinned(i)
                                ==> #[trigger] self.fuzzy_cands(i) > min_nsols
                    },
                    None => min_nsols == 10 && forall|i: int|
                        0 <= i < cell_at(row as int, 0) ==> self.pinned(i),
                },
            decreases 9 - row,
        {
            let mut col: usize = 0;
            while col < 9
                invariant
                    row < 9,
                    col <= 9,
                    min_nsols <= 10,
                    match out {
                        Some(t) => {
                            &&& t.0 < 9
                            &&& t.1 < 9
                            &&& cell_at(t.0 as int, t.1 as int) < cell_at(row as int, col as int)
                            &&& !self.pinned(cell_at(t.0 as int, t.1 as int))
                            &&& forall|d: int|
                                self.chas(cell_at(t.0 as int, t.1 as int), d) == t.2.has(d)
                            &&& self.fuzzy_cands(cell_at(t.0 as int, t.1 as int)) == t.2.ncands()
                            &&& t.2.ncands() == min_nsols
                            &&& forall|i: int|
                                0 <= i < cell_at(row as int, col as int) && !self.pinned(i)
                                    ==> #[trigger] self.fuzzy_cands(i) >= min_nsols
                            &&& forall|i: int|
                                0 <= i < cell_at(t.0 as int, t.1 as int) && !self.pinned(i)
                                    ==> #[trigger] self.fuzzy_cands(i) > min_nsols
                        },
                        None => min_nsols == 10 && forall|i: int|
                            0 <= i < cell_at(row as int, col as int) ==> self.pinned(i),
                    },
                decreases 9 - col,
            {
                proof {
                    lemma_cell_coords(row as int, col as int);
                }
                let idx = row * 9 + col;
                if let Some(sc) = self.cells[idx].fuzzy_constraint() {
                    let nsols = sc.num_solutions();
                    if nsols < min_nsols {
                        out = Some((row, col, sc));
                        min_nsols = nsols;
                    }
                }
                proof {
                    assert(cell_at(row as int, col as int + 1) == cell_at(
                        row as int,
                        col as int,
                    ) + 1);
                }
                col = col + 1;
            }
            proof {
                assert(cell_at(row as int + 1, 0) == cell_at(row as int, 9));
            }
            row = row + 1;
        }
        proof {
            if out is Some {
                let t = out->0;
                assert forall|i: int| 0 <= i < 81 && !self.pinned(i) implies #[trigger] self
                    .fuzzy_cands(i) >= t.2.ncands() by {
                    assert(i < cell_at(9, 0));
                }
            } else {
                assert forall|i: int| 0 <= i < 81 implies self.pinned(i) by {
                    assert(i < cell_at(9, 0));
                }
            }
        }
        out
    }
}

impl Default for SolutionGrid {
    /// The all-open grid: nothing is known about any cell.
    fn default() -> (r: Self)
        ensures
            r.wf(),
            forall|i: int| 0 <= i < 81 ==> !r.pinned(i),
            forall|i: int, d: int| 0 <= i < 81 ==> #[trigger] r.chas(i, d) == (1 <= d <= 9),
    {
        let c = CellState::open();
        let r = SolutionGrid { cells: [c;81] };
        proof {
            assert forall|i: int| 0 <= i < 81 implies r.cell_ok(i) && !r.pinned(i) && (forall|
                d: int,
            |
                #[trigger] r.chas(i, d) == (1 <= d <= 9)) by {
                assert(r.cell(i) == c);
                assert(r.chas(i, 1));
                r.lemma_fuzzy_cell_ok(i, 1);
            }
        }
        r
    }
}

impl SolutionGrid {
    /// Build the seed grid of a puzzle: pin every constrained cell
    /// (propagating as it goes), then run naked-single propagation once.  An
    /// error means the puzzle provably admits no solution; it is detected
    /// without any branching.
    pub fn from_puzzle(p: &Puzzle) -> (r: SolResult<SolutionGrid>)
        ensures
            match r {
                Ok(g) => {
                    &&& g.wf()
                    &&& g.refines(p@)
                    &&& forall|i: int|
                        0 <= i < 81 && !g.pinned(i) ==> #[trigger] g.fuzzy_cands(i) != 1
                    &&& forall|s: Seq<int>|
                        is_solution(s) && #[trigger] agrees(s, p@) ==> consistent(s, g)
                },
                Err(_) => !solvable(p@),
            },
    {
        let mut sgrid = SolutionGrid::default();
        let mut row: usize = 0;
        while row < 9
            invariant
                row <= 9,
                sgrid.wf(),
                forall|i: int|
                    0 <= i < cell_at(row as int, 0) ==> (#[trigger] p@[i] matches Some(v)
                        ==> sgrid.pinned(i) && sgrid.digit_at(i) == v@),
                forall|s: Seq<int>|
                    is_solution(s) && #[trigger] agrees(s, p@) ==> consistent(s, sgrid),
            decreases 9 - row,
        {
            let mut col: usize = 0;
            while col < 9
                invariant
                    row < 9,
                    col <= 9,
                    sgrid.wf(),
                    forall|i: int|
                        0 <= i < cell_at(row as int, col as int) ==> (#[trigger] p@[i] matches Some(
                            v,
                        ) ==> sgrid.pinned(i) && sgrid.digit_at(i) == v@),
                    forall|s: Seq<int>|
                        is_solution(s) && #[trigger] agrees(s, p@) ==> consistent(s, sgrid),
                decreases 9 - col,
            {
                let ghost ti = cell_at(row as int, col as int);
                proof {
                    lemma_cell_coords(row as int, col as int);
                }
                if let Some(c) = p.get(row, col) {
                    let ghost s_pre = sgrid;
                    proof {
                        if exists|s: Seq<int>| is_solution(s) && #[trigger] agrees(s, p@) {
                            let s = choose|s: Seq<int>|
                                is_solution(s) && #[trigger] agrees(s, p@);
                            assert(s[ti] == c@);
                            lemma_consistent_pin_ok(s_pre, s, ti, c@);
                        }
                    }
                    let res = sgrid.pin(row, col, c);
                    if res.is_err() {
                        proof {
                            assert forall|s: Seq<int>|
                                is_solution(s) && #[trigger] agrees(s, p@) implies false by {
                                assert(consistent(s, s_pre));
                            }
                        }
                        return Err(NoSolError {  });
                    }
                    proof {
                        assert forall|s: Seq<int>|
                            is_solution(s) && #[trigger] agrees(s, p@) implies consistent(
                            s,
                            sgrid,
                        ) by {
                            assert(consistent(s, s_pre));
                            assert(s[ti] == c@);
                            assert forall|i: int| 0 <= i < 81 implies sgrid.chas(
                                i,
                                #[trigger] s[i],
                            ) by {
                                if peers(ti, i) {
                                    assert(s[i] != s[ti]);
                                }
                                assert(s_pre.chas(i, s[i]));
                            }
                        }
                    }
                }
                proof {
                    assert(cell_at(row as int, col as int + 1) == cell_at(
                        row as int,
                        col as int,
                    ) + 1);
                }
                col = col + 1;
            }
            proof {
                assert(cell_at(row as int + 1, 0) == cell_at(row as int, 9));
            }
            row = row + 1;
        }
        let ghost s_seed = sgrid;
        let res = sgrid.maximize_constraints();
        if res.is_err() {
            proof {
                assert forall|s: Seq<int>|
                    is_solution(s) && #[trigger] agrees(s, p@) implies false by {
                    assert(consistent(s, s_seed));
                }
            }
            return Err(NoSolError {  });
        }
        proof {
            assert forall|i: int|
                0 <= i < 81 implies (#[trigger] p@[i] matches Some(v) ==> sgrid.pinned(i)
                && sgrid.digit_at(i) == v@) by {
                assert(i < cell_at(9, 0));
            }
            assert forall|s: Seq<int>|
                is_solution(s) && #[trigger] agrees(s, p@) implies consistent(s, sgrid) by {
                assert(consistent(s, s_seed));
            }
        }
        Ok(sgrid)
    }

    /// Convert a fully pinned grid into a plain digit grid; `None` while any
    /// cell is still fuzzy.  The output of a well-formed solved grid is a
    /// valid sudoku solution.
    pub fn into_grid(self) -> (r: Option<Grid<u8>>)
        ensures
            (r is Some) == (forall|i: int| 0 <= i < 81 ==> self.pinned(i)),
            r matches Some(g) ==> board_of(g) == self.board(),
            r is Some && self.wf() ==> is_solution(self.board()),
    {
        if !self.is_solved() {
            return None;
        }
        let mut out: Grid<u8> = [[0u8;9];9];
        let mut row: usize = 0;
        while row < 9
            invariant
                row <= 9,
                forall|i: int| 0 <= i < 81 ==> self.pinned(i),
                forall|r2: int, c2: int|
                    0 <= r2 < row as int && 0 <= c2 < 9 ==> out@[r2]@[c2] == self.digit_at(
                        #[trigger] cell_at(r2, c2),
                    ),
            decreases 9 - row,
        {
            let mut rowvals: [u8; 9] = [0u8;9];
            let mut col: usize = 0;
            while col < 9
                invariant
                    row < 9,
                    col <= 9,
                    forall|i: int| 0 <= i < 81 ==> self.pinned(i),
                    forall|c2: int|
                        0 <= c2 < col as int ==> rowvals@[c2] == self.digit_at(
                            #[trigger] cell_at(row as int, c2),
                        ),
                decreases 9 - col,
            {
                proof {
                    lemma_cell_coords(row as int, col as int);
                }
                let idx = row * 9 + col;
                match self.cells[idx].fixed_val() {
                    Some(v) => {
                        rowvals[col] = v.value();
                    },
                    None => {
                        proof {
                            assert(self.pinned(cell_at(row as int, col as int)));
                            assert(false);
                        }
                    },
                }
                col = col + 1;
            }
            out[row] = rowvals;
            row = row + 1;
        }
        proof {
            assert forall|i: int| 0 <= i < 81 implies board_of(out)[i] == self.board()[i] by {
                lemma_cell_decompose(i);
                assert(out@[row_of(i)]@[col_of(i)] == self.digit_at(
                    cell_at(row_of(i), col_of(i)),
                ));
            }
            assert(board_of(out) =~= self.board());
            if self.wf() {
                assert forall|i: int| 0 <= i < 81 implies 1 <= #[trigger] self.board()[i]
                    <= 9 by {
                    self.lemma_pinned_cell_digit(i);
                }
                assert forall|i: int, j: int|
                    0 <= i < 81 && 0 <= j < 81 && #[trigger] peers(i, j) implies self.board()[i]
                    != self.board()[j] by {
                    assert(!self.chas(j, self.digit_at(i)));
                }
                crate::board::lemma_distinct_board_covers(self.board());
            }
        }
        Some(out)
    }
}

} // verus!
