//! Ghost model of the 9x9 board: row-major cell indexing, the peer relation,
//! and what counts as a completed sudoku solution.
//!
//! A board is modelled as a sequence of 81 digits, cell `(row, col)` sitting
//! at index `row * 9 + col`.

use vstd::prelude::*;
use vstd::arithmetic::div_mod::lemma_fundamental_div_mod_converse;
use vstd::set_lib::lemma_int_range;
use vstd::set_lib::lemma_len_subset;
use vstd::set_lib::set_int_range;

use crate::puzzle::Value;

verus! {

/// Row of cell index `i`.
pub open spec fn row_of(i: int) -> int {
    i / 9
}

/// Column of cell index `i`.
pub open spec fn col_of(i: int) -> int {
    i % 9
}

/// 3x3 block of cell index `i`, numbered row-major from the top left.
pub open spec fn block_of(i: int) -> int {
    (row_of(i) / 3) * 3 + col_of(i) / 3
}

/// Cell index of position `(row, col)`.
pub open spec fn cell_at(row: int, col: int) -> int {
    row * 9 + col
}

/// Whether two distinct cells see each other, i.e. share a row, a column or a
/// 3x3 block.
pub open spec fn peers(i: int, j: int) -> bool {
    i != j && (row_of(i) == row_of(j) || col_of(i) == col_of(j) || block_of(i) == block_of(j))
}

/// The `k`-th cell of block `b`, `k` running row-major inside the block.
pub open spec fn block_cell(b: int, k: int) -> int {
    cell_at((b / 3) * 3 + k / 3, (b % 3) * 3 + k % 3)
}

/// Every cell holds a digit 1..=9.
pub open spec fn board_complete(s: Seq<int>) -> bool {
    s.len() == 81 && (forall|i: int| 0 <= i < 81 ==> 1 <= #[trigger] s[i] <= 9)
}

/// No row, column or block holds a digit twice.
pub open spec fn board_distinct(s: Seq<int>) -> bool {
    forall|i: int, j: int| 0 <= i < 81 && 0 <= j < 81 && #[trigger] peers(i, j) ==> s[i] != s[j]
}

/// Row `r` holds digit `d` somewhere.
pub open spec fn row_covers(s: Seq<int>, r: int, d: int) -> bool {
    exists|c: int| 0 <= c < 9 && s[#[trigger] cell_at(r, c)] == d
}

/// Column `c` holds digit `d` somewhere.
pub open spec fn col_covers(s: Seq<int>, c: int, d: int) -> bool {
    exists|r: int| 0 <= r < 9 && s[#[trigger] cell_at(r, c)] == d
}

/// Block `b` holds digit `d` somewhere.
pub open spec fn block_covers(s: Seq<int>, b: int, d: int) -> bool {
    exists|k: int| 0 <= k < 9 && s[#[trigger] block_cell(b, k)] == d
}

/// Every row, every column and every block holds every digit at least once.
pub open spec fn board_covers(s: Seq<int>) -> bool {
    &&& forall|r: int, d: int| 0 <= r < 9 && 1 <= d <= 9 ==> #[trigger] row_covers(s, r, d)
    &&& forall|c: int, d: int| 0 <= c < 9 && 1 <= d <= 9 ==> #[trigger] col_covers(s, c, d)
    &&& forall|b: int, d: int| 0 <= b < 9 && 1 <= d <= 9 ==> #[trigger] block_covers(s, b, d)
}

/// A completed, valid sudoku grid: each digit 1..=9 appears exactly once in
/// every row, every column and every 3x3 block.
pub open spec fn is_solution(s: Seq<int>) -> bool {
    board_complete(s) && board_distinct(s) && board_covers(s)
}

/// The board read off a solved output grid.
pub open spec fn board_of(g: [[u8; 9]; 9]) -> Seq<int> {
    Seq::new(81, |i: int| g@[row_of(i)]@[col_of(i)] as int)
}

/// Whether a board honours every pinned cell of a puzzle.
pub open spec fn agrees(s: Seq<int>, p: Seq<Option<Value>>) -> bool {
    forall|i: int| 0 <= i < 81 ==> (#[trigger] p[i] matches Some(v) ==> s[i] == v@)
}

/// Whether a puzzle admits at least one completed solution.
pub open spec fn solvable(p: Seq<Option<Value>>) -> bool {
    exists|s: Seq<int>| is_solution(s) && agrees(s, p)
}

/// A puzzle that pins the same digit in two cells of one row, column or
/// block admits no solution at all: together with the solution iterator's
/// contract, such a puzzle can never yield a solution.
pub proof fn lemma_conflicting_pins_unsolvable(p: Seq<Option<Value>>, i: int, j: int)
    requires
        0 <= i < 81,
        0 <= j < 81,
        peers(i, j),
        p[i] is Some,
        p[j] is Some,
        p[i]->0@ == p[j]->0@,
    ensures
        !solvable(p),
{
    if solvable(p) {
        let s = choose|s: Seq<int>| is_solution(s) && agrees(s, p);
        assert(s[i] == p[i]->0@);
        assert(s[j] == p[j]->0@);
        assert(s[i] != s[j]);
    }
}

/// Coordinates of a cell index: the row-major numbering round-trips.
pub proof fn lemma_cell_coords(row: int, col: int)
    requires
        0 <= row < 9,
        0 <= col < 9,
    ensures
        0 <= cell_at(row, col) < 81,
        row_of(cell_at(row, col)) == row,
        col_of(cell_at(row, col)) == col,
{
    lemma_fundamental_div_mod_converse(row * 9 + col, 9, row, col);
}

/// Every cell index decomposes into its coordinates.
pub proof fn lemma_cell_decompose(i: int)
    requires
        0 <= i < 81,
    ensures
        0 <= row_of(i) < 9,
        0 <= col_of(i) < 9,
        i == cell_at(row_of(i), col_of(i)),
        0 <= block_of(i) < 9,
{
}

/// Block membership of a block's cells, and their coordinates.
pub proof fn lemma_block_cell(b: int, k: int)
    requires
        0 <= b < 9,
        0 <= k < 9,
    ensures
        0 <= block_cell(b, k) < 81,
        block_of(block_cell(b, k)) == b,
        row_of(block_cell(b, k)) == (b / 3) * 3 + k / 3,
        col_of(block_cell(b, k)) == (b % 3) * 3 + k % 3,
{
    let row = (b / 3) * 3 + k / 3;
    let col = (b % 3) * 3 + k % 3;
    lemma_cell_coords(row, col);
    assert(row / 3 == b / 3);
    assert(col / 3 == b % 3);
}

/// Two cells of the same block lie in the same 3-row and 3-column band.
pub proof fn lemma_same_block(i: int, j: int)
    requires
        0 <= i < 81,
        0 <= j < 81,
        block_of(i) == block_of(j),
    ensures
        row_of(i) / 3 == row_of(j) / 3,
        col_of(i) / 3 == col_of(j) / 3,
        3 * (row_of(j) / 3) <= row_of(i) < 3 * (row_of(j) / 3) + 3,
        3 * (col_of(j) / 3) <= col_of(i) < 3 * (col_of(j) / 3) + 3,
{
    lemma_cell_decompose(i);
    lemma_cell_decompose(j);
    assert(0 <= row_of(i) / 3 < 3 && 0 <= col_of(i) / 3 < 3);
    assert(0 <= row_of(j) / 3 < 3 && 0 <= col_of(j) / 3 < 3);
    assert(row_of(i) == 3 * (row_of(i) / 3) + row_of(i) % 3);
    assert(col_of(i) == 3 * (col_of(i) / 3) + col_of(i) % 3);
    assert(row_of(j) == 3 * (row_of(j) / 3) + row_of(j) % 3);
    assert(col_of(j) == 3 * (col_of(j) / 3) + col_of(j) % 3);
}

/// Nine pairwise distinct digits drawn from 1..=9 hit every digit.
proof fn lemma_nine_distinct_digits_cover(vals: Seq<int>, d: int)
    requires
        vals.len() == 9,
        forall|k: int| 0 <= k < 9 ==> 1 <= #[trigger] vals[k] <= 9,
        forall|k1: int, k2: int| 0 <= k1 < k2 < 9 ==> vals[k1] != vals[k2],
        1 <= d <= 9,
    ensures
        exists|k: int| 0 <= k < 9 && vals[k] == d,
{
    assert(vals.no_duplicates());
    vals.unique_seq_to_set();
    let vs = vals.to_set();
    let digits = set_int_range(1, 10);
    lemma_int_range(1, 10);
    assert(vs.subset_of(digits));
    if !vs.contains(d) {
        assert(vs.subset_of(digits.remove(d)));
        lemma_len_subset(vs, digits.remove(d));
        assert(false);
    }
    assert(vals.contains(d));
}

/// Pairwise distinctness along rows, columns and blocks already forces full
/// coverage: a complete, conflict-free board holds every digit in every unit.
pub proof fn lemma_distinct_board_covers(s: Seq<int>)
    requires
        board_complete(s),
        board_distinct(s),
    ensures
        board_covers(s),
{
    assert forall|r: int, d: int| 0 <= r < 9 && 1 <= d <= 9 implies #[trigger] row_covers(
        s,
        r,
        d,
    ) by {
        let vals = Seq::new(9, |k: int| s[cell_at(r, k)]);
        assert forall|k: int| 0 <= k < 9 implies 1 <= #[trigger] vals[k] <= 9 by {
            lemma_cell_coords(r, k);
        }
        assert forall|k1: int, k2: int| 0 <= k1 < k2 < 9 implies vals[k1] != vals[k2] by {
            lemma_cell_coords(r, k1);
            lemma_cell_coords(r, k2);
            assert(peers(cell_at(r, k1), cell_at(r, k2)));
        }
        lemma_nine_distinct_digits_cover(vals, d);
        let k = choose|k: int| 0 <= k < 9 && vals[k] == d;
        assert(s[cell_at(r, k)] == d);
    }
    assert forall|c: int, d: int| 0 <= c < 9 && 1 <= d <= 9 implies #[trigger] col_covers(
        s,
        c,
        d,
    ) by {
        let vals = Seq::new(9, |k: int| s[cell_at(k, c)]);
        assert forall|k: int| 0 <= k < 9 implies 1 <= #[trigger] vals[k] <= 9 by {
            lemma_cell_coords(k, c);
        }
        assert forall|k1: int, k2: int| 0 <= k1 < k2 < 9 implies vals[k1] != vals[k2] by {
            lemma_cell_coords(k1, c);
            lemma_cell_coords(k2, c);
            assert(peers(cell_at(k1, c), cell_at(k2, c)));
        }
        lemma_nine_distinct_digits_cover(vals, d);
        let k = choose|k: int| 0 <= k < 9 && vals[k] == d;
        assert(s[cell_at(k, c)] == d);
    }
    assert forall|b: int, d: int| 0 <= b < 9 && 1 <= d <= 9 implies #[trigger] block_covers(
        s,
        b,
        d,
    ) by {
        let vals = Seq::new(9, |k: int| s[block_cell(b, k)]);
        assert forall|k: int| 0 <= k < 9 implies 1 <= #[trigger] vals[k] <= 9 by {
            lemma_block_cell(b, k);
        }
        assert forall|k1: int, k2: int| 0 <= k1 < k2 < 9 implies vals[k1] != vals[k2] by {
            lemma_block_cell(b, k1);
            lemma_block_cell(b, k2);
            if row_of(block_cell(b, k1)) == row_of(block_cell(b, k2)) && col_of(
                block_cell(b, k1),
            ) == col_of(block_cell(b, k2)) {
                assert(k1 / 3 == k2 / 3 && k1 % 3 == k2 % 3);
                lemma_fundamental_div_mod_converse(k1, 3, k1 / 3, k1 % 3);
                lemma_fundamental_div_mod_converse(k2, 3, k2 / 3, k2 % 3);
                assert(false);
            }
            assert(peers(block_cell(b, k1), block_cell(b, k2)));
        }
        lemma_nine_distinct_digits_cover(vals, d);
        let k = choose|k: int| 0 <= k < 9 && vals[k] == d;
        assert(s[block_cell(b, k)] == d);
    }
}

} // verus!
