//! The lazy depth-first solution search, with cooperative cancellation, and
//! the per-cell possible-values search built on top of it.

use std::collections::BTreeSet;
use std::sync::Arc;
use std::sync::atomic::AtomicBool;
use std::sync::atomic::Ordering;

use vstd::prelude::*;
use vstd::arithmetic::power::pow;
use vstd::arithmetic::power::lemma_pow_increases;
use vstd::arithmetic::power::lemma_pow_positive;

use crate::board::agrees;
use crate::board::board_of;
use crate::board::cell_at;
use crate::board::is_solution;
use crate::board::lemma_cell_coords;
use crate::board::peers;
use crate::board::solvable;
use crate::puzzle::Grid;
use crate::puzzle::Puzzle;
use crate::puzzle::Value;
use crate::solgrid::SolutionGrid;
use crate::solgrid::consistent;
use crate::solgrid::lemma_consistent_pin_ok;

verus! {

broadcast use crate::puzzle::lemma_puzzle_view_len;

/// Relies on `Arc::clone`: the returned handle refers to the same shared
/// flag as the argument.
#[verifier::external_body]
fn clone_flag(h: &Arc<AtomicBool>) -> (r: Arc<AtomicBool>)
    ensures
        r == *h,
{
    Arc::clone(h)
}

/// Termination measure of the depth-first search: each pending grid weighs
/// three to the power of its remaining search effort.  Replacing a popped
/// grid by at most two strictly lighter children shrinks the total.
spec fn stack_measure(s: Seq<SolutionGrid>) -> nat
    decreases s.len(),
{
    if s.len() == 0 {
        0
    } else {
        stack_measure(s.drop_last()) + (pow(3, s.last().score()) as nat)
    }
}

/// Pushing a grid adds its weight to the measure.
proof fn lemma_stack_measure_push(s: Seq<SolutionGrid>, g: SolutionGrid)
    ensures
        stack_measure(s.push(g)) == stack_measure(s) + (pow(3, g.score()) as nat),
{
    assert(s.push(g).drop_last() =~= s);
    assert(s.push(g).last() == g);
}

/// One outcome of processing a single popped search frame.
enum FrameStep {
    /// A solved grid was popped and converted.
    Yielded(Grid<u8>),
    /// The sequence is over: no pending work remains.
    Finished,
    /// A frame was expanded; the search must go on.
    Again,
}

/// Iterate through the solutions of a given [`Puzzle`].  Instances are
/// usually obtained via [`Puzzle::solutions`].
///
/// The search is an explicit LIFO stack of grid snapshots.  Each advance
/// step pops one grid; a solved grid is yielded, any other is branched on
/// the fuzzy cell with fewest candidates into an exclude child and an
/// include child (pushed last, so it is explored first).
///
/// Ghost state tracks the run: `yielded` is the history of produced boards,
/// `cancelled` records whether a flag read ever came back `false`.  The
/// invariants tie them to the pending stack: the pending grids reach
/// pairwise disjoint sets of boards, none of which was yielded before, so
/// the history never repeats a board; and while no read returned `false`,
/// every solution of the puzzle is either already in the history or still
/// reachable from a pending grid.
pub struct SolutionIterator {
    stack: Vec<SolutionGrid>,
    keep_going: Arc<AtomicBool>,
    origin: Ghost<Seq<Option<Value>>>,
    yielded: Ghost<Seq<Seq<int>>>,
    cancelled: Ghost<bool>,
}

impl SolutionIterator {
    #[verifier::type_invariant]
    spec fn inv(self) -> bool {
        &&& forall|k: int|
            0 <= k < self.stack@.len() ==> (#[trigger] self.stack@[k]).wf()
                && self.stack@[k].refines(self.origin@)
        &&& forall|j: int|
            0 <= j < self.yielded@.len() ==> is_solution(#[trigger] self.yielded@[j]) && agrees(
                self.yielded@[j],
                self.origin@,
            )
        &&& self.yielded@.no_duplicates()
        &&& forall|j: int, k: int|
            0 <= j < self.yielded@.len() && 0 <= k < self.stack@.len() ==> !consistent(
                #[trigger] self.yielded@[j],
                #[trigger] self.stack@[k],
            )
        &&& forall|k1: int, k2: int, s: Seq<int>|
            0 <= k1 < k2 < self.stack@.len() ==> !(#[trigger] consistent(s, self.stack@[k1])
                && #[trigger] consistent(s, self.stack@[k2]))
    }

    /// The puzzle this iterator searches solutions of.
    pub closed spec fn origin(self) -> Seq<Option<Value>> {
        self.origin@
    }

    /// The pending search frontier, most recently pushed grid last.
    pub closed spec fn pending(self) -> Seq<SolutionGrid> {
        self.stack@
    }

    /// The boards yielded so far, in order.
    pub closed spec fn history(self) -> Seq<Seq<int>> {
        self.yielded@
    }

    /// Whether a read of the shared flag ever came back `false`.
    pub closed spec fn cancelled(self) -> bool {
        self.cancelled@
    }

    /// The shared cancellation flag.
    pub closed spec fn flag(self) -> Arc<AtomicBool> {
        self.keep_going
    }

    /// Whether the sequence is over: no pending search node remains.  Once
    /// exhausted, an iterator stays exhausted forever.
    pub open spec fn is_exhausted(self) -> bool {
        self.pending().len() == 0
    }

    /// Nothing has been lost: every solution of the puzzle was either
    /// already yielded or is still reachable from a pending grid.  This
    /// holds from construction on, and is preserved by every advance step
    /// whose flag reads come back `true`.
    pub open spec fn exhaustive(self) -> bool {
        forall|s: Seq<int>|
            is_solution(s) && #[trigger] agrees(s, self.origin()) ==> self.history().contains(s)
                || exists|k: int| 0 <= k < self.pending().len() && consistent(s, self.pending()[k])
    }

    /// Create an iterator over the solutions of the given [`Puzzle`].  It
    /// starts with an empty history and full coverage: every solution of the
    /// puzzle is reachable.  When the seed grid already exposes a
    /// contradiction the sequence starts exhausted; that can only happen if
    /// the puzzle has no solution at all.
    pub fn new(problem: &Puzzle) -> (r: Self)
        ensures
            r.origin() == problem@,
            r.history() == Seq::<Seq<int>>::empty(),
            !r.cancelled(),
            r.exhaustive(),
            r.is_exhausted() ==> !solvable(problem@),
    {
        let mut stack: Vec<SolutionGrid> = Vec::with_capacity(81);
        match SolutionGrid::from_puzzle(problem) {
            Ok(grid) => {
                stack.push(grid);
                let it = SolutionIterator {
                    stack,
                    keep_going: Arc::new(AtomicBool::new(true)),
                    origin: Ghost(problem@),
                    yielded: Ghost(Seq::empty()),
                    cancelled: Ghost(false),
                };
                proof {
                    assert forall|s: Seq<int>|
                        is_solution(s) && #[trigger] agrees(s, it.origin()) implies it
                        .history().contains(s) || exists|k: int|
                        0 <= k < it.pending().len() && consistent(s, it.pending()[k]) by {
                        assert(consistent(s, it.pending()[0]));
                    }
                }
                it
            },
            Err(_) => {
                let it = SolutionIterator {
                    stack,
                    keep_going: Arc::new(AtomicBool::new(true)),
                    origin: Ghost(problem@),
                    yielded: Ghost(Seq::empty()),
                    cancelled: Ghost(false),
                };
                proof {
                    assert forall|s: Seq<int>|
                        is_solution(s) && #[trigger] agrees(s, it.origin()) implies it
                        .history().contains(s) || exists|k: int|
                        0 <= k < it.pending().len() && consistent(s, it.pending()[k]) by {
                        assert(solvable(problem@));
                    }
                }
                it
            },
        }
    }

    /// Set the `Arc<AtomicBool>` used as a "keep going" flag.  This is
    /// useful when running the iterator in its own thread: storing `false`
    /// in the flag from elsewhere makes the iterator drop all pending work
    /// at its next advance step.  The pending frontier and the history are
    /// kept; only the flag is replaced.
    pub fn with_handle(self, keep_going: Arc<AtomicBool>) -> (r: Self)
        ensures
            r.origin() == self.origin(),
            r.pending() == self.pending(),
            r.history() == self.history(),
            r.cancelled() == self.cancelled(),
            r.flag() == keep_going,
    {
        proof {
            use_type_invariant(&self);
        }
        let SolutionIterator { stack, keep_going: _, origin, yielded, cancelled } = self;
        SolutionIterator { stack, keep_going, origin, yielded, cancelled }
    }

    /// Pop the most recently pushed pending grid, if any.
    fn pop_grid(&mut self) -> (r: Option<SolutionGrid>)
        ensures
            final(self).origin@ == old(self).origin@,
            final(self).keep_going == old(self).keep_going,
            final(self).yielded@ == old(self).yielded@,
            final(self).cancelled@ == old(self).cancelled@,
            match r {
                None => old(self).stack@.len() == 0 && final(self).stack@ == old(self).stack@,
                Some(g) => {
                    &&& old(self).stack@.len() > 0
                    &&& g == old(self).stack@.last()
                    &&& final(self).stack@ == old(self).stack@.drop_last()
                    &&& g.wf()
                    &&& g.refines(old(self).origin@)
                    &&& forall|j: int|
                        0 <= j < final(self).yielded@.len() ==> !consistent(
                            #[trigger] final(self).yielded@[j],
                            g,
                        )
                    &&& forall|k: int, s: Seq<int>|
                        0 <= k < final(self).stack@.len() ==> !(consistent(s, g)
                            && #[trigger] consistent(s, final(self).stack@[k]))
                },
            },
    {
        proof {
            use_type_invariant(&*self);
        }
        let mut stack: Vec<SolutionGrid> = Vec::new();
        std::mem::swap(&mut stack, &mut self.stack);
        let r = stack.pop();
        std::mem::swap(&mut stack, &mut self.stack);
        proof {
            if old(self).stack@.len() > 0 {
                assert(final(self).stack@ =~= old(self).stack@.drop_last());
            }
        }
        r
    }

    /// Drop all pending work.
    fn clear_stack(&mut self)
        ensures
            final(self).origin@ == old(self).origin@,
            final(self).keep_going == old(self).keep_going,
            final(self).yielded@ == old(self).yielded@,
            final(self).cancelled@ == old(self).cancelled@,
            final(self).stack@.len() == 0,
    {
        proof {
            use_type_invariant(&*self);
        }
        let empty: Vec<SolutionGrid> = Vec::new();
        self.stack = empty;
    }

    /// Run propagation on a candidate child grid and push it on the stack,
    /// unless it turns out contradictory.  The grid is pushed, in its
    /// propagated state, exactly when propagation succeeds; a contradictory
    /// grid reaches no solution at all and is discarded.
    fn maximize_and_push(&mut self, grid: SolutionGrid)
        requires
            grid.wf(),
            grid.refines(old(self).origin@),
            forall|j: int|
                0 <= j < old(self).yielded@.len() ==> !consistent(
                    #[trigger] old(self).yielded@[j],
                    grid,
                ),
            forall|k: int, s: Seq<int>|
                0 <= k < old(self).stack@.len() ==> !(consistent(s, grid) && #[trigger] consistent(
                    s,
                    old(self).stack@[k],
                )),
        ensures
            final(self).origin@ == old(self).origin@,
            final(self).keep_going == old(self).keep_going,
            final(self).yielded@ == old(self).yielded@,
            final(self).cancelled@ == old(self).cancelled@,
            stack_measure(final(self).stack@) <= stack_measure(old(self).stack@) + (pow(
                3,
                grid.score(),
            ) as nat),
            (final(self).stack@ == old(self).stack@ && (forall|s: Seq<int>|
                is_solution(s) ==> !(#[trigger] consistent(s, grid)))) || (exists|g2: SolutionGrid|
                {
                    &&& final(self).stack@ == old(self).stack@.push(g2)
                    &&& forall|s: Seq<int>|
                        is_solution(s) && #[trigger] consistent(s, grid) ==> consistent(s, g2)
                    &&& forall|s: Seq<int>| #[trigger] consistent(s, g2) ==> consistent(s, grid)
                }),
    {
        proof {
            use_type_invariant(&*self);
        }
        let ghost g0 = grid;
        let mut grid = grid;
        let res = grid.maximize_constraints();
        let mut stack: Vec<SolutionGrid> = Vec::new();
        std::mem::swap(&mut stack, &mut self.stack);
        if res.is_ok() {
            proof {
                assert forall|i: int| 0 <= i < 81 && g0.pinned(i) implies grid.pinned(i) by {
                    assert(grid.pinned(i) && grid.digit_at(i) == g0.digit_at(i));
                }
                crate::solgrid::lemma_score_le(g0, grid);
                lemma_pow_positive(3, grid.score());
                lemma_pow_positive(3, g0.score());
                lemma_pow_increases(3, grid.score(), g0.score());
                lemma_stack_measure_push(old(self).stack@, grid);
                assert forall|i: int|
                    0 <= i < 81 implies (#[trigger] old(self).origin@[i] matches Some(v)
                    ==> grid.pinned(i) && grid.digit_at(i) == v@) by {
                    if old(self).origin@[i] is Some {
                        let v = old(self).origin@[i]->0;
                        assert(g0.pinned(i) && g0.digit_at(i) == v@);
                    }
                }
                assert forall|s: Seq<int>| #[trigger] consistent(s, grid) implies consistent(
                    s,
                    g0,
                ) by {
                    assert forall|i: int| 0 <= i < 81 implies g0.chas(i, #[trigger] s[i]) by {
                        assert(grid.chas(i, s[i]));
                    }
                }
            }
            stack.push(grid);
        }
        std::mem::swap(&mut stack, &mut self.stack);
        proof {
            if res is Ok {
                assert(final(self).stack@ == old(self).stack@.push(grid));
            }
        }
    }

    /// Process one popped frame, given the value that the cancellation flag
    /// showed for this step.  A `false` reading drops all pending work and
    /// marks the run cancelled; a `true` reading either finishes (empty
    /// stack), yields the board of a solved popped grid (never a board
    /// yielded before), or expands the popped grid into its children,
    /// strictly shrinking the termination measure and losing no solution.
    fn advance_frame(&mut self, keep_going: bool) -> (r: FrameStep)
        ensures
            final(self).origin@ == old(self).origin@,
            final(self).keep_going == old(self).keep_going,
            old(self).cancelled@ ==> final(self).cancelled@,
            !keep_going ==> final(self).cancelled@ && final(self).stack@.len() == 0
                && final(self).yielded@ == old(self).yielded@ && r is Finished,
            keep_going ==> final(self).cancelled@ == old(self).cancelled@,
            keep_going && old(self).stack@.len() == 0 ==> r is Finished
                && final(self).stack@ == old(self).stack@,
            keep_going && old(self).exhaustive() ==> final(self).exhaustive(),
            match r {
                FrameStep::Yielded(g) => {
                    &&& keep_going
                    &&& old(self).stack@.len() > 0
                    &&& board_of(g) == old(self).stack@.last().board()
                    &&& final(self).stack@ == old(self).stack@.drop_last()
                    &&& is_solution(board_of(g))
                    &&& agrees(board_of(g), old(self).origin@)
                    &&& final(self).yielded@ == old(self).yielded@.push(board_of(g))
                    &&& !old(self).yielded@.contains(board_of(g))
                },
                FrameStep::Finished => final(self).yielded@ == old(self).yielded@
                    && final(self).stack@.len() == 0,
                FrameStep::Again => final(self).yielded@ == old(self).yielded@ && keep_going
                    && stack_measure(final(self).stack@) < stack_measure(old(self).stack@),
            },
    {
        if !keep_going {
            proof {
                use_type_invariant(&*self);
            }
            self.cancelled = Ghost(true);
            self.clear_stack();
            return FrameStep::Finished;
        }
        let ghost m_head = stack_measure(self.stack@);
        let ghost stack_head = self.stack@;
        let ghost orig = self.origin@;
        let popped = self.pop_grid();
        if popped.is_none() {
            proof {
                if old(self).exhaustive() {
                    assert forall|s: Seq<int>|
                        is_solution(s) && #[trigger] agrees(s, self.origin()) implies self
                        .history().contains(s) || exists|k: int|
                        0 <= k < self.pending().len() && consistent(s, self.pending()[k]) by {
                        assert(agrees(s, old(self).origin()));
                    }
                }
            }
            return FrameStep::Finished;
        }
        let mut grid = popped.unwrap();
        proof {
            assert(stack_head.drop_last().push(grid) =~= stack_head);
            lemma_stack_measure_push(stack_head.drop_last(), grid);
            lemma_pow_positive(3, grid.score());
        }
        let ghost m_popped = stack_measure(self.stack@);
        if grid.is_solved() {
            let out = grid.into_grid();
            proof {
                let b = board_of(out->0);
                assert forall|i: int|
                    0 <= i < 81 implies (#[trigger] orig[i] matches Some(v) ==> b[i] == v@) by {
                    if orig[i] is Some {
                        let v = orig[i]->0;
                        assert(grid.pinned(i) && grid.digit_at(i) == v@);
                    }
                }
                // the popped solved grid still admits its own board
                assert forall|i: int| 0 <= i < 81 implies grid.chas(i, #[trigger] b[i]) by {
                    grid.lemma_pinned_chas(i);
                    assert(b[i] == grid.board()[i]);
                }
                assert(consistent(b, grid));
                // so the board cannot be a board yielded earlier
                if self.yielded@.contains(b) {
                    let j = choose|j: int| 0 <= j < self.yielded@.len() && self.yielded@[j] == b;
                    assert(!consistent(self.yielded@[j], grid));
                    assert(false);
                }
                use_type_invariant(&*self);
            }
            let ghost b = board_of(out->0);
            proof {
                // and it is not reachable from any remaining pending grid
                assert forall|k: int| 0 <= k < self.stack@.len() implies !consistent(
                    b,
                    #[trigger] self.stack@[k],
                ) by {}
            }
            self.yielded = Ghost(self.yielded@.push(b));
            proof {
                // coverage: a solution reachable from the popped grid is its board
                assert forall|s: Seq<int>|
                    is_solution(s) && consistent(s, grid) implies s =~= b by {
                    assert forall|i: int| 0 <= i < 81 implies s[i] == b[i] by {
                        grid.lemma_pinned_chas(i);
                        assert(grid.chas(i, s[i]));
                    }
                }
                if old(self).exhaustive() {
                    assert forall|s: Seq<int>|
                        is_solution(s) && #[trigger] agrees(s, self.origin()) implies self
                        .history().contains(s) || exists|k: int|
                        0 <= k < self.pending().len() && consistent(s, self.pending()[k]) by {
                        assert(agrees(s, old(self).origin()));
                        if old(self).history().contains(s) {
                            let j = choose|j: int|
                                0 <= j < old(self).yielded@.len() && old(self).yielded@[j] == s;
                            assert(self.yielded@[j] == s);
                        } else {
                            let k0 = choose|k0: int|
                                0 <= k0 < old(self).stack@.len() && consistent(
                                    s,
                                    old(self).stack@[k0],
                                );
                            if k0 < old(self).stack@.len() - 1 {
                                assert(self.stack@[k0] == old(self).stack@[k0]);
                                assert(consistent(s, self.pending()[k0]));
                            } else {
                                assert(consistent(s, grid));
                                assert(s =~= b);
                                assert(self.yielded@[self.yielded@.len() - 1] == s);
                            }
                        }
                    }
                }
            }
            return FrameStep::Yielded(out.unwrap());
        }
        let found = grid.find_least_sols_fuzzy();
        if found.is_none() {
            proof {
                assert(false);
            }
            return FrameStep::Finished;
        }
        let (row, col, sc) = found.unwrap();
        let ghost ti = cell_at(row as int, col as int);
        proof {
            lemma_cell_coords(row as int, col as int);
        }
        let smallest = sc.smallest_solution();
        if smallest.is_none() {
            proof {
                // a fuzzy cell with an empty domain admits no solution at all:
                // dropping the frame loses nothing
                assert forall|s: Seq<int>| consistent(s, grid) implies false by {
                    assert(grid.chas(ti, s[ti]));
                    assert(sc.has(s[ti]));
                    assert(!sc.has(s[ti]));
                }
                if old(self).exhaustive() {
                    assert forall|s: Seq<int>|
                        is_solution(s) && #[trigger] agrees(s, self.origin()) implies self
                        .history().contains(s) || exists|k: int|
                        0 <= k < self.pending().len() && consistent(s, self.pending()[k]) by {
                        assert(agrees(s, old(self).origin()));
                        if !old(self).history().contains(s) {
                            let k0 = choose|k0: int|
                                0 <= k0 < old(self).stack@.len() && consistent(
                                    s,
                                    old(self).stack@[k0],
                                );
                            assert(k0 < old(self).stack@.len() - 1);
                            assert(self.stack@[k0] == old(self).stack@[k0]);
                            assert(consistent(s, self.pending()[k0]));
                        }
                    }
                }
            }
            return FrameStep::Again;
        }
        let val = smallest.unwrap();
        let ghost g_parent = grid;
        let mut new_grid = grid;
        let exclude = grid.forbid(row, col, val);
        proof {
            if exclude is Ok {
                assert forall|i: int| 0 <= i < 81 && g_parent.pinned(i) implies grid.pinned(i) by {
                    if i != ti {
                        assert(crate::solgrid::same_cell(grid, g_parent, i));
                    }
                }
                assert forall|i: int, d: int|
                    0 <= i < 81 && #[trigger] grid.chas(i, d) implies g_parent.chas(i, d) by {
                    if i != ti {
                        assert(crate::solgrid::same_cell(grid, g_parent, i));
                    }
                }
                crate::solgrid::lemma_score_lt_forbidden(g_parent, grid, ti, val@);
                assert forall|i: int|
                    0 <= i < 81 implies (#[trigger] orig[i] matches Some(v) ==> grid.pinned(i)
                    && grid.digit_at(i) == v@) by {
                    if orig[i] is Some {
                        let v = orig[i]->0;
                        assert(g_parent.pinned(i) && g_parent.digit_at(i) == v@);
                        if i != ti {
                            assert(crate::solgrid::same_cell(grid, g_parent, i));
                        }
                    }
                }
                // anything reachable from the exclude child was reachable from
                // the parent, and avoids `val` at the branch cell
                assert forall|s: Seq<int>| #[trigger] consistent(s, grid) implies consistent(
                    s,
                    g_parent,
                ) && s[ti] != val@ by {
                    assert(grid.chas(ti, s[ti]));
                    assert forall|i: int| 0 <= i < 81 implies g_parent.chas(
                        i,
                        #[trigger] s[i],
                    ) by {
                        assert(grid.chas(i, s[i]));
                    }
                }
            }
        }
        let ghost sc_p = g_parent.score();
        proof {
            crate::soft::lemma_has_nonzero_count(sc, val@);
            crate::solgrid::lemma_score_fuzzy_lower(g_parent, ti);
            assert(sc_p >= 1);
            lemma_pow_positive(3, (sc_p - 1) as nat);
        }
        let ghost w_child = pow(3, (sc_p - 1) as nat) as nat;
        let ghost stack_mid = self.stack@;
        if exclude.is_ok() {
            proof {
                lemma_pow_positive(3, grid.score());
                lemma_pow_increases(3, grid.score(), (sc_p - 1) as nat);
            }
            self.maximize_and_push(grid);
        }
        proof {
            assert(stack_measure(self.stack@) <= m_popped + w_child);
        }
        let ghost stack_ex = self.stack@;
        let ghost m_ex = stack_measure(self.stack@);
        let pin_res = new_grid.pin(row, col, val);
        proof {
            if pin_res is Ok {
                assert forall|i: int|
                    0 <= i < 81 && g_parent.pinned(i) implies new_grid.pinned(i) by {
                    if i != ti {
                        assert(new_grid.pinned(i) && new_grid.digit_at(i) == g_parent.digit_at(
                            i,
                        ));
                    }
                }
                assert forall|i: int, d: int|
                    0 <= i < 81 && #[trigger] new_grid.chas(i, d) implies g_parent.chas(i, d) by {}
                assert(exists|d: int| g_parent.chas(ti, d));
                crate::solgrid::lemma_score_lt_pinned(g_parent, new_grid, ti);
                assert forall|i: int|
                    0 <= i < 81 implies (#[trigger] orig[i] matches Some(v) ==> new_grid.pinned(i)
                    && new_grid.digit_at(i) == v@) by {
                    if orig[i] is Some {
                        let v = orig[i]->0;
                        assert(g_parent.pinned(i) && g_parent.digit_at(i) == v@);
                    }
                }
                // anything reachable from the include child was reachable from
                // the parent, and places `val` at the branch cell
                assert forall|s: Seq<int>| #[trigger] consistent(s, new_grid) implies consistent(
                    s,
                    g_parent,
                ) && s[ti] == val@ by {
                    assert(new_grid.chas(ti, s[ti]));
                    assert forall|i: int| 0 <= i < 81 implies g_parent.chas(
                        i,
                        #[trigger] s[i],
                    ) by {
                        assert(new_grid.chas(i, s[i]));
                    }
                }
                // disjoint from everything already pending, including the
                // exclude child just pushed
                assert forall|k: int, s: Seq<int>|
                    0 <= k < self.stack@.len() implies !(consistent(s, new_grid)
                    && #[trigger] consistent(s, self.stack@[k])) by {
                    if k < stack_mid.len() {
                        assert(self.stack@[k] == stack_mid[k]);
                    } else {
                        assert(exclude is Ok);
                        let g2 = self.stack@[k];
                        if consistent(s, new_grid) && consistent(s, g2) {
                            assert(consistent(s, grid));
                            assert(s[ti] != val@ && s[ti] == val@);
                        }
                    }
                }
            }
        }
        if pin_res.is_ok() {
            proof {
                lemma_pow_positive(3, new_grid.score());
                lemma_pow_increases(3, new_grid.score(), (sc_p - 1) as nat);
            }
            self.maximize_and_push(new_grid);
        }
        proof {
            assert(stack_measure(self.stack@) <= m_ex + w_child);
            vstd::arithmetic::power::lemma_pow_adds(3, 1, (sc_p - 1) as nat);
            vstd::arithmetic::power::lemma_pow1(3);
            lemma_pow_positive(3, sc_p);
            assert(pow(3, sc_p) == 3 * pow(3, (sc_p - 1) as nat));
            assert(m_head == m_popped + (pow(3, sc_p) as nat));
            assert(stack_measure(self.stack@) < m_head);
            // coverage: every solution reachable from the popped parent is
            // reachable from one of the pushed children
            assert forall|s: Seq<int>|
                is_solution(s) && #[trigger] consistent(s, g_parent) implies exists|k: int|
                0 <= k < self.pending().len() && consistent(s, self.pending()[k]) by {
                if s[ti] == val@ {
                    lemma_consistent_pin_ok(g_parent, s, ti, val@);
                    assert(pin_res is Ok);
                    assert forall|i: int| 0 <= i < 81 implies new_grid.chas(
                        i,
                        #[trigger] s[i],
                    ) by {
                        if peers(ti, i) {
                            assert(s[i] != s[ti]);
                        }
                        assert(g_parent.chas(i, s[i]));
                    }
                    assert(consistent(s, new_grid));
                    let g3 = choose|g3: SolutionGrid|
                        {
                            &&& self.stack@ == stack_ex.push(g3)
                            &&& forall|s2: Seq<int>|
                                is_solution(s2) && #[trigger] consistent(s2, new_grid)
                                    ==> consistent(s2, g3)
                            &&& forall|s2: Seq<int>| #[trigger] consistent(s2, g3) ==> consistent(
                                s2,
                                new_grid,
                            )
                        };
                    assert(consistent(s, g3));
                    let k = stack_ex.len() as int;
                    assert(self.stack@[k] == g3);
                    assert(consistent(s, self.pending()[k]));
                } else {
                    assert(g_parent.chas(ti, s[ti]) && s[ti] != val@);
                    assert(exclude is Ok);
                    assert forall|i: int| 0 <= i < 81 implies grid.chas(i, #[trigger] s[i]) by {
                        assert(g_parent.chas(i, s[i]));
                        if i != ti {
                            assert(crate::solgrid::same_cell(grid, g_parent, i));
                        }
                    }
                    assert(consistent(s, grid));
                    let g2 = choose|g2: SolutionGrid|
                        {
                            &&& stack_ex == stack_mid.push(g2)
                            &&& forall|s2: Seq<int>|
                                is_solution(s2) && #[trigger] consistent(s2, grid) ==> consistent(
                                    s2,
                                    g2,
                                )
                            &&& forall|s2: Seq<int>| #[trigger] consistent(s2, g2) ==> consistent(
                                s2,
                                grid,
                            )
                        };
                    assert(consistent(s, g2));
                    let k = stack_mid.len() as int;
                    assert(stack_ex[k] == g2);
                    assert(self.stack@[k] == g2);
                    assert(consistent(s, self.pending()[k]));
                }
            }
            // a solution covered by the rest of the old frontier stays covered
            assert forall|k: int|
                0 <= k < stack_head.len() - 1 implies self.stack@[k] == stack_head[k] by {}
            if old(self).exhaustive() {
                assert forall|s: Seq<int>|
                    is_solution(s) && #[trigger] agrees(s, self.origin()) implies self
                    .history().contains(s) || exists|k: int|
                    0 <= k < self.pending().len() && consistent(s, self.pending()[k]) by {
                    assert(agrees(s, old(self).origin()));
                    if !old(self).history().contains(s) {
                        let k0 = choose|k0: int|
                            0 <= k0 < old(self).stack@.len() && consistent(
                                s,
                                old(self).stack@[k0],
                            );
                        if k0 < old(self).stack@.len() - 1 {
                            assert(self.stack@[k0] == old(self).stack@[k0]);
                            assert(consistent(s, self.pending()[k0]));
                        } else {
                            assert(consistent(s, g_parent));
                        }
                    }
                }
            }
        }
        FrameStep::Again
    }

    /// Advance the depth-first search until a solved grid is produced or
    /// the pending work (or the cancellation flag) runs out.
    ///
    /// Every yielded board is a valid sudoku solution honouring every
    /// originally pinned cell; it is appended to the history and never
    /// repeats an earlier yield.  Once `None` is returned the iterator is
    /// exhausted and stays so.  The flag is read once per popped frame; a
    /// `false` reading drops all pending work, ends the sequence and marks
    /// the run cancelled.  On a run that was never cancelled nothing is
    /// lost, so `None` then means the history holds every solution of the
    /// puzzle, each yielded exactly once.
    pub fn next(&mut self) -> (r: Option<Grid<u8>>)
        ensures
            final(self).origin() == old(self).origin(),
            old(self).is_exhausted() ==> r is None,
            r is None ==> final(self).is_exhausted(),
            r matches Some(g) ==> is_solution(board_of(g)) && agrees(
                board_of(g),
                old(self).origin(),
            ),
            r matches Some(g) ==> final(self).history() == old(self).history().push(board_of(g))
                && !old(self).history().contains(board_of(g)),
            r is None ==> final(self).history() == old(self).history(),
            old(self).cancelled() ==> final(self).cancelled(),
            r is Some ==> final(self).cancelled() == old(self).cancelled(),
            old(self).exhaustive() ==> final(self).exhaustive() || final(self).cancelled(),
            r is None && final(self).exhaustive() ==> forall|s: Seq<int>|
                is_solution(s) && #[trigger] agrees(s, old(self).origin())
                    ==> final(self).history().contains(s),
            final(self).history().no_duplicates(),
    {
        let ghost pre = *self;
        loop
            invariant
                pre == *old(self),
                self.origin@ == pre.origin@,
                self.yielded@ == pre.yielded@,
                self.cancelled@ == pre.cancelled@,
                pre.stack@.len() == 0 ==> self.stack@.len() == 0,
                pre.exhaustive() ==> self.exhaustive(),
            decreases stack_measure(self.stack@),
        {
            let kg = self.keep_going.load(Ordering::Relaxed);
            let step = self.advance_frame(kg);
            match step {
                FrameStep::Yielded(g) => {
                    proof {
                        use_type_invariant(&*self);
                    }
                    return Some(g);
                },
                FrameStep::Finished => {
                    proof {
                        use_type_invariant(&*self);
                    }
                    proof {
                        if self.exhaustive() {
                            assert forall|s: Seq<int>|
                                is_solution(s) && #[trigger] agrees(s, pre.origin@) implies self
                                .history().contains(s) by {
                                assert(agrees(s, self.origin()));
                            }
                        }
                    }
                    return None;
                },
                FrameStep::Again => {
                },
            }
        }
    }
}

impl Clone for SolutionIterator {
    /// Deep-copy the pending search stack, so that the two iterators evolve
    /// independently from the same frontier, history and origin; the clone
    /// shares the same cancellation flag.
    fn clone(&self) -> (r: Self)
        ensures
            r.origin() == self.origin(),
            r.pending() == self.pending(),
            r.history() == self.history(),
            r.cancelled() == self.cancelled(),
            r.flag() == self.flag(),
    {
        proof {
            use_type_invariant(&*self);
        }
        let mut stack: Vec<SolutionGrid> = Vec::new();
        let mut k: usize = 0;
        let n = self.stack.len();
        while k < n
            invariant
                k <= n,
                n == self.stack@.len(),
                stack@ == self.stack@.subrange(0, k as int),
            decreases n - k,
        {
            stack.push(self.stack[k]);
            proof {
                assert(stack@ =~= self.stack@.subrange(0, k as int + 1));
            }
            k = k + 1;
        }
        proof {
            assert(stack@ =~= self.stack@);
        }
        SolutionIterator {
            stack,
            keep_going: clone_flag(&self.keep_going),
            origin: Ghost(self.origin@),
            yielded: Ghost(self.yielded@),
            cancelled: Ghost(self.cancelled@),
        }
    }
}

/// An exhausted, never-cancelled run has missed nothing: its history holds
/// every solution of its puzzle — and, the history never repeating a board,
/// each solution was yielded exactly once.
pub proof fn lemma_exhausted_run_complete(it: SolutionIterator)
    requires
        it.exhaustive(),
        it.is_exhausted(),
    ensures
        forall|s: Seq<int>|
            is_solution(s) && #[trigger] agrees(s, it.origin()) ==> it.history().contains(s),
{
}

/// Digit `d` still admits a full solution at cell `i` of puzzle `p`.
pub open spec fn admits(p: Seq<Option<Value>>, i: int, d: int) -> bool {
    exists|s: Seq<int>| is_solution(s) && #[trigger] agrees(s, p) && s[i] == d
}

/// Run propagation on a candidate child grid and push it onto a plain
/// frontier, unless it turns out contradictory.  The grid is pushed, in its
/// propagated state, exactly when propagation succeeds; a contradictory
/// grid reaches no solution at all and is discarded.
fn maximize_into(
    stack: &mut Vec<SolutionGrid>,
    grid: SolutionGrid,
    Ghost(origin): Ghost<Seq<Option<Value>>>,
)
    requires
        grid.wf(),
        grid.refines(origin),
        forall|k: int|
            0 <= k < old(stack)@.len() ==> (#[trigger] old(stack)@[k]).wf()
                && old(stack)@[k].refines(origin),
    ensures
        forall|k: int|
            0 <= k < final(stack)@.len() ==> (#[trigger] final(stack)@[k]).wf()
                && final(stack)@[k].refines(origin),
        stack_measure(final(stack)@) <= stack_measure(old(stack)@) + (pow(3, grid.score()) as nat),
        forall|k: int| 0 <= k < old(stack)@.len() ==> final(stack)@[k] == old(stack)@[k],
        (final(stack)@ == old(stack)@ && (forall|s: Seq<int>|
            is_solution(s) ==> !(#[trigger] consistent(s, grid)))) || (exists|g2: SolutionGrid|
            {
                &&& final(stack)@ == old(stack)@.push(g2)
                &&& forall|s: Seq<int>|
                    is_solution(s) && #[trigger] consistent(s, grid) ==> consistent(s, g2)
                &&& forall|s: Seq<int>| #[trigger] consistent(s, g2) ==> consistent(s, grid)
            }),
{
    let ghost g0 = grid;
    let mut grid = grid;
    let res = grid.maximize_constraints();
    if res.is_ok() {
        proof {
            assert forall|i: int| 0 <= i < 81 && g0.pinned(i) implies grid.pinned(i) by {
                assert(grid.pinned(i) && grid.digit_at(i) == g0.digit_at(i));
            }
            crate::solgrid::lemma_score_le(g0, grid);
            lemma_pow_positive(3, grid.score());
            lemma_pow_positive(3, g0.score());
            lemma_pow_increases(3, grid.score(), g0.score());
            lemma_stack_measure_push(old(stack)@, grid);
            assert forall|i: int|
                0 <= i < 81 implies (#[trigger] origin[i] matches Some(v) ==> grid.pinned(i)
                && grid.digit_at(i) == v@) by {
                if origin[i] is Some {
                    let v = origin[i]->0;
                    assert(g0.pinned(i) && g0.digit_at(i) == v@);
                }
            }
            assert forall|s: Seq<int>| #[trigger] consistent(s, grid) implies consistent(
                s,
                g0,
            ) by {
                assert forall|i: int| 0 <= i < 81 implies g0.chas(i, #[trigger] s[i]) by {
                    assert(grid.chas(i, s[i]));
                }
            }
        }
        stack.push(grid);
    }
}

/// Find one solution of a puzzle, or establish that none exists.  This is
/// the finder's probe: it runs the same depth-first search as
/// [`SolutionIterator`], but with no cancellation flag, so a `None` answer
/// proves the probed puzzle unsolvable.
fn probe_solution(pzl: &Puzzle) -> (r: Option<Grid<u8>>)
    ensures
        match r {
            Some(g) => is_solution(board_of(g)) && agrees(board_of(g), pzl@),
            None => !solvable(pzl@),
        },
{
    let mut stack: Vec<SolutionGrid> = Vec::with_capacity(81);
    match SolutionGrid::from_puzzle(pzl) {
        Ok(grid) => {
            stack.push(grid);
            proof {
                assert forall|s: Seq<int>|
                    is_solution(s) && #[trigger] agrees(s, pzl@) implies exists|k: int|
                    0 <= k < stack@.len() && consistent(s, stack@[k]) by {
                    assert(consistent(s, stack@[0]));
                }
            }
        },
        Err(_) => {
            return None;
        },
    }
    loop
        invariant
            forall|k: int|
                0 <= k < stack@.len() ==> (#[trigger] stack@[k]).wf() && stack@[k].refines(pzl@),
            forall|s: Seq<int>|
                is_solution(s) && #[trigger] agrees(s, pzl@) ==> exists|k: int|
                    0 <= k < stack@.len() && consistent(s, stack@[k]),
        decreases stack_measure(stack@),
    {
        let ghost stack_head = stack@;
        let popped = stack.pop();
        if popped.is_none() {
            proof {
                if solvable(pzl@) {
                    let s = choose|s: Seq<int>| is_solution(s) && agrees(s, pzl@);
                    assert(false);
                }
            }
            return None;
        }
        let grid = popped.unwrap();
        proof {
            assert(stack@ =~= stack_head.drop_last());
            assert(stack_head.drop_last().push(grid) =~= stack_head);
            lemma_stack_measure_push(stack_head.drop_last(), grid);
            lemma_pow_positive(3, grid.score());
        }
        let ghost m_popped = stack_measure(stack@);
        let ghost m_head = stack_measure(stack_head);
        if grid.is_solved() {
            let out = grid.into_grid();
            proof {
                let b = board_of(out->0);
                assert forall|i: int|
                    0 <= i < 81 implies (#[trigger] pzl@[i] matches Some(v) ==> b[i] == v@) by {
                    if pzl@[i] is Some {
                        let v = pzl@[i]->0;
                        assert(grid.pinned(i) && grid.digit_at(i) == v@);
                    }
                }
            }
            return Some(out.unwrap());
        }
        let found = grid.find_least_sols_fuzzy();
        if found.is_none() {
            proof {
                assert(false);
            }
            return None;
        }
        let (row, col, sc) = found.unwrap();
        let ghost ti = cell_at(row as int, col as int);
        proof {
            lemma_cell_coords(row as int, col as int);
        }
        let smallest = sc.smallest_solution();
        if smallest.is_none() {
            proof {
                // a fuzzy cell with an empty domain admits no solution at
                // all: dropping the frame loses nothing
                assert forall|s: Seq<int>| consistent(s, grid) implies false by {
                    assert(grid.chas(ti, s[ti]));
                    assert(sc.has(s[ti]));
                    assert(!sc.has(s[ti]));
                }
                assert forall|k: int|
                    0 <= k < stack_head.len() - 1 implies stack@[k] == stack_head[k] by {}
            }
            continue;
        }
        let val = smallest.unwrap();
        let ghost g_parent = grid;
        let mut grid = grid;
        let mut new_grid = grid;
        let exclude = grid.forbid(row, col, val);
        proof {
            if exclude is Ok {
                assert forall|i: int| 0 <= i < 81 && g_parent.pinned(i) implies grid.pinned(i) by {
                    if i != ti {
                        assert(crate::solgrid::same_cell(grid, g_parent, i));
                    }
                }
                assert forall|i: int, d: int|
                    0 <= i < 81 && #[trigger] grid.chas(i, d) implies g_parent.chas(i, d) by {
                    if i != ti {
                        assert(crate::solgrid::same_cell(grid, g_parent, i));
                    }
                }
                crate::solgrid::lemma_score_lt_forbidden(g_parent, grid, ti, val@);
                assert forall|i: int|
                    0 <= i < 81 implies (#[trigger] pzl@[i] matches Some(v) ==> grid.pinned(i)
                    && grid.digit_at(i) == v@) by {
                    if pzl@[i] is Some {
                        let v = pzl@[i]->0;
                        assert(g_parent.pinned(i) && g_parent.digit_at(i) == v@);
                        if i != ti {
                            assert(crate::solgrid::same_cell(grid, g_parent, i));
                        }
                    }
                }
            }
        }
        let ghost sc_p = g_parent.score();
        proof {
            crate::soft::lemma_has_nonzero_count(sc, val@);
            crate::solgrid::lemma_score_fuzzy_lower(g_parent, ti);
            assert(sc_p >= 1);
            lemma_pow_positive(3, (sc_p - 1) as nat);
        }
        let ghost w_child = pow(3, (sc_p - 1) as nat) as nat;
        let ghost stack_mid = stack@;
        if exclude.is_ok() {
            proof {
                lemma_pow_positive(3, grid.score());
                lemma_pow_increases(3, grid.score(), (sc_p - 1) as nat);
            }
            maximize_into(&mut stack, grid, Ghost(pzl@));
        }
        let ghost stack_ex = stack@;
        let pin_res = new_grid.pin(row, col, val);
        proof {
            assert(stack_measure(stack_ex) <= m_popped + w_child);
            if pin_res is Ok {
                assert forall|i: int|
                    0 <= i < 81 && g_parent.pinned(i) implies new_grid.pinned(i) by {
                    if i != ti {
                        assert(new_grid.pinned(i) && new_grid.digit_at(i) == g_parent.digit_at(
                            i,
                        ));
                    }
                }
                assert forall|i: int, d: int|
                    0 <= i < 81 && #[trigger] new_grid.chas(i, d) implies g_parent.chas(i, d) by {}
                assert(exists|d: int| g_parent.chas(ti, d));
                crate::solgrid::lemma_score_lt_pinned(g_parent, new_grid, ti);
                assert forall|i: int|
                    0 <= i < 81 implies (#[trigger] pzl@[i] matches Some(v) ==> new_grid.pinned(i)
                    && new_grid.digit_at(i) == v@) by {
                    if pzl@[i] is Some {
                        let v = pzl@[i]->0;
                        assert(g_parent.pinned(i) && g_parent.digit_at(i) == v@);
                    }
                }
            }
        }
        if pin_res.is_ok() {
            proof {
                lemma_pow_positive(3, new_grid.score());
                lemma_pow_increases(3, new_grid.score(), (sc_p - 1) as nat);
            }
            maximize_into(&mut stack, new_grid, Ghost(pzl@));
        }
        proof {
            assert(stack_measure(stack@) <= stack_measure(stack_ex) + w_child);
            vstd::arithmetic::power::lemma_pow_adds(3, 1, (sc_p - 1) as nat);
            vstd::arithmetic::power::lemma_pow1(3);
            lemma_pow_positive(3, sc_p);
            assert(pow(3, sc_p) == 3 * pow(3, (sc_p - 1) as nat));
            assert(m_head == m_popped + (pow(3, sc_p) as nat));
            assert(stack_measure(stack@) < m_head);
            assert forall|s: Seq<int>|
                is_solution(s) && #[trigger] consistent(s, g_parent) implies exists|k: int|
                0 <= k < stack@.len() && consistent(s, stack@[k]) by {
                if s[ti] == val@ {
                    lemma_consistent_pin_ok(g_parent, s, ti, val@);
                    assert(pin_res is Ok);
                    assert forall|i: int| 0 <= i < 81 implies new_grid.chas(
                        i,
                        #[trigger] s[i],
                    ) by {
                        if peers(ti, i) {
                            assert(s[i] != s[ti]);
                        }
                        assert(g_parent.chas(i, s[i]));
                    }
                    assert(consistent(s, new_grid));
                    let g3 = choose|g3: SolutionGrid|
                        {
                            &&& stack@ == stack_ex.push(g3)
                            &&& forall|s2: Seq<int>|
                                is_solution(s2) && #[trigger] consistent(s2, new_grid)
                                    ==> consistent(s2, g3)
                            &&& forall|s2: Seq<int>| #[trigger] consistent(s2, g3) ==> consistent(
                                s2,
                                new_grid,
                            )
                        };
                    assert(consistent(s, g3));
                    let k = stack_ex.len() as int;
                    assert(stack@[k] == g3);
                    assert(consistent(s, stack@[k]));
                } else {
                    assert(g_parent.chas(ti, s[ti]) && s[ti] != val@);
                    assert(exclude is Ok);
                    assert forall|i: int| 0 <= i < 81 implies grid.chas(i, #[trigger] s[i]) by {
                        assert(g_parent.chas(i, s[i]));
                        if i != ti {
                            assert(crate::solgrid::same_cell(grid, g_parent, i));
                        }
                    }
                    assert(consistent(s, grid));
                    let g2 = choose|g2: SolutionGrid|
                        {
                            &&& stack_ex == stack_mid.push(g2)
                            &&& forall|s2: Seq<int>|
                                is_solution(s2) && #[trigger] consistent(s2, grid) ==> consistent(
                                    s2,
                                    g2,
                                )
                            &&& forall|s2: Seq<int>| #[trigger] consistent(s2, g2) ==> consistent(
                                s2,
                                grid,
                            )
                        };
                    assert(consistent(s, g2));
                    let k = stack_mid.len() as int;
                    assert(stack_ex[k] == g2);
                    assert(stack@[k] == g2);
                    assert(consistent(s, stack@[k]));
                }
            }
            assert forall|k: int|
                0 <= k < stack_head.len() - 1 implies stack@[k] == stack_head[k] by {}
            assert forall|s: Seq<int>|
                is_solution(s) && #[trigger] agrees(s, pzl@) implies exists|k: int|
                0 <= k < stack@.len() && consistent(s, stack@[k]) by {
                let k0 = choose|k0: int|
                    0 <= k0 < stack_head.len() && consistent(s, stack_head[k0]);
                if k0 < stack_head.len() - 1 {
                    assert(stack@[k0] == stack_head[k0]);
                    assert(consistent(s, stack@[k0]));
                } else {
                    assert(consistent(s, g_parent));
                }
            }
        }
    }
}

/// Every digit recorded in a grid of candidate sets is witnessed by a full
/// solution of the puzzle placing it in that cell.
pub open spec fn values_sound(r: Seq<Vec<BTreeSet<u8>>>, p: Seq<Option<Value>>) -> bool {
    forall|row: int, col: int, d: u8|
        0 <= row < 9 && 0 <= col < 9 && #[trigger] r[row]@[col]@.contains(d) ==> exists|s: Seq<int>|
            is_solution(s) && agrees(s, p) && s[cell_at(row, col)] == d as int
}

/// A 9x9 grid of empty candidate sets.
fn empty_value_sets() -> (r: Vec<Vec<BTreeSet<u8>>>)
    ensures
        r@.len() == 9,
        forall|i: int| 0 <= i < 9 ==> #[trigger] r@[i]@.len() == 9,
        forall|row: int, col: int, d: u8|
            0 <= row < 9 && 0 <= col < 9 ==> !(#[trigger] r@[row]@[col]@.contains(d)),
{
    let mut rows: Vec<Vec<BTreeSet<u8>>> = Vec::new();
    let mut i: usize = 0;
    while i < 9
        invariant
            i <= 9,
            rows@.len() == i,
            forall|k: int| 0 <= k < i as int ==> #[trigger] rows@[k]@.len() == 9,
            forall|k: int, c: int, d: u8|
                0 <= k < i as int && 0 <= c < 9 ==> !(#[trigger] rows@[k]@[c]@.contains(d)),
        decreases 9 - i,
    {
        let mut rowv: Vec<BTreeSet<u8>> = Vec::new();
        let mut j: usize = 0;
        while j < 9
            invariant
                j <= 9,
                rowv@.len() == j,
                forall|c: int, d: u8| 0 <= c < j as int ==> !(#[trigger] rowv@[c]@.contains(d)),
            decreases 9 - j,
        {
            rowv.push(BTreeSet::new());
            j = j + 1;
        }
        rows.push(rowv);
        i = i + 1;
    }
    rows
}

/// A helper to find, for every cell, all the values that lead to a solvable
/// [`Puzzle`]: it probes one (cell, value) pair at a time with a fresh
/// [`SolutionIterator`] and records every cell of any solution it finds, so
/// a single successful probe can confirm many cells at once.
pub struct PossibleValuesFinder {
    keep_going: Arc<AtomicBool>,
}

impl PossibleValuesFinder {
    /// The shared cancellation flag the search will observe.
    pub closed spec fn flag(self) -> Arc<AtomicBool> {
        self.keep_going
    }

    /// A finder with a private, never cleared, cancellation flag.
    pub fn new() -> Self {
        Self { keep_going: Arc::new(AtomicBool::new(true)) }
    }

    /// Set the `Arc<AtomicBool>` to use as a "keep going" flag.  Similarly
    /// to [`SolutionIterator::with_handle`], this is useful to stop a
    /// separate thread running [`Self::search`]: once the flag is found
    /// cleared the search returns an all-empty grid immediately.
    pub fn with_handle(keep_going: Arc<AtomicBool>) -> (r: Self)
        ensures
            r.flag() == keep_going,
    {
        Self { keep_going }
    }

    /// Search all the values in the cells of a given [`Puzzle`] that lead to
    /// a solvable puzzle.  Every recorded digit is witnessed by an actual
    /// solution, so the result is all-empty for an unsolvable puzzle, and a
    /// pinned cell can only ever be confirmed with its own value.  The flag
    /// is observed once before each probe; when a read comes back `false`
    /// the search stops and returns the all-empty grid, and every probe
    /// itself runs to completion, so any nonempty result is complete: it
    /// holds every digit that still admits a solution.
    pub fn search(self, puzzle: &Puzzle) -> (r: Vec<Vec<BTreeSet<u8>>>)
        ensures
            r@.len() == 9,
            forall|i: int| 0 <= i < 9 ==> #[trigger] r@[i]@.len() == 9,
            values_sound(r@, puzzle@),
            !solvable(puzzle@) ==> forall|row: int, col: int, d: u8|
                0 <= row < 9 && 0 <= col < 9 ==> !(#[trigger] r@[row]@[col]@.contains(d)),
            forall|row: int, col: int, d: u8|
                0 <= row < 9 && 0 <= col < 9 && #[trigger] r@[row]@[col]@.contains(d) && puzzle@[
                    cell_at(row, col)
                ] is Some ==> d as int == puzzle@[cell_at(row, col)]->0@,
            (exists|r0: int, c0: int, d0: u8|
                0 <= r0 < 9 && 0 <= c0 < 9 && #[trigger] r@[r0]@[c0]@.contains(d0)) ==> forall|
                row: int,
                col: int,
                d: u8,
            |
                0 <= row < 9 && 0 <= col < 9 && admits(puzzle@, cell_at(row, col), d as int)
                    ==> #[trigger] r@[row]@[col]@.contains(d),
    {
        let mut pvs = empty_value_sets();
        let solgrid = match SolutionGrid::from_puzzle(puzzle) {
            Ok(sg) => sg,
            Err(_) => {
                return pvs;
            },
        };
        let mut row: usize = 0;
        while row < 9
            invariant
                row <= 9,
                pvs@.len() == 9,
                forall|i: int| 0 <= i < 9 ==> #[trigger] pvs@[i]@.len() == 9,
                values_sound(pvs@, puzzle@),
                solgrid.wf(),
                solgrid.refines(puzzle@),
                forall|s: Seq<int>|
                    is_solution(s) && #[trigger] agrees(s, puzzle@) ==> consistent(s, solgrid),
                forall|r2: int, c2: int, d: u8|
                    0 <= r2 < 9 && 0 <= c2 < 9 && cell_at(r2, c2) < cell_at(row as int, 0)
                        && admits(puzzle@, cell_at(r2, c2), d as int) ==> #[trigger] pvs@[r2]@[c2]@
                        .contains(d),
            decreases 9 - row,
        {
            let mut col: usize = 0;
            while col < 9
                invariant
                    row < 9,
                    col <= 9,
                    pvs@.len() == 9,
                    forall|i: int| 0 <= i < 9 ==> #[trigger] pvs@[i]@.len() == 9,
                    values_sound(pvs@, puzzle@),
                    solgrid.wf(),
                    solgrid.refines(puzzle@),
                    forall|s: Seq<int>|
                        is_solution(s) && #[trigger] agrees(s, puzzle@) ==> consistent(s, solgrid),
                    forall|r2: int, c2: int, d: u8|
                        0 <= r2 < 9 && 0 <= c2 < 9 && cell_at(r2, c2) < cell_at(
                            row as int,
                            col as int,
                        ) && admits(puzzle@, cell_at(r2, c2), d as int) ==> #[trigger] pvs@[r2]@[c2]@
                            .contains(d),
                decreases 9 - col,
            {
                let ghost pcell = cell_at(row as int, col as int);
                proof {
                    lemma_cell_coords(row as int, col as int);
                }
                let vals = solgrid.possible_values(row, col);
                let mut vi: usize = 0;
                while vi < vals.len()
                    invariant
                        row < 9,
                        col < 9,
                        vi <= vals@.len(),
                        pcell == cell_at(row as int, col as int),
                        pvs@.len() == 9,
                        forall|i: int| 0 <= i < 9 ==> #[trigger] pvs@[i]@.len() == 9,
                        values_sound(pvs@, puzzle@),
                        solgrid.wf(),
                        solgrid.refines(puzzle@),
                        forall|s: Seq<int>|
                            is_solution(s) && #[trigger] agrees(s, puzzle@) ==> consistent(
                                s,
                                solgrid,
                            ),
                        forall|k: int|
                            0 <= k < vals@.len() ==> solgrid.chas(pcell, #[trigger] vals@[k]@),
                        forall|d: int|
                            solgrid.chas(pcell, d) ==> exists|k: int|
                                0 <= k < vals@.len() && vals@[k]@ == d,
                        forall|r2: int, c2: int, d: u8|
                            0 <= r2 < 9 && 0 <= c2 < 9 && cell_at(r2, c2) < pcell && admits(
                                puzzle@,
                                cell_at(r2, c2),
                                d as int,
                            ) ==> #[trigger] pvs@[r2]@[c2]@.contains(d),
                        forall|k: int|
                            0 <= k < vi && admits(puzzle@, pcell, #[trigger] vals@[k]@)
                                ==> pvs@[row as int]@[col as int]@.contains(
                                ((vals@[k]@) as u8),
                            ),
                    decreases vals@.len() - vi,
                {
                    let val = vals[vi];
                    if !self.keep_going.load(Ordering::Relaxed) {
                        return empty_value_sets();
                    }
                    let vv = val.value();
                    let skip = pvs[row][col].contains(&vv);
                    if !skip {
                        let mut pzl: Puzzle = puzzle.clone();
                        pzl.pin(row, col, val);
                        let ghost pz_view = pzl@;
                        let probe = probe_solution(&pzl);
                        if probe.is_none() {
                            proof {
                                // no solution places this digit here
                                if admits(puzzle@, pcell, val@) {
                                    let s = choose|s: Seq<int>|
                                        is_solution(s) && agrees(s, puzzle@) && s[pcell] == val@;
                                    assert forall|i: int|
                                        0 <= i < 81 implies (#[trigger] pz_view[i] matches Some(u)
                                        ==> s[i] == u@) by {
                                        if i != pcell {
                                            assert(pz_view[i] == puzzle@[i]);
                                        }
                                    }
                                    assert(agrees(s, pz_view));
                                    assert(solvable(pz_view));
                                    assert(false);
                                }
                            }
                        } else {
                            let sol = probe.unwrap();
                            proof {
                                assert(agrees(board_of(sol), pz_view));
                                assert forall|i: int|
                                    0 <= i < 81 implies (#[trigger] puzzle@[i] matches Some(u)
                                    ==> board_of(sol)[i] == u@) by {
                                    if puzzle@[i] is Some {
                                        let u = puzzle@[i]->0;
                                        if i == pcell {
                                            assert(solgrid.chas(pcell, vals@[vi as int]@));
                                            solgrid.lemma_pinned_chas(pcell);
                                            assert(solgrid.pinned(pcell) && solgrid.digit_at(
                                                pcell,
                                            ) == u@);
                                            assert(val@ == u@);
                                            assert(pz_view[i] == Some(val));
                                            assert(board_of(sol)[i] == val@);
                                        } else {
                                            assert(pz_view[i] == Some(u));
                                            assert(board_of(sol)[i] == u@);
                                        }
                                    }
                                }
                                assert(agrees(board_of(sol), puzzle@));
                                assert(pz_view[pcell] == Some(val));
                                assert(board_of(sol)[pcell] == val@);
                                lemma_cell_coords(row as int, col as int);
                                assert(sol@[row as int]@[col as int] as int == val@);
                            }
                            let ghost pvs_probe = pvs@;
                            let mut ir: usize = 0;
                            while ir < 9
                                invariant
                                    ir <= 9,
                                    pvs@.len() == 9,
                                    forall|i: int| 0 <= i < 9 ==> #[trigger] pvs@[i]@.len() == 9,
                                    values_sound(pvs@, puzzle@),
                                    is_solution(board_of(sol)),
                                    agrees(board_of(sol), puzzle@),
                                    forall|r2: int, c2: int, d: u8|
                                        0 <= r2 < 9 && 0 <= c2 < 9 && #[trigger] pvs_probe[r2]@[c2]@
                                            .contains(d) ==> pvs@[r2]@[c2]@.contains(d),
                                    forall|r2: int, c2: int|
                                        0 <= r2 < 9 && 0 <= c2 < 9 && cell_at(r2, c2) < cell_at(
                                            ir as int,
                                            0,
                                        ) ==> #[trigger] pvs@[r2]@[c2]@.contains(sol@[r2]@[c2]),
                                decreases 9 - ir,
                            {
                                let mut ic: usize = 0;
                                while ic < 9
                                    invariant
                                        ir < 9,
                                        ic <= 9,
                                        pvs@.len() == 9,
                                        forall|i: int|
                                            0 <= i < 9 ==> #[trigger] pvs@[i]@.len() == 9,
                                        values_sound(pvs@, puzzle@),
                                        is_solution(board_of(sol)),
                                        agrees(board_of(sol), puzzle@),
                                        forall|r2: int, c2: int, d: u8|
                                            0 <= r2 < 9 && 0 <= c2 < 9
                                                && #[trigger] pvs_probe[r2]@[c2]@.contains(d)
                                                ==> pvs@[r2]@[c2]@.contains(d),
                                        forall|r2: int, c2: int|
                                            0 <= r2 < 9 && 0 <= c2 < 9 && cell_at(r2, c2)
                                                < cell_at(ir as int, ic as int)
                                                ==> #[trigger] pvs@[r2]@[c2]@.contains(
                                                sol@[r2]@[c2],
                                            ),
                                    decreases 9 - ic,
                                {
                                    let dv = sol[ir][ic];
                                    let ghost pvs_old = pvs@;
                                    pvs[ir][ic].insert(dv);
                                    proof {
                                        lemma_cell_coords(ir as int, ic as int);
                                        assert(board_of(sol)[cell_at(ir as int, ic as int)]
                                            == dv as int);
                                        assert forall|r2: int, c2: int, d: u8|
                                            0 <= r2 < 9 && 0 <= c2 < 9 && #[trigger] pvs@[r2]@[c2]@
                                                .contains(d) implies exists|s: Seq<int>|
                                            is_solution(s) && agrees(s, puzzle@) && s[cell_at(
                                                r2,
                                                c2,
                                            )] == d as int by {
                                            if r2 == ir as int && c2 == ic as int && d == dv {
                                                assert(is_solution(board_of(sol)) && agrees(
                                                    board_of(sol),
                                                    puzzle@,
                                                ) && board_of(sol)[cell_at(r2, c2)] == d as int);
                                            } else {
                                                assert(pvs_old[r2]@[c2]@.contains(d));
                                            }
                                        }
                                        assert(cell_at(ir as int, ic as int + 1) == cell_at(
                                            ir as int,
                                            ic as int,
                                        ) + 1);
                                        assert forall|r2: int, c2: int|
                                            0 <= r2 < 9 && 0 <= c2 < 9 && cell_at(r2, c2)
                                                < cell_at(ir as int, ic as int)
                                                + 1 implies #[trigger] pvs@[r2]@[c2]@.contains(
                                            sol@[r2]@[c2],
                                        ) by {
                                            if cell_at(r2, c2) < cell_at(ir as int, ic as int) {
                                                assert(pvs_old[r2]@[c2]@.contains(sol@[r2]@[c2]));
                                            } else {
                                                lemma_cell_coords(r2, c2);
                                                assert(r2 == ir as int && c2 == ic as int);
                                            }
                                        }
                                    }
                                    ic = ic + 1;
                                }
                                proof {
                                    assert(cell_at(ir as int + 1, 0) == cell_at(ir as int, 9));
                                }
                                ir = ir + 1;
                            }
                            proof {
                                assert(pvs@[row as int]@[col as int]@.contains(
                                    sol@[row as int]@[col as int],
                                ));
                                assert(sol@[row as int]@[col as int] == ((val@) as u8));
                                // facts recorded before this probe are still recorded
                                assert forall|r2: int, c2: int, d: u8|
                                    0 <= r2 < 9 && 0 <= c2 < 9 && cell_at(r2, c2) < pcell
                                        && admits(
                                        puzzle@,
                                        cell_at(r2, c2),
                                        d as int,
                                    ) implies #[trigger] pvs@[r2]@[c2]@.contains(d) by {
                                    assert(pvs_probe[r2]@[c2]@.contains(d));
                                }
                                assert forall|k: int|
                                    0 <= k < vi && admits(
                                        puzzle@,
                                        pcell,
                                        #[trigger] vals@[k]@,
                                    ) implies pvs@[row as int]@[col as int]@.contains(
                                    ((vals@[k]@) as u8),
                                ) by {
                                    assert(pvs_probe[row as int]@[col as int]@.contains(
                                        ((vals@[k]@) as u8),
                                    ));
                                }
                            }
                        }
                    } else {
                        proof {
                            assert(pvs@[row as int]@[col as int]@.contains(vv));
                            assert(vv == ((val@) as u8));
                        }
                    }
                    proof {
                        assert forall|k: int|
                            0 <= k < vi + 1 && admits(puzzle@, pcell, #[trigger] vals@[k]@) implies
                            pvs@[row as int]@[col as int]@.contains(((vals@[k]@) as u8)) by {
                            if k == vi as int {
                                assert(vals@[k]@ == val@);
                            }
                        }
                    }
                    vi = vi + 1;
                }
                proof {
                    // every digit still admitting a solution here was one of
                    // the probed candidates
                    assert forall|d: u8|
                        admits(puzzle@, pcell, d as int) implies #[trigger] pvs@[row as int]@[
                            col as int
                        ]@.contains(d) by {
                        let s = choose|s: Seq<int>|
                            is_solution(s) && agrees(s, puzzle@) && s[pcell] == d as int;
                        assert(consistent(s, solgrid));
                        assert(solgrid.chas(pcell, d as int));
                        let k = choose|k: int|
                            0 <= k < vals@.len() && vals@[k]@ == d as int;
                        assert(admits(puzzle@, pcell, vals@[k]@));
                        assert(pvs@[row as int]@[col as int]@.contains(((vals@[k]@) as u8)));
                        assert(((vals@[k]@) as u8) == d);
                    }
                    assert(cell_at(row as int, col as int + 1) == cell_at(
                        row as int,
                        col as int,
                    ) + 1);
                    assert forall|r2: int, c2: int, d: u8|
                        0 <= r2 < 9 && 0 <= c2 < 9 && cell_at(r2, c2) < cell_at(
                            row as int,
                            col as int,
                        ) + 1 && admits(puzzle@, cell_at(r2, c2), d as int) implies #[trigger] pvs@[
                            r2
                        ]@[c2]@.contains(d) by {
                        if cell_at(r2, c2) == cell_at(row as int, col as int) {
                            lemma_cell_coords(r2, c2);
                            assert(r2 == row as int && c2 == col as int);
                        }
                    }
                }
                col = col + 1;
            }
            proof {
                assert(cell_at(row as int + 1, 0) == cell_at(row as int, 9));
            }
            row = row + 1;
        }
        proof {
            if solvable(puzzle@) == false {
                assert forall|row: int, col: int, d: u8|
                    0 <= row < 9 && 0 <= col < 9 implies !(#[trigger] pvs@[row]@[col]@.contains(
                    d,
                )) by {
                    if pvs@[row]@[col]@.contains(d) {
                        let s = choose|s: Seq<int>|
                            is_solution(s) && agrees(s, puzzle@) && s[cell_at(row, col)]
                                == d as int;
                        assert(solvable(puzzle@));
                    }
                }
            }
            assert forall|row: int, col: int, d: u8|
                0 <= row < 9 && 0 <= col < 9 && #[trigger] pvs@[row]@[col]@.contains(d) && puzzle@[
                    cell_at(row, col)
                ] is Some implies d as int == puzzle@[cell_at(row, col)]->0@ by {
                let s = choose|s: Seq<int>|
                    is_solution(s) && agrees(s, puzzle@) && s[cell_at(row, col)] == d as int;
                lemma_cell_coords(row, col);
                assert(s[cell_at(row, col)] == puzzle@[cell_at(row, col)]->0@);
            }
            assert forall|row: int, col: int, d: u8|
                0 <= row < 9 && 0 <= col < 9 && admits(
                    puzzle@,
                    cell_at(row, col),
                    d as int,
                ) implies #[trigger] pvs@[row]@[col]@.contains(d) by {
                assert(cell_at(row, col) < cell_at(9, 0));
            }
        }
        pvs
    }
}

} // verus!
