//! A 9-bit domain over the digits 1..=9: bit `i` set means digit `i + 1` is
//! still viable for a cell.  Domains only ever shrink (forbidding clears bits).

use vstd::prelude::*;

use crate::puzzle::Value;

verus! {

/// Mask with the nine low bits set: every digit viable.
const ALL_ON: u16 = 511;

/// The set of digits still viable for one cell.
#[derive(Clone, Copy, Debug)]
pub struct SoftConstraint {
    mask: u16,
}

impl SoftConstraint {
    #[verifier::type_invariant]
    spec fn inv(self) -> bool {
        self.mask <= ALL_ON
    }

    /// Whether digit `d` is still viable.
    pub closed spec fn has(self, d: int) -> bool {
        1 <= d <= 9 && (self.mask >> ((d - 1) as u16)) & 1u16 == 1u16
    }

    /// Number of viable digits that are at least `d`.
    pub closed spec fn count_from(self, d: int) -> nat
        decreases 10 - d,
    {
        if d >= 10 {
            0
        } else {
            self.count_from(d + 1) + (if self.has(d) {
                1nat
            } else {
                0nat
            })
        }
    }

    /// Number of viable digits.
    pub open spec fn ncands(self) -> nat {
        self.count_from(1)
    }

    /// The lone viable digit, if the domain holds exactly one.
    pub fn unique_solution(&self) -> (r: Option<Value>)
        ensures
            match r {
                Some(v) => self.ncands() == 1 && self.has(v@) && (forall|d: int|
                    self.has(d) ==> d == v@),
                None => self.ncands() != 1,
            },
    {
        if self.num_solutions() == 1 {
            let r = self.smallest_solution();
            proof {
                lemma_count_from_zero(*self, 1);
                if r is Some {
                    let v = r->0;
                    assert forall|d: int| self.has(d) implies d == v@ by {
                        if d != v@ {
                            lemma_count_from_two(*self, 1, d, v@);
                        }
                    }
                }
            }
            r
        } else {
            None
        }
    }

    /// The lowest-numbered viable digit, used as the deterministic guess.
    pub fn smallest_solution(&self) -> (r: Option<Value>)
        ensures
            match r {
                Some(v) => self.has(v@) && (forall|d: int| 1 <= d < v@ ==> !self.has(d)),
                None => forall|d: int| !self.has(d),
            },
    {
        let mut d: u8 = 1;
        while d <= 9
            invariant
                1 <= d <= 10,
                forall|j: int| 1 <= j < d ==> !self.has(j),
            decreases 10 - d,
        {
            if self.has_solution(Value::new(d)) {
                return Some(Value::new(d));
            }
            d = d + 1;
        }
        None
    }

    /// Whether any digit is still viable.
    pub fn has_solutions(&self) -> (r: bool)
        ensures
            r <==> exists|d: int| self.has(d),
            r == (self.ncands() != 0),
    {
        proof {
            use_type_invariant(self);
            lemma_count_from_zero(*self, 1);
            let m = self.mask;
            if m != 0 {
                assert((m >> 0u16) & 1u16 == 1u16 || (m >> 1u16) & 1u16 == 1u16 || (m >> 2u16)
                    & 1u16 == 1u16 || (m >> 3u16) & 1u16 == 1u16 || (m >> 4u16) & 1u16 == 1u16 || (
                m >> 5u16) & 1u16 == 1u16 || (m >> 6u16) & 1u16 == 1u16 || (m >> 7u16) & 1u16
                    == 1u16 || (m >> 8u16) & 1u16 == 1u16) by (bit_vector)
                    requires
                        m != 0 && m <= 511,
                ;
                assert(self.has(1) || self.has(2) || self.has(3) || self.has(4) || self.has(5)
                    || self.has(6) || self.has(7) || self.has(8) || self.has(9));
            } else {
                assert forall|d: int| !self.has(d) by {
                    if 1 <= d <= 9 {
                        let j = (d - 1) as u16;
                        assert((0u16 >> j) & 1u16 == 0u16) by (bit_vector);
                    }
                }
            }
        }
        self.mask != 0
    }

    /// Whether the given digit is still viable.
    pub fn has_solution(&self, constraint: Value) -> (r: bool)
        ensures
            r == self.has(constraint@),
    {
        let k: u16 = (constraint.value() - 1) as u16;
        let r = self.mask & (1u16 << k) != 0;
        proof {
            let m = self.mask;
            assert((m & (1u16 << k) != 0) == ((m >> k) & 1u16 == 1u16)) by (bit_vector)
                requires
                    k < 9,
            ;
        }
        r
    }

    /// Count of viable digits: the branching-heuristic metric.
    pub fn num_solutions(&self) -> (r: u32)
        ensures
            r == self.ncands(),
            r <= 9,
    {
        proof {
            lemma_count_bound(*self, 1);
        }
        let mut cnt: u32 = 0;
        let mut d: u8 = 1;
        while d <= 9
            invariant
                1 <= d <= 10,
                cnt < d,
                cnt + self.count_from(d as int) == self.ncands(),
            decreases 10 - d,
        {
            proof {
                reveal_with_fuel(SoftConstraint::count_from, 2);
            }
            if self.has_solution(Value::new(d)) {
                cnt = cnt + 1;
            }
            d = d + 1;
        }
        cnt
    }

    /// Remove a given value from the viable digits (idempotent).
    pub fn forbid(&mut self, val: Value)
        ensures
            forall|d: int| final(self).has(d) == (old(self).has(d) && d != val@),
    {
        proof {
            use_type_invariant(&*self);
        }
        let k: u16 = (val.value() - 1) as u16;
        let m0 = self.mask;
        proof {
            assert((1u16 << k) <= 511) by (bit_vector)
                requires
                    k < 9,
            ;
        }
        let m1 = m0 & (ALL_ON - (1u16 << k));
        proof {
            assert(m1 <= 511 && forall|j: u16|
                j < 9 ==> (m1 >> j) & 1u16 == (if j == k {
                    0u16
                } else {
                    (m0 >> j) & 1u16
                })) by (bit_vector)
                requires
                    k < 9 && m1 == m0 & ((511u16 - (1u16 << k)) as u16),
            ;
            assert forall|d: int| SoftConstraint { mask: m1 }.has(d) == (SoftConstraint {
                mask: m0,
            }.has(d) && d != val@) by {
                if 1 <= d <= 9 {
                    assert(((d - 1) as u16) < 9);
                }
            }
        }
        self.mask = m1;
    }

    /// Every viable digit, in ascending order.
    pub fn all_values(&self) -> (r: Vec<Value>)
        ensures
            forall|k: int| 0 <= k < r@.len() ==> self.has(#[trigger] r@[k]@),
            forall|d: int| self.has(d) ==> exists|k: int| 0 <= k < r@.len() && r@[k]@ == d,
            forall|k1: int, k2: int| 0 <= k1 < k2 < r@.len() ==> r@[k1]@ < r@[k2]@,
            r@.len() == self.ncands(),
    {
        let mut out: Vec<Value> = Vec::new();
        let mut d: u8 = 1;
        while d <= 9
            invariant
                1 <= d <= 10,
                out@.len() + self.count_from(d as int) == self.ncands(),
                forall|k: int| 0 <= k < out@.len() ==> self.has(#[trigger] out@[k]@) && out@[k]@ < d,
                forall|j: int| 1 <= j < d && self.has(j) ==> exists|k: int|
                    0 <= k < out@.len() && out@[k]@ == j,
                forall|k1: int, k2: int| 0 <= k1 < k2 < out@.len() ==> out@[k1]@ < out@[k2]@,
            decreases 10 - d,
        {
            proof {
                reveal_with_fuel(SoftConstraint::count_from, 2);
            }
            if self.has_solution(Value::new(d)) {
                let v = Value::new(d);
                let ghost prev = out@;
                out.push(v);
                proof {
                    assert(out@ == prev.push(v));
                    assert forall|j: int| 1 <= j < d + 1 && self.has(j) implies exists|k: int|
                        0 <= k < out@.len() && out@[k]@ == j by {
                        if j == d as int {
                            assert(out@[out@.len() - 1]@ == j);
                        } else {
                            let k = choose|k: int| 0 <= k < prev.len() && prev[k]@ == j;
                            assert(out@[k]@ == j);
                        }
                    }
                }
            }
            d = d + 1;
        }
        out
    }
}

impl Default for SoftConstraint {
    /// The no-information domain: every digit viable.
    fn default() -> (r: Self)
        ensures
            forall|d: int| r.has(d) == (1 <= d <= 9),
            r.ncands() == 9,
    {
        let r = SoftConstraint { mask: ALL_ON };
        proof {
            assert(forall|j: u16| j < 9 ==> (511u16 >> j) & 1u16 == 1u16) by (bit_vector);
            assert forall|d: int| r.has(d) == (1 <= d <= 9) by {
                if 1 <= d <= 9 {
                    assert(((d - 1) as u16) < 9);
                }
            }
            lemma_count_full(r, 1);
        }
        r
    }
}

impl vstd::std_specs::convert::FromSpecImpl<Value> for SoftConstraint {
    open spec fn obeys_from_spec() -> bool {
        true
    }

    closed spec fn from_spec(v: Value) -> SoftConstraint {
        SoftConstraint { mask: 1u16 << ((v@ - 1) as u16) }
    }
}

impl From<Value> for SoftConstraint {
    /// The singleton domain holding exactly the given digit.
    fn from(value: Value) -> (r: Self)
        ensures
            forall|d: int| r.has(d) == (d == value@),
    {
        let k: u16 = (value.value() - 1) as u16;
        proof {
            assert((1u16 << k) <= 511 && forall|j: u16|
                j < 9 ==> ((1u16 << k) >> j) & 1u16 == (if j == k {
                    1u16
                } else {
                    0u16
                })) by (bit_vector)
                requires
                    k < 9,
            ;
        }
        let r = SoftConstraint { mask: 1u16 << k };
        proof {
            assert forall|d: int| r.has(d) == (d == value@) by {
                if 1 <= d <= 9 {
                    assert(((d - 1) as u16) < 9);
                }
            }
        }
        r
    }
}

impl vstd::std_specs::convert::FromSpecImpl<Option<Value>> for SoftConstraint {
    open spec fn obeys_from_spec() -> bool {
        true
    }

    closed spec fn from_spec(hconst: Option<Value>) -> SoftConstraint {
        match hconst {
            Some(hc) => SoftConstraint { mask: 1u16 << ((hc@ - 1) as u16) },
            None => SoftConstraint { mask: ALL_ON },
        }
    }
}

impl From<Option<Value>> for SoftConstraint {
    /// A singleton domain for a pinned cell, the full domain for an open one.
    fn from(hconst: Option<Value>) -> (r: Self)
        ensures
            match hconst {
                Some(v) => forall|d: int| r.has(d) == (d == v@),
                None => forall|d: int| r.has(d) == (1 <= d <= 9),
            },
    {
        match hconst {
            Some(hc) => SoftConstraint::from(hc),
            None => {
                let r = SoftConstraint { mask: ALL_ON };
                proof {
                    assert(forall|j: u16| j < 9 ==> (511u16 >> j) & 1u16 == 1u16) by (bit_vector);
                    assert forall|d: int| r.has(d) == (1 <= d <= 9) by {
                        if 1 <= d <= 9 {
                            assert(((d - 1) as u16) < 9);
                        }
                    }
                }
                r
            },
        }
    }
}

/// Only digits 1..=9 can ever be viable.
pub proof fn lemma_has_range(sc: SoftConstraint, d: int)
    requires
        sc.has(d),
    ensures
        1 <= d <= 9,
{
}

/// A domain with no viable digit at or above `d` counts zero from `d`, and
/// conversely.
proof fn lemma_count_from_zero(sc: SoftConstraint, d: int)
    ensures
        (sc.count_from(d) == 0) <==> (forall|j: int| j >= d ==> !sc.has(j)),
    decreases 10 - d,
{
    if d < 10 {
        lemma_count_from_zero(sc, d + 1);
    }
}

/// Two distinct viable digits at or above `d` force a count of at least two.
proof fn lemma_count_from_two(sc: SoftConstraint, d: int, a: int, b: int)
    requires
        sc.has(a),
        sc.has(b),
        a != b,
        d <= a,
        d <= b,
    ensures
        sc.count_from(d) >= 2,
    decreases 10 - d,
{
    lemma_count_from_zero(sc, d + 1);
    if a != d && b != d {
        lemma_count_from_two(sc, d + 1, a, b);
    }
}

/// A nonempty domain counts at least one digit.
pub proof fn lemma_has_nonzero_count(sc: SoftConstraint, d: int)
    requires
        sc.has(d),
    ensures
        sc.ncands() >= 1,
{
    lemma_count_from_zero(sc, 1);
}

/// A domain pointwise included in another counts no more digits.
pub proof fn lemma_count_subset(sc1: SoftConstraint, sc2: SoftConstraint, c: int)
    requires
        forall|d: int| sc2.has(d) ==> sc1.has(d),
    ensures
        sc2.count_from(c) <= sc1.count_from(c),
    decreases 10 - c,
{
    if c < 10 {
        lemma_count_subset(sc1, sc2, c + 1);
    }
}

/// A domain that lost the viable digit `dd` counts strictly fewer digits.
pub proof fn lemma_count_subset_strict(sc1: SoftConstraint, sc2: SoftConstraint, c: int, dd: int)
    requires
        forall|d: int| sc2.has(d) ==> sc1.has(d),
        sc1.has(dd),
        !sc2.has(dd),
        c <= dd,
    ensures
        sc2.count_from(c) < sc1.count_from(c),
    decreases 10 - c,
{
    if c == dd {
        lemma_count_subset(sc1, sc2, c + 1);
    } else {
        lemma_count_subset_strict(sc1, sc2, c + 1, dd);
    }
}

/// A domain counts zero digits exactly when no digit is viable.
pub proof fn lemma_ncands_zero(sc: SoftConstraint)
    ensures
        (sc.ncands() == 0) <==> (forall|d: int| !sc.has(d)),
{
    lemma_count_from_zero(sc, 1);
}

/// Two domains with the same viable digits from `c` up count the same.
proof fn lemma_count_from_congruence(sc1: SoftConstraint, sc2: SoftConstraint, c: int)
    requires
        forall|d: int| d >= c ==> sc1.has(d) == sc2.has(d),
    ensures
        sc1.count_from(c) == sc2.count_from(c),
    decreases 10 - c,
{
    if c < 10 {
        lemma_count_from_congruence(sc1, sc2, c + 1);
    }
}

/// Removing exactly one viable digit drops the count by exactly one.
proof fn lemma_count_from_remove(sc1: SoftConstraint, sc2: SoftConstraint, c: int, dd: int)
    requires
        forall|d: int| sc2.has(d) == (sc1.has(d) && d != dd),
        sc1.has(dd),
        c <= dd,
    ensures
        sc2.count_from(c) + 1 == sc1.count_from(c),
    decreases 10 - c,
{
    if c == dd {
        lemma_count_from_congruence(sc1, sc2, c + 1);
    } else {
        lemma_count_from_remove(sc1, sc2, c + 1, dd);
    }
}

/// `forbid` of a still-viable digit shrinks the candidate count by one.
pub proof fn lemma_ncands_remove(sc1: SoftConstraint, sc2: SoftConstraint, dd: int)
    requires
        forall|d: int| sc2.has(d) == (sc1.has(d) && d != dd),
        sc1.has(dd),
    ensures
        sc2.ncands() + 1 == sc1.ncands(),
{
    lemma_has_range(sc1, dd);
    lemma_count_from_remove(sc1, sc2, 1, dd);
}

/// A singleton domain counts exactly one digit.
pub proof fn lemma_ncands_singleton(sc: SoftConstraint, v: int)
    requires
        forall|d: int| sc.has(d) == (d == v),
        1 <= v <= 9,
    ensures
        sc.ncands() == 1,
{
    lemma_count_from_singleton(sc, 1, v);
}

/// Helper for [`lemma_ncands_singleton`]: counting from `c` up.
proof fn lemma_count_from_singleton(sc: SoftConstraint, c: int, v: int)
    requires
        forall|d: int| sc.has(d) == (d == v),
        c <= v <= 9,
    ensures
        sc.count_from(c) == 1,
    decreases 10 - c,
{
    if c == v {
        lemma_count_from_zero(sc, c + 1);
        assert(sc.count_from(c + 1) == 0);
    } else {
        lemma_count_from_singleton(sc, c + 1, v);
    }
}

/// A full domain counts all nine digits.
pub proof fn lemma_ncands_full(sc: SoftConstraint)
    requires
        forall|d: int| sc.has(d) == (1 <= d <= 9),
    ensures
        sc.ncands() == 9,
{
    lemma_count_full(sc, 1);
}

/// At most one digit per position can be counted from `d` up to 9.
proof fn lemma_count_bound(sc: SoftConstraint, d: int)
    requires
        1 <= d <= 10,
    ensures
        sc.count_from(d) <= 10 - d,
    decreases 10 - d,
{
    if d < 10 {
        lemma_count_bound(sc, d + 1);
    }
}

/// A full domain counts one digit per position from `d` up to 9.
proof fn lemma_count_full(sc: SoftConstraint, d: int)
    requires
        1 <= d <= 10,
        forall|j: int| 1 <= j <= 9 ==> sc.has(j),
    ensures
        sc.count_from(d) == 10 - d,
    decreases 10 - d,
{
    if d < 10 {
        lemma_count_full(sc, d + 1);
    }
}

} // verus!
