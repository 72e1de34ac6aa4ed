use vstd::prelude::*;

use super::comparison::{comparison_holds, Comparison};

verus! {

/// The smallest of `b` and the values in `s`.
pub open spec fn seq_min_with(s: Seq<i32>, b: int) -> int
    decreases s.len(),
{
    if s.len() == 0 {
        b
    } else {
        let m = seq_min_with(s.drop_last(), b);
        if (s.last() as int) < m {
            s.last() as int
        } else {
            m
        }
    }
}

/// The largest of `b` and the values in `s`.
pub open spec fn seq_max_with(s: Seq<i32>, b: int) -> int
    decreases s.len(),
{
    if s.len() == 0 {
        b
    } else {
        let m = seq_max_with(s.drop_last(), b);
        if (s.last() as int) > m {
            s.last() as int
        } else {
            m
        }
    }
}

pub proof fn lemma_seq_min_with(s: Seq<i32>, b: int)
    ensures
        seq_min_with(s, b) <= b,
        forall|i: int| 0 <= i < s.len() ==> seq_min_with(s, b) <= #[trigger] s[i],
    decreases s.len(),
{
    if s.len() > 0 {
        lemma_seq_min_with(s.drop_last(), b);
        assert forall|i: int| 0 <= i < s.len() implies seq_min_with(s, b) <= #[trigger] s[i] by {
            if i < s.len() - 1 {
                assert(s[i] == s.drop_last()[i]);
            }
        }
    }
}

pub proof fn lemma_seq_max_with(s: Seq<i32>, b: int)
    ensures
        seq_max_with(s, b) >= b,
        forall|i: int| 0 <= i < s.len() ==> seq_max_with(s, b) >= #[trigger] s[i],
    decreases s.len(),
{
    if s.len() > 0 {
        lemma_seq_max_with(s.drop_last(), b);
        assert forall|i: int| 0 <= i < s.len() implies seq_max_with(s, b) >= #[trigger] s[i] by {
            if i < s.len() - 1 {
                assert(s[i] == s.drop_last()[i]);
            }
        }
    }
}

/// The domain of an integer variable: the integers between the optional bounds that are not
/// holes. A missing bound means that the domain is unbounded on that side.
#[derive(Clone, Debug)]
pub struct Domain {
    pub lower: Option<i64>,
    pub upper: Option<i64>,
    pub holes: Vec<i32>,
}

impl Domain {
    /// Whether `v` is one of the holes.
    pub open spec fn is_hole(self, v: int) -> bool {
        exists|i: int| 0 <= i < self.holes@.len() && self.holes@[i] as int == v
    }

    pub open spec fn above_lower(self, v: int) -> bool {
        match self.lower {
            Some(l) => l <= v,
            None => true,
        }
    }

    pub open spec fn below_upper(self, v: int) -> bool {
        match self.upper {
            Some(u) => v <= u,
            None => true,
        }
    }

    /// Whether `v` belongs to the domain.
    pub open spec fn contains(self, v: int) -> bool {
        self.above_lower(v) && self.below_upper(v) && !self.is_hole(v)
    }

    /// The bounds stay within reach of the `i32` values that atomic constraints hold.
    pub open spec fn bounds_in_range(self) -> bool {
        &&& (self.lower matches Some(l) ==> i32::MIN <= l <= i32::MAX + 1)
        &&& (self.upper matches Some(u) ==> i32::MIN - 1 <= u <= i32::MAX)
    }

    /// A finite bound is not a hole, unless the bounds cross.
    pub open spec fn tight(self) -> bool {
        &&& (self.lower matches Some(l) ==> (self.below_upper(l as int) ==> !self.is_hole(
            l as int,
        )))
        &&& (self.upper matches Some(u) ==> (self.above_lower(u as int) ==> !self.is_hole(
            u as int,
        )))
    }

    pub open spec fn wf(self) -> bool {
        self.bounds_in_range() && self.tight()
    }

    /// Whether no integer belongs to the domain.
    pub open spec fn spec_is_empty(self) -> bool {
        forall|v: int| !self.contains(v)
    }

    /// Whether every value of the domain satisfies `[x <comparison> k]`.
    pub open spec fn entails(self, comparison: Comparison, k: int) -> bool {
        forall|v: int| self.contains(v) ==> comparison_holds(comparison, v, k)
    }

    /// A value of the domain below `b`, where the domain has no lower bound.
    proof fn lemma_witness_below(self, b: int) -> (v: int)
        requires
            self.lower is None,
        ensures
            v < b,
            self.contains(v) || !self.below_upper(v),
            !self.is_hole(v),
    {
        lemma_seq_min_with(self.holes@, b);
        let v = seq_min_with(self.holes@, b) - 1;
        assert forall|i: int| 0 <= i < self.holes@.len() implies self.holes@[i] as int != v by {
            assert(seq_min_with(self.holes@, b) <= self.holes@[i]);
        }
        v
    }

    /// A value of the domain above `b`, where the domain has no upper bound.
    proof fn lemma_witness_above(self, b: int) -> (v: int)
        requires
            self.upper is None,
        ensures
            v > b,
            !self.is_hole(v),
    {
        lemma_seq_max_with(self.holes@, b);
        let v = seq_max_with(self.holes@, b) + 1;
        assert forall|i: int| 0 <= i < self.holes@.len() implies self.holes@[i] as int != v by {
            assert(seq_max_with(self.holes@, b) >= self.holes@[i]);
        }
        v
    }

    /// A value of a non-empty domain that is below every value `<= b` of the domain, unless
    /// the domain has a lower bound, in which case it is the lower bound.
    proof fn lemma_nonempty_member(self) -> (v: int)
        requires
            self.wf(),
            !(self.lower is Some && self.upper is Some && self.lower->0 > self.upper->0),
        ensures
            self.contains(v),
    {
        match (self.lower, self.upper) {
            (Some(l), _) => l as int,
            (None, Some(u)) => u as int,
            (None, None) => self.lemma_witness_below(0),
        }
    }

    /// The domain holding every integer.
    pub fn unbounded() -> (d: Domain)
        ensures
            d.wf(),
            forall|v: int| d.contains(v),
    {
        Domain { lower: None, upper: None, holes: Vec::new() }
    }

    /// Whether `v` is one of the holes.
    pub fn has_hole(&self, v: i64) -> (r: bool)
        ensures
            r == self.is_hole(v as int),
    {
        let mut i: usize = 0;
        while i < self.holes.len()
            invariant
                0 <= i <= self.holes.len(),
                forall|j: int| 0 <= j < i ==> self.holes@[j] as int != v,
            decreases self.holes.len() - i,
        {
            if self.holes[i] as i64 == v {
                return true;
            }
            i = i + 1;
        }
        false
    }

    fn at_most_upper(&self, v: i64) -> (r: bool)
        ensures
            r == self.below_upper(v as int),
    {
        match self.upper {
            Some(u) => v <= u,
            None => true,
        }
    }

    fn at_least_lower(&self, v: i64) -> (r: bool)
        ensures
            r == self.above_lower(v as int),
    {
        match self.lower {
            Some(l) => l <= v,
            None => true,
        }
    }

    /// Moves each finite bound past the holes that it stands on.
    fn tighten(&mut self)
        requires
            old(self).bounds_in_range(),
        ensures
            final(self).wf(),
            final(self).holes == old(self).holes,
            forall|v: int| final(self).contains(v) == old(self).contains(v),
    {
        if let Some(l0) = self.lower {
            let mut l: i64 = l0;
            while self.at_most_upper(l) && self.has_hole(l)
                invariant
                    self.bounds_in_range(),
                    l0 <= l <= i32::MAX + 1,
                    self.lower == Some(l0),
                    forall|v: int| l0 <= v < l ==> self.is_hole(v),
                decreases i32::MAX + 1 - l,
            {
                let ghost j = choose|j: int|
                    0 <= j < self.holes@.len() && self.holes@[j] as int == l as int;
                assert(self.holes@[j] <= i32::MAX);
                l = l + 1;
            }
            let ghost before = *self;
            self.lower = Some(l);
            assert forall|v: int| self.contains(v) == before.contains(v) by {
                if l0 <= v < l {
                    assert(before.is_hole(v));
                }
            }
        }
        let ghost mid = *self;
        if let Some(u0) = self.upper {
            let mut u: i64 = u0;
            while self.at_least_lower(u) && self.has_hole(u)
                invariant
                    self.bounds_in_range(),
                    *self == mid,
                    i32::MIN - 1 <= u <= u0,
                    self.upper == Some(u0),
                    forall|v: int| u < v <= u0 ==> self.is_hole(v),
                decreases u - (i32::MIN - 1),
            {
                let ghost j = choose|j: int|
                    0 <= j < self.holes@.len() && self.holes@[j] as int == u as int;
                assert(self.holes@[j] >= i32::MIN);
                u = u - 1;
            }
            self.upper = Some(u);
            assert forall|v: int| self.contains(v) == mid.contains(v) by {
                assert(self.holes == mid.holes);
                assert(self.is_hole(v) == mid.is_hole(v));
                assert(self.above_lower(v) == mid.above_lower(v));
                if u < v <= u0 {
                    assert(mid.is_hole(v));
                }
            }
        }
    }

    /// Restricts the domain to the values `v` with `v <comparison> k`.
    pub fn apply(&mut self, comparison: Comparison, k: i32)
        requires
            old(self).wf(),
        ensures
            final(self).wf(),
            forall|v: int|
                final(self).contains(v) == (old(self).contains(v) && comparison_holds(
                    comparison,
                    v,
                    k as int,
                )),
    {
        let ghost start = *self;
        let k64 = k as i64;
        match comparison {
            Comparison::GreaterEqual => {
                self.lower = Some(
                    match self.lower {
                        Some(l) => if l < k64 {
                            k64
                        } else {
                            l
                        },
                        None => k64,
                    },
                );
                assert(self.holes == start.holes);
                assert forall|v: int|
                    self.above_lower(v) == (start.above_lower(v) && v >= k) by {}
                assert forall|v: int|
                    self.contains(v) == (start.contains(v) && comparison_holds(
                        comparison,
                        v,
                        k as int,
                    )) by {
                    assert(self.is_hole(v) == start.is_hole(v));
                }
            },
            Comparison::LessEqual => {
                self.upper = Some(
                    match self.upper {
                        Some(u) => if u > k64 {
                            k64
                        } else {
                            u
                        },
                        None => k64,
                    },
                );
                assert(self.holes == start.holes);
                assert forall|v: int|
                    self.contains(v) == (start.contains(v) && comparison_holds(
                        comparison,
                        v,
                        k as int,
                    )) by {
                    assert(self.is_hole(v) == start.is_hole(v));
                }
            },
            Comparison::Equal => {
                self.lower = Some(
                    match self.lower {
                        Some(l) => if l < k64 {
                            k64
                        } else {
                            l
                        },
                        None => k64,
                    },
                );
                self.upper = Some(
                    match self.upper {
                        Some(u) => if u > k64 {
                            k64
                        } else {
                            u
                        },
                        None => k64,
                    },
                );
                assert(self.holes == start.holes);
                assert forall|v: int|
                    self.contains(v) == (start.contains(v) && comparison_holds(
                        comparison,
                        v,
                        k as int,
                    )) by {
                    assert(self.is_hole(v) == start.is_hole(v));
                }
            },
            Comparison::NotEqual => {
                self.holes.push(k);
                assert forall|v: int| self.is_hole(v) == (start.is_hole(v) || v == k) by {
                    if start.is_hole(v) {
                        let j = choose|j: int|
                            0 <= j < start.holes@.len() && start.holes@[j] as int == v;
                        assert(self.holes@[j] == start.holes@[j]);
                    }
                    if self.is_hole(v) && v != k {
                        let j = choose|j: int|
                            0 <= j < self.holes@.len() && self.holes@[j] as int == v;
                        assert(start.holes@[j] == self.holes@[j]);
                    }
                    if v == k {
                        assert(self.holes@[self.holes@.len() - 1] == k);
                    }
                }
                assert forall|v: int|
                    self.contains(v) == (start.contains(v) && comparison_holds(
                        comparison,
                        v,
                        k as int,
                    )) by {
                    assert(self.is_hole(v) == (start.is_hole(v) || v == k));
                }
            },
        }
        self.tighten();
    }

    /// Whether the domain has no value.
    pub fn is_empty(&self) -> (r: bool)
        requires
            self.wf(),
        ensures
            r == self.spec_is_empty(),
    {
        match (self.lower, self.upper) {
            (Some(l), Some(u)) => {
                if l > u {
                    true
                } else {
                    proof {
                        let w = self.lemma_nonempty_member();
                    }
                    false
                }
            },
            _ => {
                proof {
                    let w = self.lemma_nonempty_member();
                }
                false
            },
        }
    }

    /// Whether every value of the domain satisfies `[x <comparison> k]`.
    pub fn is_entailed(&self, comparison: Comparison, k: i32) -> (r: bool)
        requires
            self.wf(),
        ensures
            r == self.entails(comparison, k as int),
    {
        if self.is_empty() {
            return true;
        }
        let k64 = k as i64;
        match comparison {
            Comparison::GreaterEqual => match self.lower {
                Some(l) => {
                    proof {
                        assert(self.contains(l as int));
                        assert forall|v: int| self.contains(v) implies v >= l by {}
                        if l >= k64 {
                            assert forall|v: int| self.contains(v) implies comparison_holds(
                                comparison,
                                v,
                                k as int,
                            ) by {}
                        } else {
                            assert(!comparison_holds(comparison, l as int, k as int));
                        }
                    }
                    l >= k64
                },
                None => {
                    proof {
                        let b = match self.upper {
                            Some(u) => if u < k {
                                u + 1
                            } else {
                                k as int
                            },
                            None => k as int,
                        };
                        let w = self.lemma_witness_below(b);
                        assert(self.contains(w));
                        assert(!comparison_holds(comparison, w, k as int));
                        assert(!self.entails(comparison, k as int));
                    }
                    false
                },
            },
            Comparison::LessEqual => match self.upper {
                Some(u) => {
                    proof {
                        assert(self.contains(u as int));
                        assert forall|v: int| self.contains(v) implies v <= u by {}
                        if u <= k64 {
                            assert forall|v: int| self.contains(v) implies comparison_holds(
                                comparison,
                                v,
                                k as int,
                            ) by {}
                        } else {
                            assert(!comparison_holds(comparison, u as int, k as int));
                        }
                    }
                    u <= k64
                },
                None => {
                    proof {
                        let b = match self.lower {
                            Some(l) => if l > k {
                                l - 1
                            } else {
                                k as int
                            },
                            None => k as int,
                        };
                        let w = self.lemma_witness_above(b);
                        assert(self.contains(w));
                        assert(!comparison_holds(comparison, w, k as int));
                    }
                    false
                },
            },
            Comparison::Equal => match (self.lower, self.upper) {
                (Some(l), Some(u)) => {
                    proof {
                        assert(self.contains(l as int));
                        assert(self.contains(u as int));
                        if l == k64 && u == k64 {
                            assert forall|v: int| self.contains(v) implies comparison_holds(
                                comparison,
                                v,
                                k as int,
                            ) by {}
                        } else if l != k64 {
                            assert(!comparison_holds(comparison, l as int, k as int));
                        } else {
                            assert(!comparison_holds(comparison, u as int, k as int));
                        }
                    }
                    l == k64 && u == k64
                },
                (None, _) => {
                    proof {
                        let b = match self.upper {
                            Some(u) => if u < k {
                                u + 1
                            } else {
                                k as int
                            },
                            None => k as int,
                        };
                        let w = self.lemma_witness_below(b);
                        assert(self.contains(w));
                        assert(!comparison_holds(comparison, w, k as int));
                    }
                    false
                },
                (Some(l), None) => {
                    proof {
                        let b = if l > k {
                            l - 1
                        } else {
                            k as int
                        };
                        let w = self.lemma_witness_above(b);
                        assert(self.contains(w));
                        assert(!comparison_holds(comparison, w, k as int));
                    }
                    false
                },
            },
            Comparison::NotEqual => {
                let below = match self.lower {
                    Some(l) => k64 < l,
                    None => false,
                };
                let above = match self.upper {
                    Some(u) => k64 > u,
                    None => false,
                };
                let r = below || above || self.has_hole(k64);
                proof {
                    if !r {
                        assert(self.contains(k as int));
                        assert(!comparison_holds(comparison, k as int, k as int));
                    }
                }
                r
            },
        }
    }

    /// The domain holding the single value `v`.
    pub fn singleton(v: i32) -> (d: Domain)
        ensures
            d.wf(),
            forall|w: int| d.contains(w) <==> w == v,
            d.lower == Some(v as i64),
            d.upper == Some(v as i64),
            d.holes@.len() == 0,
    {
        Domain { lower: Some(v as i64), upper: Some(v as i64), holes: Vec::new() }
    }

    /// A copy of the domain.
    pub fn copy(&self) -> (d: Domain)
        ensures
            d.lower == self.lower,
            d.upper == self.upper,
            d.holes@ == self.holes@,
            forall|v: int| d.contains(v) == self.contains(v),
            self.wf() ==> d.wf(),
    {
        let mut holes: Vec<i32> = Vec::new();
        let mut i: usize = 0;
        while i < self.holes.len()
            invariant
                0 <= i <= self.holes@.len(),
                holes@ == self.holes@.subrange(0, i as int),
            decreases self.holes.len() - i,
        {
            holes.push(self.holes[i]);
            i = i + 1;
        }
        assert(holes@ == self.holes@);
        let d = Domain { lower: self.lower, upper: self.upper, holes };
        assert forall|v: int| d.is_hole(v) == self.is_hole(v) by {
            if d.is_hole(v) {
                let j = choose|j: int| 0 <= j < d.holes@.len() && d.holes@[j] as int == v;
                assert(self.holes@[j] == d.holes@[j]);
            }
            if self.is_hole(v) {
                let j = choose|j: int| 0 <= j < self.holes@.len() && self.holes@[j] as int == v;
                assert(self.holes@[j] == d.holes@[j]);
            }
        }
        d
    }

    /// Whether the domain holds a value from `lo` to `hi`.
    pub fn has_value_between(&self, lo: i32, hi: i32) -> (r: bool)
        requires
            self.wf(),
        ensures
            r == exists|v: int| lo <= v <= hi && #[trigger] self.contains(v),
    {
        let mut d = self.copy();
        d.apply(Comparison::GreaterEqual, lo);
        d.apply(Comparison::LessEqual, hi);
        let empty = d.is_empty();
        proof {
            if !empty {
                let w = choose|w: int| d.contains(w);
                assert(self.contains(w));
            } else {
                assert forall|v: int| !(lo <= v <= hi && #[trigger] self.contains(v)) by {
                    assert(!d.contains(v));
                }
            }
        }
        !empty
    }

    /// The single value of the domain, where both bounds are finite and equal.
    pub fn fixed_value(&self) -> (r: Option<i64>)
        requires
            self.wf(),
        ensures
            r matches Some(x) ==> (forall|v: int| self.contains(v) <==> v == x),
            r is None ==> (self.spec_is_empty() || exists|a: int, b: int|
                a != b && self.contains(a) && self.contains(b)),
    {
        match (self.lower, self.upper) {
            (Some(l), Some(u)) => {
                if l == u {
                    proof {
                        assert(self.contains(l as int));
                    }
                    Some(l)
                } else if l > u {
                    None
                } else {
                    proof {
                        assert(self.contains(l as int));
                        assert(self.contains(u as int));
                    }
                    None
                }
            },
            (None, _) => {
                proof {
                    let m = self.lemma_nonempty_member();
                    let w = self.lemma_witness_below(m);
                    assert(self.contains(w));
                }
                None
            },
            (Some(l), None) => {
                proof {
                    assert(self.contains(l as int));
                    let w = self.lemma_witness_above(l as int);
                    assert(self.contains(w));
                }
                None
            },
        }
    }
}

} // verus!
