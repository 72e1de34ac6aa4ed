use vstd::prelude::*;

use crate::checking::domain::Domain;
use crate::checking::inference::{InferenceChecker, Variable};
use crate::checking::variable_state::VariableState;
use crate::conflict_resolving::atomic::{Assignment, Atomic};
use vstd::seq_lib::seq_to_set_is_finite;
use vstd::set_lib::{lemma_int_range, lemma_len_subset, lemma_len_union, set_int_range};

verus! {

/// Checks inferences of the all-different constraint: no two variables take the same value.
///
/// The checker searches for distinct values of the constants and of the variables whose
/// domains are bounded and hold fewer values than there are variables; every other variable
/// can always be given a value of its own, so it takes no part in a conflict.
#[derive(Clone, Debug)]
pub struct AllDifferentChecker {
    pub variables: Vec<Variable>,
}

impl AllDifferentChecker {
    pub open spec fn n(self) -> int {
        self.variables@.len() as int
    }

    /// No two variables take the same value.
    pub open spec fn all_different(self, a: Assignment) -> bool {
        forall|i: int, j: int|
            0 <= i < j < self.n() ==> #[trigger] self.variables@[i].value(a)
                != #[trigger] self.variables@[j].value(a)
    }

    /// Whether the checker searches values for the variable at index `i`: a constant, or a
    /// variable whose domain has both bounds and a width below the number of variables plus
    /// the number of holes.
    pub open spec fn is_searched(self, state: VariableState, i: int) -> bool {
        match self.variables@[i] {
            Variable::Constant(_) => true,
            Variable::Identifier(name) => match state.spec_domain(name@) {
                Some(d) => d.lower is Some && d.upper is Some && d.upper->0 - d.lower->0 < self.n()
                    + d.holes@.len(),
                None => false,
            },
        }
    }

    /// The indices below `k` that the checker searches, in increasing order.
    pub open spec fn searched_below(self, state: VariableState, k: int) -> Seq<int>
        decreases k,
    {
        if k <= 0 {
            Seq::empty()
        } else if self.is_searched(state, k - 1) {
            self.searched_below(state, k - 1).push(k - 1)
        } else {
            self.searched_below(state, k - 1)
        }
    }

    /// Whether the variables at `chosen[k..]` can take values that the state allows, that
    /// differ from each other and from the values in `used`.
    pub open spec fn assignable(
        self,
        state: VariableState,
        chosen: Seq<int>,
        k: int,
        used: Seq<int>,
    ) -> bool
        decreases chosen.len() - k,
    {
        if k < 0 || k >= chosen.len() {
            true
        } else {
            exists|v: int|
                #[trigger] self.variables@[chosen[k]].allows(state, v) && !used.contains(v)
                    && self.assignable(state, chosen, k + 1, used.push(v))
        }
    }

    /// The searched variables cannot take pairwise different values.
    pub open spec fn recognised_conflict(self, state: VariableState) -> bool {
        !self.assignable(state, self.searched_below(state, self.n()), 0, Seq::empty())
    }

    proof fn lemma_searched_below(self, state: VariableState, k: int)
        requires
            0 <= k,
        ensures
            forall|j: int|
                0 <= j < self.searched_below(state, k).len() ==> 0 <= #[trigger] self.searched_below(
                    state,
                    k,
                )[j] < k,
            forall|j: int, l: int|
                0 <= j < l < self.searched_below(state, k).len() ==> #[trigger] self.searched_below(
                    state,
                    k,
                )[j] < #[trigger] self.searched_below(state, k)[l],
        decreases k,
    {
        if k > 0 {
            self.lemma_searched_below(state, k - 1);
            let prev = self.searched_below(state, k - 1);
            let cur = self.searched_below(state, k);
            if self.is_searched(state, k - 1) {
                assert(cur == prev.push(k - 1));
                assert forall|j: int| 0 <= j < cur.len() implies 0 <= #[trigger] cur[j] < k by {
                    if j < prev.len() {
                        assert(cur[j] == prev[j]);
                    }
                }
                assert forall|j: int, l: int| 0 <= j < l < cur.len() implies #[trigger] cur[j]
                    < #[trigger] cur[l] by {
                    assert(cur[j] == prev[j]);
                    if l < prev.len() {
                        assert(cur[l] == prev[l]);
                    }
                }
            } else {
                assert(cur == prev);
            }
        }
    }

    /// Distinct values of all variables give values to the searched ones.
    proof fn lemma_assignment_is_assignable(
        self,
        state: VariableState,
        chosen: Seq<int>,
        k: int,
        a: Assignment,
    )
        requires
            state.admits(a),
            self.all_different(a),
            0 <= k <= chosen.len(),
            forall|j: int| 0 <= j < chosen.len() ==> 0 <= #[trigger] chosen[j] < self.n(),
            forall|j: int, l: int| 0 <= j < l < chosen.len() ==> #[trigger] chosen[j] < #[trigger] chosen[l],
        ensures
            self.assignable(
                state,
                chosen,
                k,
                Seq::new(k as nat, |j: int| self.variables@[chosen[j]].value(a)),
            ),
        decreases chosen.len() - k,
    {
        let used = Seq::new(k as nat, |j: int| self.variables@[chosen[j]].value(a));
        if k < chosen.len() {
            let var = self.variables@[chosen[k]];
            let v = var.value(a);
            self.lemma_assignment_is_assignable(state, chosen, k + 1, a);
            let next = Seq::new((k + 1) as nat, |j: int| self.variables@[chosen[j]].value(a));
            assert(used.push(v) =~= next);
            match var {
                Variable::Identifier(name) => {
                    assert(state.contains(name@, a(name@)));
                },
                Variable::Constant(c) => {},
            }
            assert(var.allows(state, v));
            assert(!used.contains(v)) by {
                if used.contains(v) {
                    let j = choose|j: int| 0 <= j < used.len() && used[j] == v;
                    assert(chosen[j] < chosen[k]);
                    assert(self.variables@[chosen[j]].value(a) != self.variables@[chosen[k]].value(a));
                }
            }
        }
    }

    /// A recognised conflict is a conflict: no assignment that the state admits gives the
    /// variables pairwise different values.
    pub proof fn lemma_recognised_conflict_is_sound(self, state: VariableState, a: Assignment)
        requires
            self.recognised_conflict(state),
            state.admits(a),
        ensures
            !self.all_different(a),
    {
        let chosen = self.searched_below(state, self.n());
        self.lemma_searched_below(state, self.n());
        if self.all_different(a) {
            self.lemma_assignment_is_assignable(state, chosen, 0, a);
            assert(Seq::new(0, |j: int| self.variables@[chosen[j]].value(a)) =~= Seq::<int>::empty());
        }
    }

    /// Whether `used` holds `v`.
    fn is_used(used: &Vec<i64>, v: i64) -> (r: bool)
        ensures
            r == used@.contains(v),
    {
        let mut i: usize = 0;
        while i < used.len()
            invariant
                0 <= i <= used@.len(),
                forall|j: int| 0 <= j < i ==> used@[j] != v,
            decreases used.len() - i,
        {
            if used[i] == v {
                return true;
            }
            i = i + 1;
        }
        false
    }

    /// Whether the variables at `chosen[k..]`, whose domains are `domains[k..]`, can take
    /// pairwise different values that also differ from `used`.
    fn search(
        &self,
        domains: &Vec<Domain>,
        k: usize,
        used: &mut Vec<i64>,
        Ghost(state): Ghost<VariableState>,
        Ghost(chosen): Ghost<Seq<int>>,
        Ghost(used_values): Ghost<Seq<int>>,
    ) -> (r: bool)
        requires
            domains@.len() == chosen.len(),
            k <= domains@.len(),
            forall|j: int|
                0 <= j < domains@.len() ==> (#[trigger] domains@[j]).wf() && domains@[j].lower is Some
                    && domains@[j].upper is Some,
            forall|j: int, v: int|
                0 <= j < domains@.len() ==> #[trigger] domains@[j].contains(v)
                    == self.variables@[chosen[j]].allows(state, v),
            old(used)@.len() == used_values.len(),
            forall|j: int| 0 <= j < used_values.len() ==> #[trigger] old(used)@[j] as int == used_values[j],
        ensures
            final(used)@ == old(used)@,
            r == self.assignable(state, chosen, k as int, used_values),
        decreases domains@.len() - k,
    {
        if k == domains.len() {
            return true;
        }
        let d = &domains[k];
        let l = match d.lower {
            Some(l) => l,
            None => 0,
        };
        let u = match d.upper {
            Some(u) => u,
            None => 0,
        };
        let ghost var = self.variables@[chosen[k as int]];
        let next = k + 1;
        let mut v = l;
        while v <= u
            invariant
                domains@.len() == chosen.len(),
                k < domains@.len(),
                d == &domains@[k as int],
                d.lower == Some(l),
                d.upper == Some(u),
                d.wf(),
                l <= v,
                v <= u + 1 || v == l,
                u <= i32::MAX,
                next == k + 1,
                var == self.variables@[chosen[k as int]],
                forall|j: int|
                    0 <= j < domains@.len() ==> (#[trigger] domains@[j]).wf() && domains@[j].lower is Some
                        && domains@[j].upper is Some,
                forall|j: int, w: int|
                    0 <= j < domains@.len() ==> #[trigger] domains@[j].contains(w)
                        == self.variables@[chosen[j]].allows(state, w),
                used@.len() == used_values.len(),
                forall|j: int| 0 <= j < used_values.len() ==> #[trigger] used@[j] as int == used_values[j],
                used@ == old(used)@,
                forall|w: int|
                    l <= w < v ==> !(#[trigger] var.allows(state, w) && !used_values.contains(w)
                        && self.assignable(state, chosen, k + 1, used_values.push(w))),
            decreases u + 1 - v,
        {
            let ghost before = used@;
            let hole = d.has_hole(v);
            if !hole && !Self::is_used(used, v) {
                proof {
                    assert(domains@[k as int].contains(v as int));
                    assert(!used_values.contains(v as int)) by {
                        if used_values.contains(v as int) {
                            let j = choose|j: int| 0 <= j < used_values.len() && used_values[j] == v;
                            assert(used@[j] as int == used_values[j]);
                        }
                    }
                }
                used.push(v);
                proof {
                    assert forall|j: int| 0 <= j < used_values.push(v as int).len() implies #[trigger] used@[j] as int
                        == used_values.push(v as int)[j] by {
                        if j < used_values.len() {
                            assert(used@[j] == before[j]);
                        }
                    }
                }
                let found = self.search(
                    domains,
                    next,
                    used,
                    Ghost(state),
                    Ghost(chosen),
                    Ghost(used_values.push(v as int)),
                );
                used.pop();
                proof {
                    assert(used@ =~= before);
                }
                if found {
                    proof {
                        assert(var.allows(state, v as int));
                    }
                    return true;
                }
            } else {
                proof {
                    if !hole {
                        assert(used@.contains(v));
                        let j = choose|j: int| 0 <= j < used@.len() && used@[j] == v;
                        assert(used_values[j] == v as int);
                        assert(used_values.contains(v as int));
                    } else {
                        assert(!domains@[k as int].contains(v as int));
                    }
                }
            }
            v = v + 1;
        }
        proof {
            assert forall|w: int|
                !(#[trigger] var.allows(state, w) && !used_values.contains(w) && self.assignable(
                    state,
                    chosen,
                    k + 1,
                    used_values.push(w),
                )) by {
                if w < l || w > u {
                    assert(!domains@[k as int].contains(w));
                }
            }
        }
        false
    }

    /// Whether the state holds a conflict that the checker recognises.
    pub fn find_conflict(&self, state: &VariableState) -> (r: bool)
        requires
            state.wf(),
        ensures
            r == self.recognised_conflict(*state),
    {
        let n = self.variables.len();
        let mut domains: Vec<Domain> = Vec::new();
        let ghost mut chosen: Seq<int> = Seq::empty();
        let mut i: usize = 0;
        while i < n
            invariant
                n == self.variables@.len(),
                0 <= i <= n,
                state.wf(),
                chosen == self.searched_below(*state, i as int),
                domains@.len() == chosen.len(),
                forall|j: int|
                    0 <= j < domains@.len() ==> (#[trigger] domains@[j]).wf() && domains@[j].lower is Some
                        && domains@[j].upper is Some,
                forall|j: int, v: int|
                    0 <= j < domains@.len() ==> #[trigger] domains@[j].contains(v)
                        == self.variables@[chosen[j]].allows(*state, v),
            decreases n - i,
        {
            let ghost before = domains@;
            match &self.variables[i] {
                Variable::Constant(c) => {
                    domains.push(Domain::singleton(*c));
                    proof {
                        chosen = chosen.push(i as int);
                    }
                },
                Variable::Identifier(name) => match state.domain(name) {
                    Some(d) => match (d.lower, d.upper) {
                        (Some(l), Some(u)) => {
                            if (u as i128) - (l as i128) < (n as i128) + (d.holes.len() as i128) {
                                domains.push(d.copy());
                                proof {
                                    chosen = chosen.push(i as int);
                                }
                            }
                        },
                        _ => {},
                    },
                    None => {},
                },
            }
            proof {
                assert forall|j: int, v: int|
                    0 <= j < domains@.len() implies #[trigger] domains@[j].contains(v)
                        == self.variables@[chosen[j]].allows(*state, v) by {
                    if j < before.len() {
                        assert(domains@[j] == before[j]);
                    }
                }
            }
            i = i + 1;
        }
        let mut used: Vec<i64> = Vec::new();
        let found = self.search(
            &domains,
            0,
            &mut used,
            Ghost(*state),
            Ghost(chosen),
            Ghost(Seq::empty()),
        );
        !found
    }
}

/// A range of integers that is longer than two lists of values together holds a value of
/// neither list.
proof fn lemma_value_outside(lo: int, hi: int, taken: Seq<int>, holes: Seq<i32>) -> (v: int)
    requires
        lo <= hi,
        taken.len() + holes.len() <= hi - lo,
    ensures
        lo <= v <= hi,
        !taken.contains(v),
        forall|i: int| 0 <= i < holes.len() ==> holes[i] as int != v,
{
    let hole_values = holes.map_values(|h: i32| h as int);
    if forall|w: int| lo <= w <= hi ==> taken.contains(w) || hole_values.contains(w) {
        let range = set_int_range(lo, hi + 1);
        let covered = taken.to_set().union(hole_values.to_set());
        lemma_int_range(lo, hi + 1);
        seq_to_set_is_finite(taken);
        seq_to_set_is_finite(hole_values);
        taken.lemma_cardinality_of_set();
        hole_values.lemma_cardinality_of_set();
        lemma_len_union(taken.to_set(), hole_values.to_set());
        assert(range.subset_of(covered)) by {
            assert forall|w: int| range.contains(w) implies covered.contains(w) by {
                assert(taken.contains(w) || hole_values.contains(w));
            }
        }
        lemma_len_subset(range, covered);
        assert(false);
    }
    let v = choose|w: int| lo <= w <= hi && !(taken.contains(w) || hole_values.contains(w));
    assert forall|i: int| 0 <= i < holes.len() implies holes[i] as int != v by {
        if holes[i] as int == v {
            assert(hole_values[i] == v);
        }
    }
    v
}

impl AllDifferentChecker {
    /// No two positions name the same variable.
    pub open spec fn names_distinct(self) -> bool {
        forall|i: int, j: int|
            #![trigger self.variables@[i], self.variables@[j]]
            0 <= i < self.n() && 0 <= j < self.n() && i != j && self.variables@[i].named() is Some
                ==> self.variables@[i].named() != self.variables@[j].named()
    }

    /// The searched indices below `k` come first among those below `m`, and there are at
    /// most `m - k` more of them.
    proof fn lemma_searched_prefix(self, state: VariableState, k: int, m: int)
        requires
            0 <= k <= m,
        ensures
            self.searched_below(state, k).len() <= self.searched_below(state, m).len(),
            self.searched_below(state, m).subrange(0, self.searched_below(state, k).len() as int)
                == self.searched_below(state, k),
            self.searched_below(state, m).len() - self.searched_below(state, k).len() <= m - k,
        decreases m - k,
    {
        if k < m {
            self.lemma_searched_prefix(state, k, m - 1);
            let short = self.searched_below(state, k);
            let mid = self.searched_below(state, m - 1);
            let long = self.searched_below(state, m);
            if self.is_searched(state, m - 1) {
                assert(long == mid.push(m - 1));
                assert(long.subrange(0, short.len() as int) =~= mid.subrange(0, short.len() as int));
            } else {
                assert(long == mid);
            }
        } else {
            assert(self.searched_below(state, m).subrange(0, self.searched_below(state, m).len() as int)
                =~= self.searched_below(state, m));
        }
    }

    /// Values for the variables at `chosen[k..]` that the state allows, that differ from each
    /// other and from `used`.
    proof fn lemma_assignable_values(
        self,
        state: VariableState,
        chosen: Seq<int>,
        k: int,
        used: Seq<int>,
    ) -> (vals: Seq<int>)
        requires
            0 <= k <= chosen.len(),
            self.assignable(state, chosen, k, used),
        ensures
            vals.len() == chosen.len() - k,
            forall|j: int|
                0 <= j < vals.len() ==> self.variables@[chosen[k + j]].allows(state, #[trigger] vals[j]),
            forall|j: int| 0 <= j < vals.len() ==> !used.contains(#[trigger] vals[j]),
            vals.no_duplicates(),
        decreases chosen.len() - k,
    {
        if k == chosen.len() {
            Seq::empty()
        } else {
            let v = choose|v: int|
                #[trigger] self.variables@[chosen[k]].allows(state, v) && !used.contains(v)
                    && self.assignable(state, chosen, k + 1, used.push(v));
            let rest = self.lemma_assignable_values(state, chosen, k + 1, used.push(v));
            let vals = seq![v] + rest;
            assert forall|j: int|
                0 <= j < vals.len() implies self.variables@[chosen[k + j]].allows(
                state,
                #[trigger] vals[j],
            ) by {
                if j > 0 {
                    assert(vals[j] == rest[j - 1]);
                    assert(k + j == (k + 1) + (j - 1));
                }
            }
            assert forall|j: int| 0 <= j < vals.len() implies !used.contains(#[trigger] vals[j]) by {
                if j > 0 {
                    assert(vals[j] == rest[j - 1]);
                    if used.contains(rest[j - 1]) {
                        let q = choose|q: int| 0 <= q < used.len() && used[q] == rest[j - 1];
                        assert(used.push(v)[q] == rest[j - 1]);
                    }
                }
            }
            assert forall|i: int, j: int|
                0 <= i < vals.len() && 0 <= j < vals.len() && i != j implies vals[i] != vals[j] by {
                if i == 0 {
                    assert(vals[j] == rest[j - 1]);
                    assert(used.push(v)[used.len() as int] == v);
                } else if j == 0 {
                    assert(vals[i] == rest[i - 1]);
                    assert(used.push(v)[used.len() as int] == v);
                } else {
                    assert(vals[i] == rest[i - 1]);
                    assert(vals[j] == rest[j - 1]);
                }
            }
            vals
        }
    }

    /// A value for the variable at index `i`, which the checker does not search, that the
    /// state allows and that is none of fewer values than there are variables.
    proof fn lemma_free_value(self, state: VariableState, i: int, taken: Seq<int>) -> (v: int)
        requires
            state.wf(),
            0 <= i < self.n(),
            !self.is_searched(state, i),
            taken.len() < self.n(),
        ensures
            self.variables@[i].allows(state, v),
            !taken.contains(v),
    {
        match self.variables@[i] {
            Variable::Constant(_) => {
                assert(false);
                0
            },
            Variable::Identifier(name) => {
                state.lemma_spec_domain(name@);
                match state.spec_domain(name@) {
                    None => {
                        let v = lemma_value_outside(0, taken.len() as int, taken, Seq::empty());
                        assert(state.contains(name@, v));
                        v
                    },
                    Some(d) => {
                        let h = d.holes@;
                        let room = taken.len() + h.len();
                        let v = match (d.lower, d.upper) {
                            (Some(l), Some(u)) => lemma_value_outside(l as int, u as int, taken, h),
                            (Some(l), None) => lemma_value_outside(l as int, l + room as int, taken, h),
                            (None, Some(u)) => lemma_value_outside(u - room as int, u as int, taken, h),
                            (None, None) => lemma_value_outside(0, room as int, taken, h),
                        };
                        assert(!d.is_hole(v));
                        assert(d.contains(v));
                        v
                    },
                }
            },
        }
    }

    /// Values for the variables at the indices below `i` that the state allows and that are
    /// pairwise different; they also differ from the values that `vals` gives to the searched
    /// indices from `i` on.
    proof fn lemma_position_values(self, state: VariableState, vals: Seq<int>, i: int) -> (values:
        Seq<int>)
        requires
            state.wf(),
            0 <= i <= self.n(),
            vals.len() == self.searched_below(state, self.n()).len(),
            forall|j: int|
                0 <= j < vals.len() ==> self.variables@[self.searched_below(state, self.n())[j]].allows(
                    state,
                    #[trigger] vals[j],
                ),
            vals.no_duplicates(),
        ensures
            values.len() == i,
            forall|j: int| 0 <= j < i ==> self.variables@[j].allows(state, #[trigger] values[j]),
            values.no_duplicates(),
            forall|j: int, q: int|
                0 <= j < i && self.searched_below(state, i).len() <= q < vals.len()
                    ==> #[trigger] values[j] != #[trigger] vals[q],
        decreases i,
    {
        let n = self.n();
        if i == 0 {
            Seq::empty()
        } else {
            let prev = self.lemma_position_values(state, vals, i - 1);
            let p = self.searched_below(state, i - 1).len() as int;
            self.lemma_searched_prefix(state, i - 1, i);
            self.lemma_searched_prefix(state, i, n);
            self.lemma_searched_prefix(state, i - 1, n);
            let all = self.searched_below(state, n);
            let v = if self.is_searched(state, i - 1) {
                assert(self.searched_below(state, i) == self.searched_below(state, i - 1).push(i - 1));
                assert(all.subrange(0, p + 1)[p] == i - 1);
                assert(all[p] == i - 1);
                vals[p]
            } else {
                assert(self.searched_below(state, i) == self.searched_below(state, i - 1));
                let taken = prev + vals.subrange(p, vals.len() as int);
                let v = self.lemma_free_value(state, i - 1, taken);
                assert forall|q: int| p <= q < vals.len() implies vals[q] != v by {
                    assert(taken[(i - 1) + (q - p)] == vals[q]);
                }
                assert forall|j: int| 0 <= j < prev.len() implies prev[j] != v by {
                    assert(taken[j] == prev[j]);
                }
                v
            };
            let values = prev.push(v);
            assert forall|j: int| 0 <= j < i implies self.variables@[j].allows(
                state,
                #[trigger] values[j],
            ) by {
                if j < i - 1 {
                    assert(values[j] == prev[j]);
                }
            }
            assert forall|j: int, k: int|
                0 <= j < values.len() && 0 <= k < values.len() && j != k implies values[j]
                != values[k] by {
                if j < i - 1 && k < i - 1 {
                    assert(values[j] == prev[j]);
                    assert(values[k] == prev[k]);
                } else if j < i - 1 {
                    assert(values[j] == prev[j]);
                } else {
                    assert(values[k] == prev[k]);
                }
            }
            assert forall|j: int, q: int|
                0 <= j < i && self.searched_below(state, i).len() <= q < vals.len()
                    implies #[trigger] values[j] != #[trigger] vals[q] by {
                if j < i - 1 {
                    assert(values[j] == prev[j]);
                }
            }
            values
        }
    }

    /// Where no two positions name the same variable and the state admits some assignment,
    /// the checker misses no conflict: when it recognises none, some assignment that the
    /// state admits gives the variables pairwise different values.
    pub proof fn lemma_unrecognised_conflict_is_satisfiable(self, state: VariableState, b: Assignment)
        requires
            state.wf(),
            state.admits(b),
            self.names_distinct(),
            !self.recognised_conflict(state),
        ensures
            exists|a: Assignment| #[trigger] state.admits(a) && self.all_different(a),
    {
        let n = self.n();
        let chosen = self.searched_below(state, n);
        let vals = self.lemma_assignable_values(state, chosen, 0, Seq::empty());
        assert forall|j: int| 0 <= j < vals.len() implies self.variables@[chosen[j]].allows(
            state,
            #[trigger] vals[j],
        ) by {
            assert(chosen[0 + j] == chosen[j]);
        }
        let values = self.lemma_position_values(state, vals, n);
        let a = |name: Seq<char>|
            if exists|j: int|
                0 <= j < n && (#[trigger] self.variables@[j]).named() == Some(name) {
                values[choose|j: int|
                    0 <= j < n && (#[trigger] self.variables@[j]).named() == Some(name)]
            } else {
                b(name)
            };
        assert forall|j: int| 0 <= j < n implies #[trigger] self.variables@[j].value(a) == values[j] by {
            match self.variables@[j] {
                Variable::Identifier(name) => {
                    let k = choose|k: int|
                        0 <= k < n && (#[trigger] self.variables@[k]).named() == Some(name@);
                    assert(self.variables@[j].named() == Some(name@));
                    if k != j {
                        assert(self.variables@[k].named() != self.variables@[j].named());
                    }
                },
                Variable::Constant(c) => {
                    assert(self.variables@[j].allows(state, values[j]));
                },
            }
        }
        assert forall|name: Seq<char>| #[trigger] state.contains(name, a(name)) by {
            if exists|j: int|
                0 <= j < n && (#[trigger] self.variables@[j]).named() == Some(name) {
                let k = choose|k: int|
                    0 <= k < n && (#[trigger] self.variables@[k]).named() == Some(name);
                assert(self.variables@[k].allows(state, values[k]));
            } else {
                assert(state.contains(name, b(name)));
            }
        }
        assert(self.all_different(a)) by {
            assert forall|i: int, j: int|
                0 <= i < j < n implies #[trigger] self.variables@[i].value(a)
                != #[trigger] self.variables@[j].value(a) by {
                assert(self.variables@[i].value(a) == values[i]);
                assert(self.variables@[j].value(a) == values[j]);
            }
        }
        assert(state.admits(a) && self.all_different(a));
    }
}

impl AllDifferentChecker {
    /// Where no two positions name the same variable and the state admits some assignment,
    /// the checker recognises a conflict exactly when no assignment that the state admits
    /// gives the variables pairwise different values.
    pub proof fn lemma_recognised_conflict_is_exact(self, state: VariableState, b: Assignment)
        requires
            state.wf(),
            state.admits(b),
            self.names_distinct(),
        ensures
            self.recognised_conflict(state) <==> forall|a: Assignment|
                #[trigger] state.admits(a) ==> !self.all_different(a),
    {
        if self.recognised_conflict(state) {
            assert forall|a: Assignment| #[trigger] state.admits(a) implies !self.all_different(a) by {
                self.lemma_recognised_conflict_is_sound(state, a);
            }
        } else {
            self.lemma_unrecognised_conflict_is_satisfiable(state, b);
        }
    }
}

impl InferenceChecker for AllDifferentChecker {
    open spec fn satisfied_by(&self, assignment: Assignment) -> bool {
        self.all_different(assignment)
    }

    fn check(&self, state: VariableState, premises: &Vec<Atomic>, consequent: Option<&Atomic>) -> (conflict: bool)
        ensures
            conflict == self.recognised_conflict(state),
    {
        let conflict = self.find_conflict(&state);
        proof {
            if conflict {
                assert forall|a: Assignment| state.admits(a) implies !#[trigger] self.satisfied_by(a) by {
                    self.lemma_recognised_conflict_is_sound(state, a);
                }
            }
        }
        conflict
    }
}

} // verus!
