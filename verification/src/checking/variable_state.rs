use vstd::prelude::*;

use super::comparison::{comparison_holds, Comparison};
use super::domain::Domain;

verus! {

/// The domains of named variables. A variable that was never restricted can take any integer.
#[derive(Debug)]
pub struct VariableState {
    names: Vec<String>,
    domains: Vec<Domain>,
}

impl VariableState {
    /// Each name occurs once and each domain is well formed.
    pub closed spec fn wf(self) -> bool {
        &&& self.names@.len() == self.domains@.len()
        &&& forall|i: int, j: int|
            0 <= i < self.names@.len() && 0 <= j < self.names@.len() && i != j
                ==> self.names@[i]@ != self.names@[j]@
        &&& forall|i: int| 0 <= i < self.domains@.len() ==> (#[trigger] self.domains@[i]).wf()
    }

    /// Whether the variable `name` can take the value `v`.
    pub closed spec fn contains(self, name: Seq<char>, v: int) -> bool {
        forall|i: int|
            0 <= i < self.names@.len() && (#[trigger] self.names@[i])@ == name
                ==> self.domains@[i].contains(v)
    }

    /// Every variable takes a value that the state allows.
    pub open spec fn admits(self, assignment: spec_fn(Seq<char>) -> int) -> bool {
        forall|n: Seq<char>| #[trigger] self.contains(n, assignment(n))
    }

    /// The stored domain of `name`, if `name` was ever restricted.
    pub closed spec fn spec_domain(self, name: Seq<char>) -> Option<Domain> {
        if exists|i: int| 0 <= i < self.names@.len() && (#[trigger] self.names@[i])@ == name {
            Some(
                self.domains@[choose|i: int|
                    0 <= i < self.names@.len() && (#[trigger] self.names@[i])@ == name],
            )
        } else {
            None
        }
    }

    /// Whether every value that `name` can take satisfies `[name <comparison> k]`.
    pub open spec fn entails(self, name: Seq<char>, comparison: Comparison, k: int) -> bool {
        forall|v: int| self.contains(name, v) ==> comparison_holds(comparison, v, k)
    }

    /// Whether `name` can take no value.
    pub open spec fn is_empty_for(self, name: Seq<char>) -> bool {
        forall|v: int| !self.contains(name, v)
    }

    /// The values of `name` are those of its stored domain, or every integer where `name`
    /// was never restricted.
    pub proof fn lemma_spec_domain(self, name: Seq<char>)
        requires
            self.wf(),
        ensures
            self.spec_domain(name) matches Some(d) ==> d.wf() && forall|v: int|
                #[trigger] d.contains(v) == self.contains(name, v),
            self.spec_domain(name) is None ==> forall|v: int| #[trigger] self.contains(name, v),
    {
        if exists|i: int| 0 <= i < self.names@.len() && (#[trigger] self.names@[i])@ == name {
            let i = choose|i: int| 0 <= i < self.names@.len() && (#[trigger] self.names@[i])@ == name;
            assert forall|v: int| #[trigger] self.domains@[i].contains(v) == self.contains(name, v) by {
                if self.domains@[i].contains(v) {
                    assert forall|j: int|
                        0 <= j < self.names@.len() && (#[trigger] self.names@[j])@ == name implies self.domains@[j].contains(v) by {
                        if j != i {
                            assert(self.names@[i]@ != self.names@[j]@);
                        }
                    }
                }
            }
        }
    }

    /// The state in which every variable can take every integer.
    pub fn new() -> (s: VariableState)
        ensures
            s.wf(),
            forall|name: Seq<char>, v: int| s.contains(name, v),
    {
        VariableState { names: Vec::new(), domains: Vec::new() }
    }

    fn find(&self, name: &String) -> (r: Option<usize>)
        requires
            self.wf(),
        ensures
            r matches Some(i) ==> i < self.names@.len() && self.names@[i as int]@ == name@,
            r is None ==> forall|i: int|
                0 <= i < self.names@.len() ==> (#[trigger] self.names@[i])@ != name@,
    {
        let mut i: usize = 0;
        while i < self.names.len()
            invariant
                0 <= i <= self.names@.len(),
                forall|j: int| 0 <= j < i ==> (#[trigger] self.names@[j])@ != name@,
            decreases self.names.len() - i,
        {
            if self.names[i] == *name {
                return Some(i);
            }
            i = i + 1;
        }
        None
    }

    /// The domain of `name`: `None` where `name` can take every integer.
    pub fn domain(&self, name: &String) -> (r: Option<&Domain>)
        requires
            self.wf(),
        ensures
            r matches Some(d) ==> d.wf() && forall|v: int| d.contains(v) == self.contains(
                name@,
                v,
            ),
            r is None ==> forall|v: int| self.contains(name@, v),
            r matches Some(d) ==> self.spec_domain(name@) == Some(*d),
            r is None ==> self.spec_domain(name@) is None,
    {
        match self.find(name) {
            Some(i) => {
                proof {
                    let j = choose|j: int|
                        0 <= j < self.names@.len() && (#[trigger] self.names@[j])@ == name@;
                    if j != i {
                        assert(self.names@[i as int]@ != self.names@[j]@);
                    }
                    assert forall|v: int|
                        self.domains@[i as int].contains(v) == self.contains(name@, v) by {
                        if !self.domains@[i as int].contains(v) {
                            assert(self.names@[i as int]@ == name@);
                        } else {
                            assert forall|j: int|
                                0 <= j < self.names@.len() && (#[trigger] self.names@[j])@
                                    == name@ implies self.domains@[j].contains(v) by {
                                if j != i {
                                    assert(self.names@[i as int]@ != self.names@[j]@);
                                }
                            }
                        }
                    }
                }
                Some(&self.domains[i])
            },
            None => None,
        }
    }

    /// Restricts `name` to the values `v` with `v <comparison> k`, and tells whether `name`
    /// can still take a value.
    pub fn apply(&mut self, name: &String, comparison: Comparison, k: i32) -> (consistent: bool)
        requires
            old(self).wf(),
        ensures
            final(self).wf(),
            forall|n: Seq<char>, v: int|
                #[trigger] final(self).contains(n, v) == (old(self).contains(n, v) && (n
                    == name@ ==> comparison_holds(comparison, v, k as int))),
            consistent == !final(self).is_empty_for(name@),
    {
        let ghost start = *self;
        let i = match self.find(name) {
            Some(i) => i,
            None => {
                self.names.push(name.clone());
                self.domains.push(Domain::unbounded());
                proof {
                    assert forall|n: Seq<char>, v: int|
                        #[trigger] self.contains(n, v) == start.contains(n, v) by {
                        if !start.contains(n, v) {
                            let j = choose|j: int|
                                0 <= j < start.names@.len() && (#[trigger] start.names@[j])@
                                    == n && !start.domains@[j].contains(v);
                            assert(self.names@[j] == start.names@[j]);
                            assert(self.domains@[j] == start.domains@[j]);
                        }
                        if !self.contains(n, v) {
                            let j = choose|j: int|
                                0 <= j < self.names@.len() && (#[trigger] self.names@[j])@ == n
                                    && !self.domains@[j].contains(v);
                            assert(j < start.names@.len());
                            assert(self.names@[j] == start.names@[j]);
                        }
                    }
                }
                self.names.len() - 1
            },
        };
        let ghost mid = *self;
        assert(mid.names@[i as int]@ == name@);
        self.domains[i].apply(comparison, k);
        proof {
            assert(self.names@ == mid.names@);
            assert forall|j: int| 0 <= j < self.domains@.len() implies (
            #[trigger] self.domains@[j]).wf() by {
                if j != i {
                    assert(self.domains@[j] == mid.domains@[j]);
                }
            }
            assert forall|n: Seq<char>, v: int|
                #[trigger] self.contains(n, v) == (mid.contains(n, v) && (n == name@
                    ==> comparison_holds(comparison, v, k as int))) by {
                if n == name@ {
                    assert(self.names@[i as int]@ == n);
                    if self.domains@[i as int].contains(v) {
                        assert forall|j: int|
                            0 <= j < self.names@.len() && (#[trigger] self.names@[j])@
                                == n implies self.domains@[j].contains(v) by {
                            if j != i {
                                assert(self.names@[i as int]@ != self.names@[j]@);
                            }
                        }
                        assert forall|j: int|
                            0 <= j < mid.names@.len() && (#[trigger] mid.names@[j])@
                                == n implies mid.domains@[j].contains(v) by {
                            if j != i {
                                assert(mid.names@[i as int]@ != mid.names@[j]@);
                            }
                        }
                    }
                    if mid.contains(n, v) {
                        assert(mid.domains@[i as int].contains(v));
                    }
                } else {
                    if !self.contains(n, v) {
                        let j = choose|j: int|
                            0 <= j < self.names@.len() && (#[trigger] self.names@[j])@ == n
                                && !self.domains@[j].contains(v);
                        assert(j != i);
                        assert(self.domains@[j] == mid.domains@[j]);
                    }
                    if !mid.contains(n, v) {
                        let j = choose|j: int|
                            0 <= j < mid.names@.len() && (#[trigger] mid.names@[j])@ == n
                                && !mid.domains@[j].contains(v);
                        assert(j != i);
                        assert(self.domains@[j] == mid.domains@[j]);
                    }
                }
            }
        }
        let empty = self.domains[i].is_empty();
        proof {
            assert forall|v: int|
                self.domains@[i as int].contains(v) == self.contains(name@, v) by {
                assert(self.names@[i as int]@ == name@);
                if self.domains@[i as int].contains(v) {
                    assert forall|j: int|
                        0 <= j < self.names@.len() && (#[trigger] self.names@[j])@
                            == name@ implies self.domains@[j].contains(v) by {
                        if j != i {
                            assert(self.names@[i as int]@ != self.names@[j]@);
                        }
                    }
                }
            }
        }
        proof {
            if !empty {
                let w = choose|w: int| self.domains@[i as int].contains(w);
                assert(self.contains(name@, w));
            }
        }
        !empty
    }

    /// Whether every value that `name` can take satisfies `[name <comparison> k]`.
    pub fn is_true(&self, name: &String, comparison: Comparison, k: i32) -> (r: bool)
        requires
            self.wf(),
        ensures
            r == self.entails(name@, comparison, k as int),
    {
        match self.domain(name) {
            Some(d) => {
                let r = d.is_entailed(comparison, k);
                proof {
                    if !r {
                        let w = choose|w: int|
                            d.contains(w) && !comparison_holds(comparison, w, k as int);
                        assert(self.contains(name@, w));
                    } else {
                        assert forall|v: int| self.contains(name@, v) implies comparison_holds(
                            comparison,
                            v,
                            k as int,
                        ) by {
                            assert(d.contains(v));
                        }
                    }
                }
                r
            },
            None => {
                proof {
                    let w = if comparison == Comparison::NotEqual {
                        k as int
                    } else if comparison_holds(comparison, k as int - 1, k as int) {
                        k as int + 1
                    } else {
                        k as int - 1
                    };
                    assert(self.contains(name@, w));
                    assert(!comparison_holds(comparison, w, k as int));
                }
                false
            },
        }
    }
}

} // verus!
