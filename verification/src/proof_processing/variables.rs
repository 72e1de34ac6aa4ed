use vstd::prelude::*;

use crate::predicates::DomainId;

verus! {

/// The variables of a model: each variable name stands for one domain of the solver.
#[derive(Debug)]
pub struct Variables {
    names: Vec<String>,
    domains: Vec<DomainId>,
}

impl Variables {
    /// Names and domains correspond one to one.
    pub closed spec fn wf(self) -> bool {
        &&& self.names@.len() == self.domains@.len()
        &&& forall|i: int, j: int|
            #![trigger self.names@[i], self.names@[j]]
            0 <= i < self.names@.len() && 0 <= j < self.names@.len() && i != j
                ==> self.names@[i]@ != self.names@[j]@
        &&& forall|i: int, j: int|
            #![trigger self.domains@[i], self.domains@[j]]
            0 <= i < self.domains@.len() && 0 <= j < self.domains@.len() && i != j
                ==> self.domains@[i] != self.domains@[j]
    }

    /// The domain of the variable `name`, if there is such a variable.
    pub closed spec fn domain_of(self, name: Seq<char>) -> Option<DomainId> {
        if exists|i: int| 0 <= i < self.names@.len() && (#[trigger] self.names@[i])@ == name {
            Some(
                self.domains@[choose|i: int|
                    0 <= i < self.names@.len() && (#[trigger] self.names@[i])@ == name],
            )
        } else {
            None
        }
    }

    /// The name of the variable whose domain is `d`, if there is such a variable.
    pub closed spec fn name_of(self, d: DomainId) -> Option<Seq<char>> {
        if exists|i: int| 0 <= i < self.domains@.len() && #[trigger] self.domains@[i] == d {
            Some(
                self.names@[choose|i: int| 0 <= i < self.domains@.len() && #[trigger] self.domains@[i] == d]@,
            )
        } else {
            None
        }
    }

    /// Looking up the name of a domain and then the domain of that name gives the domain
    /// back, and the other way round.
    pub proof fn lemma_names_and_domains_correspond(self)
        requires
            self.wf(),
        ensures
            forall|d: DomainId| #[trigger] self.name_of(d) is Some ==> self.domain_of(self.name_of(d)->0) == Some(d),
            forall|n: Seq<char>| #[trigger] self.domain_of(n) is Some ==> self.name_of(self.domain_of(n)->0) == Some(n),
    {
        assert forall|d: DomainId| #[trigger] self.name_of(d) is Some implies self.domain_of(self.name_of(d)->0) == Some(d) by {
            let i = choose|i: int| 0 <= i < self.domains@.len() && #[trigger] self.domains@[i] == d;
            let n = self.names@[i]@;
            let j = choose|j: int| 0 <= j < self.names@.len() && (#[trigger] self.names@[j])@ == n;
            if i != j {
                assert(self.names@[i]@ != self.names@[j]@);
            }
        }
        assert forall|n: Seq<char>| #[trigger] self.domain_of(n) is Some implies self.name_of(self.domain_of(n)->0) == Some(n) by {
            let i = choose|i: int| 0 <= i < self.names@.len() && (#[trigger] self.names@[i])@ == n;
            let d = self.domains@[i];
            let j = choose|j: int| 0 <= j < self.domains@.len() && #[trigger] self.domains@[j] == d;
            if i != j {
                assert(self.domains@[i] != self.domains@[j]);
            }
        }
    }

    /// No variables.
    pub fn new() -> (v: Variables)
        ensures
            v.wf(),
            forall|n: Seq<char>| v.domain_of(n) is None,
            forall|d: DomainId| v.name_of(d) is None,
    {
        Variables { names: Vec::new(), domains: Vec::new() }
    }

    fn index_of_name(&self, name: &String) -> (r: Option<usize>)
        requires
            self.wf(),
        ensures
            r matches Some(i) ==> i < self.names@.len() && self.names@[i as int]@ == name@,
            r is None ==> forall|i: int| 0 <= i < self.names@.len() ==> (#[trigger] self.names@[i])@ != name@,
    {
        let mut i: usize = 0;
        while i < self.names.len()
            invariant
                0 <= i <= self.names@.len(),
                forall|j: int| 0 <= j < i ==> (#[trigger] self.names@[j])@ != name@,
            decreases self.names.len() - i,
        {
            if self.names[i] == *name {
                return Some(i);
            }
            i = i + 1;
        }
        None
    }

    fn index_of_domain(&self, d: DomainId) -> (r: Option<usize>)
        requires
            self.wf(),
        ensures
            r matches Some(i) ==> i < self.domains@.len() && self.domains@[i as int] == d,
            r is None ==> forall|i: int| 0 <= i < self.domains@.len() ==> #[trigger] self.domains@[i] != d,
    {
        let mut i: usize = 0;
        while i < self.domains.len()
            invariant
                0 <= i <= self.domains@.len(),
                forall|j: int| 0 <= j < i ==> #[trigger] self.domains@[j] != d,
            decreases self.domains.len() - i,
        {
            if self.domains[i] == d {
                return Some(i);
            }
            i = i + 1;
        }
        None
    }

    /// Adds the variable `name` for the domain `d`. A name or a domain that already has a
    /// variable is refused, and the variables stay as they are.
    pub fn add_variable(&mut self, name: String, d: DomainId) -> (added: bool)
        requires
            old(self).wf(),
        ensures
            final(self).wf(),
            added == (old(self).domain_of(name@) is None && old(self).name_of(d) is None),
            added ==> final(self).domain_of(name@) == Some(d) && final(self).name_of(d) == Some(name@),
            forall|n: Seq<char>| n != name@ ==> #[trigger] final(self).domain_of(n) == old(self).domain_of(n),
            forall|e: DomainId| e != d ==> #[trigger] final(self).name_of(e) == old(self).name_of(e),
            !added ==> forall|n: Seq<char>| #[trigger] final(self).domain_of(n) == old(self).domain_of(n),
            !added ==> forall|e: DomainId| #[trigger] final(self).name_of(e) == old(self).name_of(e),
    {
        let by_name = self.index_of_name(&name);
        let by_domain = self.index_of_domain(d);
        if by_name.is_some() || by_domain.is_some() {
            proof {
                if let Some(i) = by_name {
                    assert(self.names@[i as int]@ == name@);
                }
                if let Some(i) = by_domain {
                    assert(self.domains@[i as int] == d);
                }
            }
            return false;
        }
        let ghost old_self = *self;
        let ghost name_view = name@;
        self.names.push(name);
        self.domains.push(d);
        proof {
            let last = self.names@.len() - 1;
            assert(self.names@[last]@ == name_view);
            assert forall|i: int, j: int|
                #![trigger self.names@[i], self.names@[j]]
                0 <= i < self.names@.len() && 0 <= j < self.names@.len() && i != j
                    implies self.names@[i]@ != self.names@[j]@ by {
                if i < last && j < last {
                    assert(self.names@[i] == old_self.names@[i]);
                    assert(self.names@[j] == old_self.names@[j]);
                } else if i < last {
                    assert(self.names@[i] == old_self.names@[i]);
                } else {
                    assert(self.names@[j] == old_self.names@[j]);
                }
            }
            assert forall|i: int, j: int|
                #![trigger self.domains@[i], self.domains@[j]]
                0 <= i < self.domains@.len() && 0 <= j < self.domains@.len() && i != j
                    implies self.domains@[i] != self.domains@[j] by {
                if i < last && j < last {
                    assert(self.domains@[i] == old_self.domains@[i]);
                    assert(self.domains@[j] == old_self.domains@[j]);
                } else if i < last {
                    assert(self.domains@[i] == old_self.domains@[i]);
                } else {
                    assert(self.domains@[j] == old_self.domains@[j]);
                }
            }
            assert forall|n: Seq<char>| n != name_view implies #[trigger] self.domain_of(n) == old_self.domain_of(n) by {
                if exists|i: int| 0 <= i < self.names@.len() && (#[trigger] self.names@[i])@ == n {
                    let i = choose|i: int| 0 <= i < self.names@.len() && (#[trigger] self.names@[i])@ == n;
                    assert(i < last);
                    assert(old_self.names@[i] == self.names@[i]);
                    let j = choose|j: int| 0 <= j < old_self.names@.len() && (#[trigger] old_self.names@[j])@ == n;
                    assert(self.names@[j] == old_self.names@[j]);
                    if i != j {
                        assert(self.names@[i]@ != self.names@[j]@);
                    }
                } else {
                    if exists|j: int| 0 <= j < old_self.names@.len() && (#[trigger] old_self.names@[j])@ == n {
                        let j = choose|j: int| 0 <= j < old_self.names@.len() && (#[trigger] old_self.names@[j])@ == n;
                        assert(self.names@[j] == old_self.names@[j]);
                    }
                }
            }
            assert forall|e: DomainId| e != d implies #[trigger] self.name_of(e) == old_self.name_of(e) by {
                if exists|i: int| 0 <= i < self.domains@.len() && #[trigger] self.domains@[i] == e {
                    let i = choose|i: int| 0 <= i < self.domains@.len() && #[trigger] self.domains@[i] == e;
                    assert(i < last);
                    assert(old_self.domains@[i] == self.domains@[i]);
                    let j = choose|j: int| 0 <= j < old_self.domains@.len() && #[trigger] old_self.domains@[j] == e;
                    assert(self.domains@[j] == old_self.domains@[j]);
                    if i != j {
                        assert(self.domains@[i] != self.domains@[j]);
                    }
                    assert(self.names@[i] == old_self.names@[i]);
                } else {
                    if exists|j: int| 0 <= j < old_self.domains@.len() && #[trigger] old_self.domains@[j] == e {
                        let j = choose|j: int| 0 <= j < old_self.domains@.len() && #[trigger] old_self.domains@[j] == e;
                        assert(self.domains@[j] == old_self.domains@[j]);
                    }
                }
            }
            let i = choose|i: int| 0 <= i < self.names@.len() && (#[trigger] self.names@[i])@ == name_view;
            if i != last {
                assert(old_self.names@[i] == self.names@[i]);
            }
            let j = choose|j: int| 0 <= j < self.domains@.len() && #[trigger] self.domains@[j] == d;
            if j != last {
                assert(old_self.domains@[j] == self.domains@[j]);
            }
        }
        true
    }

    /// The domain of the variable `name`.
    pub fn get_domain_by_name(&self, name: &String) -> (r: Option<DomainId>)
        requires
            self.wf(),
        ensures
            r == self.domain_of(name@),
    {
        match self.index_of_name(name) {
            Some(i) => {
                proof {
                    let j = choose|j: int| 0 <= j < self.names@.len() && (#[trigger] self.names@[j])@ == name@;
                    if i != j {
                        assert(self.names@[i as int]@ != self.names@[j]@);
                    }
                }
                Some(self.domains[i])
            },
            None => None,
        }
    }

    /// The name of the variable whose domain is `d`.
    pub fn get_name_for_domain(&self, d: DomainId) -> (r: Option<&String>)
        requires
            self.wf(),
        ensures
            r matches Some(n) ==> self.name_of(d) == Some(n@),
            r is None ==> self.name_of(d) is None,
    {
        match self.index_of_domain(d) {
            Some(i) => {
                proof {
                    let j = choose|j: int| 0 <= j < self.domains@.len() && #[trigger] self.domains@[j] == d;
                    if i != j {
                        assert(self.domains@[i as int] != self.domains@[j]);
                    }
                }
                Some(&self.names[i])
            },
            None => None,
        }
    }
}

} // verus!
