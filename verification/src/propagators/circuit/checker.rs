use vstd::prelude::*;

use crate::checking::inference::{InferenceChecker, Variable};
use crate::checking::variable_state::VariableState;
use crate::conflict_resolving::atomic::{Assignment, Atomic};

verus! {

/// Whether the state lets the variable take the value `v` only.
pub open spec fn fixed_to(var: Variable, state: VariableState, v: int) -> bool {
    forall|w: int| #[trigger] var.allows(state, w) <==> w == v
}

/// The value the state fixes the variable to, if any.
pub open spec fn fixed_value(var: Variable, state: VariableState) -> Option<int> {
    if exists|v: int| fixed_to(var, state, v) {
        Some(choose|v: int| fixed_to(var, state, v))
    } else {
        None
    }
}

/// Checks inferences of the circuit constraint: `successors[i]` is the node (counted from 1)
/// that follows node `i + 1`, and the successors form a single cycle through all nodes.
#[derive(Clone, Debug)]
pub struct CircuitChecker {
    pub successors: Vec<Variable>,
}

impl CircuitChecker {
    pub open spec fn n(self) -> int {
        self.successors@.len() as int
    }

    /// The index of the node that follows the node at index `i`.
    pub open spec fn next_index(self, a: Assignment, i: int) -> int {
        self.successors@[i].value(a) - 1
    }

    /// The index reached from index `i` in `k` steps.
    pub open spec fn walk(self, a: Assignment, i: int, k: nat) -> int
        decreases k,
    {
        if k == 0 {
            i
        } else {
            self.next_index(a, self.walk(a, i, (k - 1) as nat))
        }
    }

    /// The successors form one cycle through all nodes: each successor is a node, no two
    /// nodes share a successor, and no node is reached again in fewer steps than there are
    /// nodes.
    pub open spec fn is_circuit(self, a: Assignment) -> bool {
        &&& forall|i: int| 0 <= i < self.n() ==> 1 <= #[trigger] self.successors@[i].value(a) <= self.n()
        &&& forall|i: int, j: int|
            0 <= i < self.n() && 0 <= j < self.n() && i != j ==> #[trigger] self.successors@[i].value(
                a,
            ) != #[trigger] self.successors@[j].value(a)
        &&& forall|i: int, k: nat| 0 <= i < self.n() && 1 <= k < self.n() ==> #[trigger] self.walk(a, i, k) != i
    }

    /// The index reached from `i` in `k` steps along successors that the state fixes, if
    /// every step is fixed to a node.
    pub open spec fn fixed_walk(self, state: VariableState, i: int, k: nat) -> Option<int>
        decreases k,
    {
        if k == 0 {
            Some(i)
        } else {
            match self.fixed_walk(state, i, (k - 1) as nat) {
                Some(x) => if 0 <= x < self.n() {
                    match fixed_value(self.successors@[x], state) {
                        Some(v) => Some(v - 1),
                        None => None,
                    }
                } else {
                    None
                },
                None => None,
            }
        }
    }

    /// The successor at index `i` has no value among the nodes.
    pub open spec fn without_node(self, state: VariableState, i: int) -> bool {
        forall|v: int| 1 <= v <= self.n() ==> !#[trigger] self.successors@[i].allows(state, v)
    }

    /// Some successor has no value among the nodes.
    pub open spec fn has_successor_without_node(self, state: VariableState) -> bool {
        exists|i: int| 0 <= i < self.n() && #[trigger] self.without_node(state, i)
    }

    /// Two successors are fixed to the same node.
    pub open spec fn has_shared_fixed_successor(self, state: VariableState) -> bool {
        exists|i: int, j: int|
            0 <= i < j < self.n() && fixed_value(self.successors@[i], state) is Some
                && #[trigger] fixed_value(self.successors@[i], state) == #[trigger] fixed_value(
                self.successors@[j],
                state,
            )
    }

    /// The fixed successors close a cycle through fewer nodes than there are.
    pub open spec fn has_short_fixed_cycle(self, state: VariableState) -> bool {
        exists|i: int, k: nat|
            0 <= i < self.n() && 1 <= k < self.n() && #[trigger] self.fixed_walk(state, i, k) == Some(i)
    }

    /// The conflicts that the checker recognises.
    pub open spec fn recognised_conflict(self, state: VariableState) -> bool {
        ||| self.has_successor_without_node(state)
        ||| self.has_shared_fixed_successor(state)
        ||| self.has_short_fixed_cycle(state)
    }

    proof fn lemma_walk_follows_fixed(self, state: VariableState, a: Assignment, i: int, k: nat)
        requires
            state.admits(a),
            self.fixed_walk(state, i, k) is Some,
        ensures
            self.walk(a, i, k) == self.fixed_walk(state, i, k)->0,
        decreases k,
    {
        if k > 0 {
            self.lemma_walk_follows_fixed(state, a, i, (k - 1) as nat);
            let x = self.fixed_walk(state, i, (k - 1) as nat)->0;
            let var = self.successors@[x];
            let v = choose|v: int| fixed_to(var, state, v);
            match var {
                Variable::Identifier(name) => {
                    assert(state.contains(name@, a(name@)));
                    assert(var.allows(state, a(name@)));
                },
                Variable::Constant(c) => {
                    assert(var.allows(state, c as int));
                },
            }
        }
    }

    proof fn lemma_walk_leaves_nodes(self, state: VariableState, i: int, k: nat)
        requires
            self.fixed_walk(state, i, k) is Some,
            !(0 <= self.fixed_walk(state, i, k)->0 < self.n()),
        ensures
            self.fixed_walk(state, i, k + 1) is None,
    {
        assert(((k + 1) as nat - 1) as nat == k);
    }

    proof fn lemma_walk_stays_unfixed(self, state: VariableState, i: int, k: nat, m: nat)
        requires
            self.fixed_walk(state, i, k) is None,
            k <= m,
        ensures
            self.fixed_walk(state, i, m) is None,
        decreases m - k,
    {
        if k < m {
            self.lemma_walk_stays_unfixed(state, i, k, (m - 1) as nat);
        }
    }

    /// A recognised conflict is a conflict: no assignment that the state admits forms a
    /// circuit.
    pub proof fn lemma_recognised_conflict_is_sound(self, state: VariableState, a: Assignment)
        requires
            self.recognised_conflict(state),
            state.admits(a),
        ensures
            !self.is_circuit(a),
    {
        assert forall|i: int| 0 <= i < self.n() implies #[trigger] self.successors@[i].allows(
            state,
            self.successors@[i].value(a),
        ) by {
            match self.successors@[i] {
                Variable::Identifier(name) => {
                    assert(state.contains(name@, a(name@)));
                },
                Variable::Constant(c) => {},
            }
        }
        if self.has_successor_without_node(state) {
            let i = choose|i: int| 0 <= i < self.n() && #[trigger] self.without_node(state, i);
            assert(self.successors@[i].allows(state, self.successors@[i].value(a)));
        } else if self.has_shared_fixed_successor(state) {
            let (i, j) = choose|i: int, j: int|
                0 <= i < j < self.n() && fixed_value(self.successors@[i], state) is Some
                    && #[trigger] fixed_value(self.successors@[i], state) == #[trigger] fixed_value(
                    self.successors@[j],
                    state,
                );
            let vi = choose|v: int| fixed_to(self.successors@[i], state, v);
            let vj = choose|v: int| fixed_to(self.successors@[j], state, v);
            assert(self.successors@[i].allows(state, self.successors@[i].value(a)));
            assert(self.successors@[j].allows(state, self.successors@[j].value(a)));
            assert(self.successors@[i].value(a) == vi);
            assert(self.successors@[j].value(a) == vj);
        } else {
            let (i, k) = choose|i: int, k: nat|
                0 <= i < self.n() && 1 <= k < self.n() && #[trigger] self.fixed_walk(state, i, k)
                    == Some(i);
            self.lemma_walk_follows_fixed(state, a, i, k);
            assert(self.walk(a, i, k) == i);
        }
    }

    /// The value a variable is fixed to, if the state fixes it.
    fn fixed_value_of(state: &VariableState, var: &Variable) -> (r: Option<i64>)
        requires
            state.wf(),
        ensures
            r matches Some(x) ==> fixed_value(*var, *state) == Some(x as int),
            r is None ==> fixed_value(*var, *state) is None,
    {
        match var {
            Variable::Constant(c) => {
                proof {
                    assert(fixed_to(*var, *state, *c as int));
                    let y = choose|v: int| fixed_to(*var, *state, v);
                    assert(var.allows(*state, y));
                }
                Some(*c as i64)
            },
            Variable::Identifier(name) => match state.domain(name) {
                Some(d) => {
                    let r = d.fixed_value();
                    proof {
                        assert forall|w: int| #[trigger] var.allows(*state, w) == d.contains(w) by {}
                        match r {
                            Some(x) => {
                                assert forall|w: int| #[trigger]
                                    var.allows(*state, w) <==> w == x as int by {
                                    assert(d.contains(w) <==> w == x);
                                }
                                assert(fixed_to(*var, *state, x as int));
                                let y = choose|v: int| fixed_to(*var, *state, v);
                                assert(var.allows(*state, y));
                            },
                            None => {
                                if exists|v: int| fixed_to(*var, *state, v) {
                                    let y = choose|v: int| fixed_to(*var, *state, v);
                                    assert(var.allows(*state, y));
                                    assert(d.contains(y));
                                    let (p, q) = choose|p: int, q: int|
                                        p != q && d.contains(p) && d.contains(q);
                                    assert(var.allows(*state, p));
                                    assert(var.allows(*state, q));
                                }
                            },
                        }
                    }
                    r
                },
                None => {
                    proof {
                        if exists|v: int| fixed_to(*var, *state, v) {
                            let y = choose|v: int| fixed_to(*var, *state, v);
                            assert(var.allows(*state, y + 1));
                        }
                    }
                    None
                },
            },
        }
    }

    /// Whether the variable can take a value from `1` to `n`.
    fn has_node_value(state: &VariableState, var: &Variable, n: i32) -> (r: bool)
        requires
            state.wf(),
            n >= 1,
        ensures
            r == exists|v: int| 1 <= v <= n && #[trigger] var.allows(*state, v),
    {
        match var {
            Variable::Constant(c) => {
                let r = 1 <= *c && *c <= n;
                proof {
                    if r {
                        assert(var.allows(*state, *c as int));
                    }
                }
                r
            },
            Variable::Identifier(name) => match state.domain(name) {
                Some(d) => {
                    let r = d.has_value_between(1, n);
                    proof {
                        assert forall|w: int| #[trigger] var.allows(*state, w) == d.contains(w) by {}
                        if r {
                            let w = choose|w: int| 1 <= w <= n && #[trigger] d.contains(w);
                            assert(var.allows(*state, w));
                        } else {
                            assert forall|w: int| !(1 <= w <= n && #[trigger] var.allows(*state, w)) by {
                                if 1 <= w <= n {
                                    assert(!d.contains(w));
                                }
                            }
                        }
                    }
                    r
                },
                None => {
                    proof {
                        assert(var.allows(*state, 1));
                    }
                    true
                },
            },
        }
    }

    /// Whether the state holds a conflict that the checker recognises.
    pub fn find_conflict(&self, state: &VariableState) -> (r: bool)
        requires
            state.wf(),
            self.successors@.len() < i32::MAX,
        ensures
            r == self.recognised_conflict(*state),
    {
        let n = self.successors.len();
        if n == 0 {
            proof {
                assert(!self.has_successor_without_node(*state));
                assert(!self.has_shared_fixed_successor(*state));
                assert(!self.has_short_fixed_cycle(*state));
            }
            return false;
        }
        let n32 = n as i32;
        let mut fixed: Vec<Option<i64>> = Vec::new();
        let mut i: usize = 0;
        while i < n
            invariant
                n == self.successors@.len(),
                n32 == n,
                n >= 1,
                0 <= i <= n,
                state.wf(),
                fixed@.len() == i,
                forall|j: int|
                    0 <= j < i ==> match #[trigger] fixed@[j] {
                        Some(x) => fixed_value(self.successors@[j], *state) == Some(x as int),
                        None => fixed_value(self.successors@[j], *state) is None,
                    },
                forall|j: int| 0 <= j < i ==> !#[trigger] self.without_node(*state, j),
            decreases n - i,
        {
            if !Self::has_node_value(state, &self.successors[i], n32) {
                proof {
                    assert(self.has_successor_without_node(*state)) by {
                        assert forall|v: int|
                            1 <= v <= self.n() implies !#[trigger] self.successors@[i as int].allows(
                            *state,
                            v,
                        ) by {}
                        assert(self.without_node(*state, i as int));
                    }
                }
                return true;
            }
            proof {
                let w = choose|w: int|
                    1 <= w <= n && #[trigger] self.successors@[i as int].allows(*state, w);
                assert(!self.without_node(*state, i as int));
            }
            fixed.push(Self::fixed_value_of(state, &self.successors[i]));
            i = i + 1;
        }
        proof {
            assert(!self.has_successor_without_node(*state)) by {
                if self.has_successor_without_node(*state) {
                    let k = choose|k: int| 0 <= k < self.n() && #[trigger] self.without_node(*state, k);
                }
            }
        }
        let mut a: usize = 0;
        while a < n
            invariant
                n == self.successors@.len(),
                0 <= a <= n,
                fixed@.len() == n,
                forall|j: int|
                    0 <= j < n ==> match #[trigger] fixed@[j] {
                        Some(x) => fixed_value(self.successors@[j], *state) == Some(x as int),
                        None => fixed_value(self.successors@[j], *state) is None,
                    },
                forall|p: int, q: int|
                    0 <= p < a && p < q < n && fixed_value(self.successors@[p], *state) is Some
                        ==> #[trigger] fixed_value(self.successors@[p], *state) != #[trigger] fixed_value(
                        self.successors@[q],
                        *state,
                    ),
            decreases n - a,
        {
            if let Some(x) = fixed[a] {
                let mut b: usize = a + 1;
                while b < n
                    invariant
                        n == self.successors@.len(),
                        0 <= a < n,
                        a + 1 <= b <= n,
                        fixed@.len() == n,
                        fixed@[a as int] == Some(x),
                        forall|j: int|
                            0 <= j < n ==> match #[trigger] fixed@[j] {
                                Some(x) => fixed_value(self.successors@[j], *state) == Some(
                                    x as int,
                                ),
                                None => fixed_value(self.successors@[j], *state) is None,
                            },
                        forall|q: int|
                            a < q < b ==> fixed_value(self.successors@[a as int], *state)
                                != #[trigger] fixed_value(self.successors@[q], *state),
                    decreases n - b,
                {
                    if fixed[b] == Some(x) {
                        proof {
                            assert(fixed@[a as int] == fixed@[b as int]);
                            assert(self.has_shared_fixed_successor(*state)) by {
                                assert(fixed_value(self.successors@[a as int], *state) == Some(
                                    x as int,
                                ));
                                assert(fixed_value(self.successors@[b as int], *state) == Some(
                                    x as int,
                                ));
                            }
                        }
                        return true;
                    }
                    proof {
                        assert(fixed_value(self.successors@[a as int], *state) == Some(x as int));
                        match fixed@[b as int] {
                            Some(y) => {
                                assert(fixed_value(self.successors@[b as int], *state) == Some(
                                    y as int,
                                ));
                            },
                            None => {},
                        }
                    }
                    b = b + 1;
                }
            }
            a = a + 1;
        }
        proof {
            assert(!self.has_shared_fixed_successor(*state));
        }
        let mut start: usize = 0;
        while start < n
            invariant
                n == self.successors@.len(),
                n32 == n,
                n < i32::MAX,
                0 <= start <= n,
                fixed@.len() == n,
                forall|j: int|
                    0 <= j < n ==> match #[trigger] fixed@[j] {
                        Some(x) => fixed_value(self.successors@[j], *state) == Some(x as int),
                        None => fixed_value(self.successors@[j], *state) is None,
                    },
                forall|p: int, k: nat|
                    0 <= p < start && 1 <= k < n ==> #[trigger] self.fixed_walk(*state, p, k) != Some(
                        p,
                    ),
                !self.has_successor_without_node(*state),
                !self.has_shared_fixed_successor(*state),
            decreases n - start,
        {
            let mut cur: usize = start;
            let mut t: usize = 1;
            while t < n
                invariant
                    n == self.successors@.len(),
                    n < i32::MAX,
                    0 <= start < n,
                    1 <= t <= n,
                    0 <= cur < n,
                    fixed@.len() == n,
                    forall|j: int|
                        0 <= j < n ==> match #[trigger] fixed@[j] {
                            Some(x) => fixed_value(self.successors@[j], *state) == Some(x as int),
                            None => fixed_value(self.successors@[j], *state) is None,
                        },
                    self.fixed_walk(*state, start as int, (t - 1) as nat) == Some(cur as int),
                    forall|k: nat|
                        1 <= k < t ==> #[trigger] self.fixed_walk(*state, start as int, k) != Some(
                            start as int,
                        ),
                ensures
                    forall|k: nat|
                        1 <= k < n ==> #[trigger] self.fixed_walk(*state, start as int, k) != Some(
                            start as int,
                        ),
                decreases n - t,
            {
                let ghost prev = cur;
                match fixed[cur] {
                    Some(v) => {
                        let n64 = n as i64;
                        if v < 1 || v > n64 {
                            proof {
                                assert(n64 == self.n());
                                assert(self.fixed_walk(*state, start as int, t as nat) == Some(
                                    v - 1,
                                ));
                                self.lemma_walk_leaves_nodes(*state, start as int, t as nat);
                                assert forall|k: nat|
                                    t <= k < n implies #[trigger] self.fixed_walk(
                                    *state,
                                    start as int,
                                    k,
                                ) != Some(start as int) by {
                                    if k > t {
                                        self.lemma_walk_stays_unfixed(
                                            *state,
                                            start as int,
                                            (t + 1) as nat,
                                            k,
                                        );
                                    }
                                }
                            }
                            break;
                        }
                        cur = (v - 1) as usize;
                        proof {
                            assert(self.fixed_walk(*state, start as int, t as nat) == Some(
                                cur as int,
                            ));
                        }
                        if cur == start {
                            proof {
                                assert(self.has_short_fixed_cycle(*state)) by {
                                    assert(self.fixed_walk(*state, start as int, t as nat) == Some(
                                        start as int,
                                    ));
                                }
                            }
                            return true;
                        }
                    },
                    None => {
                        proof {
                            assert(self.fixed_walk(*state, start as int, t as nat) is None);
                            assert forall|k: nat|
                                t <= k < n implies #[trigger] self.fixed_walk(
                                *state,
                                start as int,
                                k,
                            ) != Some(start as int) by {
                                self.lemma_walk_stays_unfixed(*state, start as int, t as nat, k);
                            }
                        }
                        break;
                    },
                }
                t = t + 1;
            }
            proof {
                assert forall|k: nat|
                    1 <= k < n implies #[trigger] self.fixed_walk(*state, start as int, k) != Some(
                    start as int,
                ) by {}
            }
            start = start + 1;
        }
        false
    }
}

/// A variable is fixed to at most one value.
proof fn lemma_fixed_to_unique(var: Variable, state: VariableState, v: int, w: int)
    requires
        fixed_to(var, state, v),
        fixed_to(var, state, w),
    ensures
        v == w,
{
    assert(var.allows(state, v));
}

impl CircuitChecker {
    /// Walking the fixed successors from the start of a path follows the path.
    proof fn lemma_walk_along_path(self, state: VariableState, path: Seq<int>, j: nat)
        requires
            j < path.len(),
            forall|q: int| 0 <= q < path.len() ==> 0 <= #[trigger] path[q] < self.n(),
            forall|q: int|
                0 <= q < path.len() - 1 ==> fixed_to(
                    self.successors@[#[trigger] path[q]],
                    state,
                    path[q + 1] + 1,
                ),
        ensures
            self.fixed_walk(state, path[0], j) == Some(path[j as int]),
        decreases j,
    {
        if j > 0 {
            self.lemma_walk_along_path(state, path, (j - 1) as nat);
            let q = j - 1;
            let x = path[q];
            let var = self.successors@[x];
            assert(fixed_to(var, state, path[q + 1] + 1));
            let w = choose|v: int| fixed_to(var, state, v);
            lemma_fixed_to_unique(var, state, w, path[q + 1] + 1);
            assert(fixed_value(var, state) == Some(path[j as int] + 1));
            assert(((j - 1) as nat) == q);
        }
    }

    /// Successors that the state fixes along a closed path of fewer steps than there are
    /// nodes form a subtour, and the checker recognises it as a conflict, whatever values the
    /// other successors may still take.
    pub proof fn lemma_fixed_subtour_is_recognised(self, state: VariableState, path: Seq<int>)
        requires
            2 <= path.len() <= self.n(),
            forall|q: int| 0 <= q < path.len() ==> 0 <= #[trigger] path[q] < self.n(),
            path[0] == path[path.len() - 1],
            forall|q: int|
                0 <= q < path.len() - 1 ==> fixed_to(
                    self.successors@[#[trigger] path[q]],
                    state,
                    path[q + 1] + 1,
                ),
        ensures
            self.recognised_conflict(state),
    {
        let k = (path.len() - 1) as nat;
        self.lemma_walk_along_path(state, path, k);
        assert(self.fixed_walk(state, path[0], k) == Some(path[0]));
        assert(self.has_short_fixed_cycle(state));
    }

    /// Every successor is fixed to a node.
    pub open spec fn fixed_to_nodes(self, state: VariableState) -> bool {
        forall|i: int|
            0 <= i < self.n() ==> (#[trigger] fixed_value(self.successors@[i], state) matches Some(
                v,
            ) && 1 <= v <= self.n())
    }

    /// Along fixed successors that are nodes, every walk from a node stays on the nodes.
    proof fn lemma_fixed_walk_defined(self, state: VariableState, i: int, k: nat)
        requires
            0 <= i < self.n(),
            self.fixed_to_nodes(state),
        ensures
            self.fixed_walk(state, i, k) matches Some(x) && 0 <= x < self.n(),
        decreases k,
    {
        if k > 0 {
            self.lemma_fixed_walk_defined(state, i, (k - 1) as nat);
            let x = self.fixed_walk(state, i, (k - 1) as nat)->0;
            assert(fixed_value(self.successors@[x], state) is Some);
        }
    }

    /// Where the state fixes every successor and admits some assignment, the checker misses
    /// no conflict: when it recognises none, the fixed successors form a circuit.
    pub proof fn lemma_unrecognised_conflict_of_fixed_successors(
        self,
        state: VariableState,
        b: Assignment,
    )
        requires
            state.admits(b),
            forall|i: int| 0 <= i < self.n() ==> (#[trigger] fixed_value(self.successors@[i], state)) is Some,
            !self.recognised_conflict(state),
        ensures
            exists|a: Assignment| #[trigger] state.admits(a) && self.is_circuit(a),
    {
        let n = self.n();
        let f = |i: int| fixed_value(self.successors@[i], state)->0;
        assert forall|i: int| 0 <= i < n implies fixed_to(self.successors@[i], state, #[trigger] f(i)) by {
            assert(fixed_value(self.successors@[i], state) is Some);
        }
        assert(self.fixed_to_nodes(state)) by {
            assert forall|i: int| 0 <= i < n implies (#[trigger] fixed_value(
                self.successors@[i],
                state,
            ) matches Some(v) && 1 <= v <= n) by {
                assert(fixed_to(self.successors@[i], state, f(i)));
                if !(1 <= f(i) <= n) {
                    assert forall|v: int| 1 <= v <= n implies !#[trigger] self.successors@[i].allows(
                        state,
                        v,
                    ) by {}
                    assert(self.without_node(state, i));
                }
            }
        }
        let a = |name: Seq<char>|
            if exists|j: int| 0 <= j < n && (#[trigger] self.successors@[j]).named() == Some(name) {
                f(choose|j: int| 0 <= j < n && (#[trigger] self.successors@[j]).named() == Some(name))
            } else {
                b(name)
            };
        assert forall|i: int| 0 <= i < n implies #[trigger] self.successors@[i].value(a) == f(i) by {
            match self.successors@[i] {
                Variable::Identifier(name) => {
                    let k = choose|k: int| 0 <= k < n && (#[trigger] self.successors@[k]).named() == Some(name@);
                    assert(self.successors@[i].named() == Some(name@));
                    assert(fixed_to(self.successors@[k], state, f(k)));
                    assert(fixed_to(self.successors@[i], state, f(i)));
                    assert forall|w: int| #[trigger] self.successors@[i].allows(state, w) == self.successors@[k].allows(
                        state,
                        w,
                    ) by {}
                    assert(fixed_to(self.successors@[i], state, f(k)));
                    lemma_fixed_to_unique(self.successors@[i], state, f(i), f(k));
                },
                Variable::Constant(c) => {
                    assert(fixed_to(self.successors@[i], state, f(i)));
                    assert(self.successors@[i].allows(state, c as int));
                },
            }
        }
        assert forall|name: Seq<char>| #[trigger] state.contains(name, a(name)) by {
            if exists|j: int| 0 <= j < n && (#[trigger] self.successors@[j]).named() == Some(name) {
                let k = choose|k: int| 0 <= k < n && (#[trigger] self.successors@[k]).named() == Some(name);
                assert(fixed_to(self.successors@[k], state, f(k)));
                assert(self.successors@[k].allows(state, f(k)));
            } else {
                assert(state.contains(name, b(name)));
            }
        }
        assert(state.admits(a));
        assert forall|i: int| 0 <= i < n implies 1 <= #[trigger] self.successors@[i].value(a) <= n by {
            assert(fixed_value(self.successors@[i], state) matches Some(v) && 1 <= v <= n);
        }
        assert forall|i: int, j: int|
            0 <= i < n && 0 <= j < n && i != j implies #[trigger] self.successors@[i].value(a)
            != #[trigger] self.successors@[j].value(a) by {
            assert(self.successors@[i].value(a) == f(i));
            assert(self.successors@[j].value(a) == f(j));
            if i < j {
                if fixed_value(self.successors@[i], state) == fixed_value(self.successors@[j], state) {
                    assert(self.has_shared_fixed_successor(state));
                }
            } else {
                if fixed_value(self.successors@[j], state) == fixed_value(self.successors@[i], state) {
                    assert(self.has_shared_fixed_successor(state));
                }
            }
        }
        assert forall|i: int, k: nat| 0 <= i < n && 1 <= k < n implies #[trigger] self.walk(a, i, k) != i by {
            self.lemma_fixed_walk_defined(state, i, k);
            self.lemma_walk_follows_fixed(state, a, i, k);
            if self.walk(a, i, k) == i {
                assert(self.fixed_walk(state, i, k) == Some(i));
                assert(self.has_short_fixed_cycle(state));
            }
        }
        assert(state.admits(a) && self.is_circuit(a));
    }
}

impl CircuitChecker {
    /// Where the state fixes every successor and admits some assignment, the checker
    /// recognises a conflict exactly when no assignment that the state admits forms a
    /// circuit.
    pub proof fn lemma_recognised_conflict_is_exact_when_fixed(self, state: VariableState, b: Assignment)
        requires
            state.admits(b),
            forall|i: int| 0 <= i < self.n() ==> (#[trigger] fixed_value(self.successors@[i], state)) is Some,
        ensures
            self.recognised_conflict(state) <==> forall|a: Assignment|
                #[trigger] state.admits(a) ==> !self.is_circuit(a),
    {
        if self.recognised_conflict(state) {
            assert forall|a: Assignment| #[trigger] state.admits(a) implies !self.is_circuit(a) by {
                self.lemma_recognised_conflict_is_sound(state, a);
            }
        } else {
            self.lemma_unrecognised_conflict_of_fixed_successors(state, b);
        }
    }
}

impl InferenceChecker for CircuitChecker {
    open spec fn satisfied_by(&self, assignment: Assignment) -> bool {
        self.is_circuit(assignment)
    }

    fn check(&self, state: VariableState, premises: &Vec<Atomic>, consequent: Option<&Atomic>) -> (conflict: bool)
        ensures
            self.successors@.len() < i32::MAX ==> conflict == self.recognised_conflict(state),
            self.successors@.len() >= i32::MAX ==> !conflict,
    {
        if self.successors.len() >= i32::MAX as usize {
            return false;
        }
        let conflict = self.find_conflict(&state);
        proof {
            if conflict {
                assert forall|a: Assignment| state.admits(a) implies !#[trigger] self.satisfied_by(a) by {
                    self.lemma_recognised_conflict_is_sound(state, a);
                }
            }
        }
        conflict
    }
}

} // verus!
