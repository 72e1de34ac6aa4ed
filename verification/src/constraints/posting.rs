use vstd::prelude::*;

use crate::predicates::DomainId;
use crate::propagators::circuit::explanation::CircuitExplanationType;

verus! {

/// Identifies the constraint that a propagator was created for.
#[derive(Clone, Copy, Debug, PartialEq, Eq, Hash, Structural)]
pub struct ConstraintTag {
    pub id: u32,
}

/// A Boolean variable: the literal holds where its domain takes the value `1`.
#[derive(Clone, Copy, Debug, PartialEq, Eq, Hash, Structural)]
pub struct Literal {
    pub domain: DomainId,
}

/// The arguments of a propagator that enforces `a != b`.
#[derive(Clone, Copy, Debug, PartialEq, Eq)]
pub struct BinaryNotEqualsConstructor<Var> {
    pub a: Var,
    pub b: Var,
    pub constraint_tag: ConstraintTag,
    pub conflict_detection_only: bool,
}

/// The arguments of a propagator that enforces that the variables in `x` are distinct.
#[derive(Clone, Debug)]
pub struct AllDifferentConstructor<Var> {
    pub x: Vec<Var>,
    pub constraint_tag: ConstraintTag,
    pub conflict_detection_only: bool,
}

/// The arguments of a propagator that enforces that the successors form one cycle.
#[derive(Clone, Debug)]
pub struct CircuitConstructor<Var> {
    pub successors: Vec<Var>,
    pub constraint_tag: ConstraintTag,
    pub conflict_detection_only: bool,
    pub explanation_type: CircuitExplanationType,
}

/// A propagator to add to the solver.
#[derive(Clone, Debug)]
pub enum Propagation<Var> {
    BinaryNotEquals(BinaryNotEqualsConstructor<Var>),
    AllDifferent(AllDifferentConstructor<Var>),
    Circuit(CircuitConstructor<Var>),
}

/// A propagator to add to the solver, enforced unconditionally or only where the literal
/// holds.
#[derive(Clone, Debug)]
pub struct Posting<Var> {
    pub propagation: Propagation<Var>,
    pub implied_by: Option<Literal>,
}

/// The posting of `vars[i] != vars[j]`.
pub open spec fn not_equal_posting<Var>(
    vars: Seq<Var>,
    i: int,
    j: int,
    constraint_tag: ConstraintTag,
    implied_by: Option<Literal>,
) -> Posting<Var> {
    Posting {
        propagation: Propagation::BinaryNotEquals(
            BinaryNotEqualsConstructor {
                a: vars[i],
                b: vars[j],
                constraint_tag,
                conflict_detection_only: false,
            },
        ),
        implied_by,
    }
}

/// The postings of `vars[i] != vars[j]` for every `j` after `i`, in order.
pub open spec fn row_postings<Var>(
    vars: Seq<Var>,
    i: int,
    constraint_tag: ConstraintTag,
    implied_by: Option<Literal>,
) -> Seq<Posting<Var>> {
    Seq::new(
        (vars.len() - i - 1) as nat,
        |m: int| not_equal_posting(vars, i, i + 1 + m, constraint_tag, implied_by),
    )
}

/// The postings of `vars[i] != vars[j]` for every pair `i < j` with `i` below `rows`,
/// ordered by `i` and then by `j`.
pub open spec fn pairwise_postings<Var>(
    vars: Seq<Var>,
    rows: int,
    constraint_tag: ConstraintTag,
    implied_by: Option<Literal>,
) -> Seq<Posting<Var>>
    decreases rows,
{
    if rows <= 0 {
        Seq::empty()
    } else {
        pairwise_postings(vars, rows - 1, constraint_tag, implied_by) + row_postings(
            vars,
            rows - 1,
            constraint_tag,
            implied_by,
        )
    }
}

/// The posting enforces `a != b` unconditionally under the tag, or where `implied_by` holds.
pub open spec fn posts_not_equal<Var>(
    posting: Posting<Var>,
    a: Var,
    b: Var,
    constraint_tag: ConstraintTag,
    implied_by: Option<Literal>,
) -> bool {
    &&& posting.implied_by == implied_by
    &&& posting.propagation matches Propagation::BinaryNotEquals(c)
    &&& c.a == a
    &&& c.b == b
    &&& c.constraint_tag == constraint_tag
    &&& !c.conflict_detection_only
}

/// The posting enforces `vars[i] != vars[j]` for some pair of positions `i < j`.
pub open spec fn posts_some_pair<Var>(
    posting: Posting<Var>,
    vars: Seq<Var>,
    constraint_tag: ConstraintTag,
    implied_by: Option<Literal>,
) -> bool {
    exists|i: int, j: int|
        #![trigger vars[i], vars[j]]
        0 <= i < j < vars.len() && posts_not_equal(posting, vars[i], vars[j], constraint_tag, implied_by)
}

/// Some posting enforces `a != b`.
pub open spec fn some_posting_of<Var>(
    postings: Seq<Posting<Var>>,
    a: Var,
    b: Var,
    constraint_tag: ConstraintTag,
    implied_by: Option<Literal>,
) -> bool {
    exists|m: int|
        0 <= m < postings.len() && posts_not_equal(
            #[trigger] postings[m],
            a,
            b,
            constraint_tag,
            implied_by,
        )
}

/// The decomposition up to row `r` extends the decomposition up to every earlier row, and
/// its length is the number of pairs in its rows.
proof fn lemma_pairwise_prefix<Var>(
    vars: Seq<Var>,
    r: int,
    constraint_tag: ConstraintTag,
    implied_by: Option<Literal>,
)
    requires
        0 <= r <= vars.len(),
    ensures
        2 * (pairwise_postings(vars, r, constraint_tag, implied_by).len() as int) == r * (2 * (
        vars.len() as int) - r - 1),
        forall|i: int|
            0 <= i <= r ==> (#[trigger] pairwise_postings(vars, i, constraint_tag, implied_by)).len()
                <= pairwise_postings(vars, r, constraint_tag, implied_by).len(),
        forall|i: int|
            0 <= i <= r ==> pairwise_postings(vars, r, constraint_tag, implied_by).subrange(
                0,
                pairwise_postings(vars, i, constraint_tag, implied_by).len() as int,
            ) == #[trigger] pairwise_postings(vars, i, constraint_tag, implied_by),
        forall|m: int|
            0 <= m < pairwise_postings(vars, r, constraint_tag, implied_by).len() ==> posts_some_pair(
                #[trigger] pairwise_postings(vars, r, constraint_tag, implied_by)[m],
                vars,
                constraint_tag,
                implied_by,
            ),
    decreases r,
{
    let n = vars.len() as int;
    let cur = pairwise_postings(vars, r, constraint_tag, implied_by);
    if r == 0 {
        assert(cur.len() == 0);
        assert(r * (2 * n - r - 1) == 0) by (nonlinear_arith)
            requires
                r == 0,
        ;
        assert forall|i: int| 0 <= i <= r implies cur.subrange(
            0,
            pairwise_postings(vars, i, constraint_tag, implied_by).len() as int,
        ) == #[trigger] pairwise_postings(vars, i, constraint_tag, implied_by) by {
            assert(i == 0);
            assert(cur.subrange(0, 0) =~= cur);
        }
    } else {
        lemma_pairwise_prefix(vars, r - 1, constraint_tag, implied_by);
        let prev = pairwise_postings(vars, r - 1, constraint_tag, implied_by);
        let row = row_postings(vars, r - 1, constraint_tag, implied_by);
        assert(cur == prev + row);
        assert(row.len() == n - r);
        assert(2 * (cur.len() as int) == 2 * (prev.len() as int) + 2 * (n - r));
        let lp = prev.len() as int;
        let lc = cur.len() as int;
        assert(2 * lp == (r - 1) * (2 * n - (r - 1) - 1));
        assert(2 * lc == r * (2 * n - r - 1)) by (nonlinear_arith)
            requires
                2 * lp == (r - 1) * (2 * n - (r - 1) - 1),
                2 * lc == 2 * lp + 2 * (n - r),
        ;
        assert forall|i: int| 0 <= i <= r implies (#[trigger] pairwise_postings(
            vars,
            i,
            constraint_tag,
            implied_by,
        )).len() <= cur.len() by {
            if i < r {
                assert(pairwise_postings(vars, i, constraint_tag, implied_by).len() <= prev.len());
            }
        }
        assert forall|i: int| 0 <= i <= r implies cur.subrange(
            0,
            pairwise_postings(vars, i, constraint_tag, implied_by).len() as int,
        ) == #[trigger] pairwise_postings(vars, i, constraint_tag, implied_by) by {
            if i == r {
                assert(cur.subrange(0, cur.len() as int) =~= cur);
            } else {
                let pi = pairwise_postings(vars, i, constraint_tag, implied_by);
                assert(pi.len() <= prev.len());
                assert(prev.subrange(0, pi.len() as int) == pi);
                assert(cur.subrange(0, pi.len() as int) =~= prev.subrange(0, pi.len() as int));
            }
        }
        assert forall|m: int| 0 <= m < cur.len() implies posts_some_pair(
            #[trigger] cur[m],
            vars,
            constraint_tag,
            implied_by,
        ) by {
            if m < prev.len() {
                assert(cur[m] == prev[m]);
                assert(posts_some_pair(prev[m], vars, constraint_tag, implied_by));
            } else {
                let t = m - prev.len();
                assert(cur[m] == row[t]);
                assert(posts_not_equal(cur[m], vars[r - 1], vars[r + t], constraint_tag, implied_by));
            }
        }
    }
}

/// Decomposing "all of `vars` are distinct" posts one not-equals propagator for every pair
/// of positions `i < j` and nothing else: `n * (n - 1) / 2` postings, each a not-equals
/// propagator of some pair, and for every pair a posting of it.
pub proof fn lemma_decomposition_posts_every_pair<Var>(
    vars: Seq<Var>,
    constraint_tag: ConstraintTag,
    implied_by: Option<Literal>,
)
    ensures
        ({
            let postings = pairwise_postings(vars, vars.len() as int, constraint_tag, implied_by);
            &&& 2 * (postings.len() as int) == (vars.len() as int) * (vars.len() - 1)
            &&& forall|m: int|
                0 <= m < postings.len() ==> posts_some_pair(
                    #[trigger] postings[m],
                    vars,
                    constraint_tag,
                    implied_by,
                )
            &&& forall|i: int, j: int|
                #![trigger vars[i], vars[j]]
                0 <= i < j < vars.len() ==> some_posting_of(
                    postings,
                    vars[i],
                    vars[j],
                    constraint_tag,
                    implied_by,
                )
        }),
{
    let n = vars.len() as int;
    let postings = pairwise_postings(vars, n, constraint_tag, implied_by);
    lemma_pairwise_prefix(vars, n, constraint_tag, implied_by);
    assert(2 * (postings.len() as int) == n * (n - 1)) by {
        assert(n * (2 * n - n - 1) == n * (n - 1)) by (nonlinear_arith);
    }
    assert forall|i: int, j: int|
        #![trigger vars[i], vars[j]]
        0 <= i < j < vars.len() implies some_posting_of(
        postings,
        vars[i],
        vars[j],
        constraint_tag,
        implied_by,
    ) by {
        let before = pairwise_postings(vars, i, constraint_tag, implied_by);
        let upto = pairwise_postings(vars, i + 1, constraint_tag, implied_by);
        let row = row_postings(vars, i, constraint_tag, implied_by);
        assert(upto == before + row);
        assert(upto.len() <= postings.len());
        assert(postings.subrange(0, upto.len() as int) == upto);
        let m = before.len() + (j - i - 1);
        assert(postings[m] == postings.subrange(0, upto.len() as int)[m]);
        assert(upto[m] == row[j - i - 1]);
        assert(posts_not_equal(postings[m], vars[i], vars[j], constraint_tag, implied_by));
    }
}

/// The postings that decompose "all of `vars` are distinct" into `vars[i] != vars[j]` for
/// every pair `i < j`.
pub fn not_equal_decomposition<Var: Copy>(
    vars: &Vec<Var>,
    constraint_tag: ConstraintTag,
    implied_by: Option<Literal>,
) -> (postings: Vec<Posting<Var>>)
    ensures
        postings@ == pairwise_postings(vars@, vars@.len() as int, constraint_tag, implied_by),
{
    let n = vars.len();
    let mut postings: Vec<Posting<Var>> = Vec::new();
    let mut i: usize = 0;
    while i < n
        invariant
            n == vars@.len(),
            0 <= i <= n,
            postings@ == pairwise_postings(vars@, i as int, constraint_tag, implied_by),
        decreases n - i,
    {
        let ghost before = postings@;
        let mut j: usize = i + 1;
        while j < n
            invariant
                n == vars@.len(),
                0 <= i < n,
                i + 1 <= j <= n,
                before == pairwise_postings(vars@, i as int, constraint_tag, implied_by),
                postings@ == before + Seq::new(
                    (j - i - 1) as nat,
                    |m: int| not_equal_posting(vars@, i as int, i + 1 + m, constraint_tag, implied_by),
                ),
            decreases n - j,
        {
            let posting = Posting {
                propagation: Propagation::BinaryNotEquals(
                    BinaryNotEqualsConstructor {
                        a: vars[i],
                        b: vars[j],
                        constraint_tag,
                        conflict_detection_only: false,
                    },
                ),
                implied_by,
            };
            postings.push(posting);
            proof {
                assert(posting == not_equal_posting(vars@, i as int, j as int, constraint_tag, implied_by));
                assert(postings@ =~= before + Seq::new(
                    (j + 1 - i - 1) as nat,
                    |m: int| not_equal_posting(vars@, i as int, i + 1 + m, constraint_tag, implied_by),
                ));
            }
            j = j + 1;
        }
        proof {
            assert(postings@ =~= pairwise_postings(vars@, i + 1, constraint_tag, implied_by));
        }
        i = i + 1;
    }
    postings
}

/// A copy of the variables.
pub fn copy_variables<Var: Copy>(vars: &Vec<Var>) -> (copy: Vec<Var>)
    ensures
        copy@ == vars@,
{
    let mut copy: Vec<Var> = Vec::new();
    let mut i: usize = 0;
    while i < vars.len()
        invariant
            0 <= i <= vars@.len(),
            copy@ == vars@.subrange(0, i as int),
        decreases vars.len() - i,
    {
        copy.push(vars[i]);
        proof {
            assert(copy@ =~= vars@.subrange(0, i + 1));
        }
        i = i + 1;
    }
    proof {
        assert(copy@ =~= vars@);
    }
    copy
}

} // verus!
