use vstd::prelude::*;

use crate::checking::comparison::{comparison_holds, Comparison};

verus! {

/// An atomic constraint `[name <comparison> value]` over a named integer variable.
#[derive(Clone, Debug, PartialEq, Eq, PartialOrd, Ord, Hash)]
pub struct IntAtomic {
    pub name: String,
    pub comparison: Comparison,
    pub value: i32,
}

/// An atomic constraint as it occurs in deductions: one of the two constants or an atomic
/// constraint over a variable.
///
/// The constants are read as atomic constraints over two reserved variables: `true` is
/// `[true == 1]` and `false` is `[false == 0]`.
#[derive(Clone, Debug, PartialEq, Eq, PartialOrd, Ord, Hash)]
pub enum Atomic {
    True,
    False,
    IntAtomic(IntAtomic),
}

/// A value for every variable name.
pub type Assignment = spec_fn(Seq<char>) -> int;

/// The negation of `[x <comparison> value]`, as the proof format writes it.
pub open spec fn negated_int_atomic(a: IntAtomic) -> IntAtomic {
    match a.comparison {
        Comparison::GreaterEqual => IntAtomic {
            name: a.name,
            comparison: Comparison::LessEqual,
            value: (a.value - 1) as i32,
        },
        Comparison::LessEqual => IntAtomic {
            name: a.name,
            comparison: Comparison::GreaterEqual,
            value: (a.value + 1) as i32,
        },
        Comparison::Equal => IntAtomic {
            name: a.name,
            comparison: Comparison::NotEqual,
            value: a.value,
        },
        Comparison::NotEqual => IntAtomic { name: a.name, comparison: Comparison::Equal, value: a.value },
    }
}

/// Whether the negation of `a` can be written with an `i32` value.
pub open spec fn can_negate_int_atomic(a: IntAtomic) -> bool {
    &&& a.comparison == Comparison::GreaterEqual ==> a.value > i32::MIN
    &&& a.comparison == Comparison::LessEqual ==> a.value < i32::MAX
}

impl Atomic {
    /// The name of the variable that the atomic constrains.
    pub open spec fn spec_identifier(self) -> Seq<char> {
        match self {
            Atomic::True => "true"@,
            Atomic::False => "false"@,
            Atomic::IntAtomic(a) => a.name@,
        }
    }

    pub open spec fn spec_comparison(self) -> Comparison {
        match self {
            Atomic::IntAtomic(a) => a.comparison,
            _ => Comparison::Equal,
        }
    }

    pub open spec fn spec_value(self) -> int {
        match self {
            Atomic::True => 1,
            Atomic::False => 0,
            Atomic::IntAtomic(a) => a.value as int,
        }
    }

    /// Whether the atomic holds when its variable takes the value `v`.
    pub open spec fn holds_for(self, v: int) -> bool {
        comparison_holds(self.spec_comparison(), v, self.spec_value())
    }

    /// Whether the atomic holds under the assignment.
    pub open spec fn holds(self, assignment: Assignment) -> bool {
        self.holds_for(assignment(self.spec_identifier()))
    }

    pub open spec fn can_negate(self) -> bool {
        match self {
            Atomic::IntAtomic(a) => can_negate_int_atomic(a),
            _ => true,
        }
    }

    pub open spec fn spec_negate(self) -> Atomic {
        match self {
            Atomic::True => Atomic::False,
            Atomic::False => Atomic::True,
            Atomic::IntAtomic(a) => Atomic::IntAtomic(negated_int_atomic(a)),
        }
    }

    /// The atomic for a Boolean constant.
    pub fn from_bool(value: bool) -> (a: Atomic)
        ensures
            a == (if value {
                Atomic::True
            } else {
                Atomic::False
            }),
    {
        if value {
            Atomic::True
        } else {
            Atomic::False
        }
    }

    /// Replaces the value of an atomic over a variable; the constants stay as they are.
    pub fn set_value(&mut self, value: i32)
        ensures
            *final(self) == (match *old(self) {
                Atomic::IntAtomic(a) => Atomic::IntAtomic(IntAtomic { value, ..a }),
                other => other,
            }),
    {
        match self {
            Atomic::True | Atomic::False => {},
            Atomic::IntAtomic(int_atomic) => int_atomic.value = value,
        }
    }

    /// The name of the variable that the atomic constrains.
    pub fn identifier(&self) -> (name: String)
        ensures
            name@ == self.spec_identifier(),
    {
        match self {
            Atomic::True => "true".to_owned(),
            Atomic::False => "false".to_owned(),
            Atomic::IntAtomic(int_atomic) => int_atomic.name.clone(),
        }
    }

    pub fn comparison(&self) -> (c: Comparison)
        ensures
            c == self.spec_comparison(),
    {
        match self {
            Atomic::IntAtomic(int_atomic) => int_atomic.comparison,
            _ => Comparison::Equal,
        }
    }

    pub fn value(&self) -> (v: i32)
        ensures
            v == self.spec_value(),
    {
        match self {
            Atomic::True => 1,
            Atomic::False => 0,
            Atomic::IntAtomic(int_atomic) => int_atomic.value,
        }
    }

    /// The negation of the atomic: the two constants swap, and an atomic over a variable gets
    /// the complementary comparison.
    pub fn negate(&self) -> (n: Atomic)
        requires
            self.can_negate(),
        ensures
            n == self.spec_negate(),
    {
        match self {
            Atomic::True => Atomic::False,
            Atomic::False => Atomic::True,
            Atomic::IntAtomic(a) => {
                let name = a.name.clone();
                let negated = match a.comparison {
                    Comparison::GreaterEqual => IntAtomic {
                        name,
                        comparison: Comparison::LessEqual,
                        value: a.value - 1,
                    },
                    Comparison::LessEqual => IntAtomic {
                        name,
                        comparison: Comparison::GreaterEqual,
                        value: a.value + 1,
                    },
                    Comparison::Equal => IntAtomic {
                        name,
                        comparison: Comparison::NotEqual,
                        value: a.value,
                    },
                    Comparison::NotEqual => IntAtomic {
                        name,
                        comparison: Comparison::Equal,
                        value: a.value,
                    },
                };
                Atomic::IntAtomic(negated)
            },
        }
    }
}

impl From<IntAtomic> for Atomic {
    fn from(value: IntAtomic) -> (a: Atomic) {
        Atomic::IntAtomic(value)
    }
}

impl vstd::std_specs::convert::FromSpecImpl<IntAtomic> for Atomic {
    open spec fn obeys_from_spec() -> bool {
        true
    }

    open spec fn from_spec(v: IntAtomic) -> Atomic {
        Atomic::IntAtomic(v)
    }
}

impl From<bool> for Atomic {
    fn from(value: bool) -> (a: Atomic) {
        Atomic::from_bool(value)
    }
}

impl vstd::std_specs::convert::FromSpecImpl<bool> for Atomic {
    open spec fn obeys_from_spec() -> bool {
        true
    }

    open spec fn from_spec(v: bool) -> Atomic {
        if v {
            Atomic::True
        } else {
            Atomic::False
        }
    }
}

/// The negation of an atomic over a variable holds for exactly the values for which the
/// atomic does not hold.
pub proof fn lemma_negation_complements(a: Atomic, v: int)
    requires
        a is IntAtomic,
        a.can_negate(),
    ensures
        a.spec_negate().holds_for(v) == !a.holds_for(v),
        a.spec_negate().spec_identifier() == a.spec_identifier(),
{
}

/// Negating twice gives the atomic back.
pub proof fn lemma_double_negation(a: Atomic)
    requires
        a.can_negate(),
    ensures
        a.spec_negate().can_negate(),
        a.spec_negate().spec_negate() == a,
{
}

} // verus!
