use vstd::prelude::*;

use crate::positive_i32::PositiveI32;
use crate::variable::Variable;

verus! {

/// A literal: a nonzero signed integer whose magnitude is a variable index and whose sign is
/// the polarity. `i32::MIN` is excluded so that negation is closed.
#[derive(Clone, Copy, Debug)]
pub struct Literal(i32);

impl View for Literal {
    type V = int;

    closed spec fn view(&self) -> int {
        self.0 as int
    }
}

/// Whether `l` is the value of some literal.
pub open spec fn literal_value(l: int) -> bool {
    l != 0 && i32::MIN < l <= i32::MAX
}

/// The variable index of a literal value.
pub open spec fn magnitude(l: int) -> int {
    if l < 0 {
        -l
    } else {
        l
    }
}

impl Literal {
    #[verifier::type_invariant]
    spec fn inv(self) -> bool {
        self.0 != 0 && self.0 != i32::MIN
    }

    pub fn new(variable: Variable, polarity: bool) -> (r: Self)
        ensures
            r@ == (if polarity { variable@ } else { -variable@ }),
    {
        if polarity {
            Literal(variable.index().as_non_zero_i32())
        } else {
            Literal(variable.index().negated())
        }
    }

    /// The literal with the given signed index; `None` only for `i32::MIN`. A zero index is
    /// refused by the caller's contract.
    pub fn from_index(index: i32) -> (r: Option<Self>)
        requires
            index != 0,
        ensures
            r.is_some() <==> index != i32::MIN,
            r matches Some(l) ==> l@ == index,
    {
        if index == i32::MIN {
            None
        } else {
            Some(Literal(index))
        }
    }

    pub fn index(self) -> (r: i32)
        ensures
            r == self@,
            literal_value(r as int),
    {
        proof { use_type_invariant(self); }
        self.0
    }

    pub fn variable(self) -> (r: Variable)
        ensures
            r@ == magnitude(self@),
    {
        proof { use_type_invariant(self); }
        let m: i32 = if self.0 < 0 { -self.0 } else { self.0 };
        Variable::from_index(PositiveI32::from_i32(m).unwrap())
    }

    pub fn is_positive(self) -> (r: bool)
        ensures
            r == (self@ > 0),
    {
        self.0 > 0
    }

    pub fn negated(self) -> (r: Self)
        ensures
            r@ == -self@,
    {
        proof { use_type_invariant(self); }
        Literal(-self.0)
    }

    /// Negating a literal twice gives the literal back, and the negation of a literal is a
    /// literal again.
    pub proof fn lemma_negation_involution(l: int)
        requires
            literal_value(l),
        ensures
            literal_value(-l),
            -(-l) == l,
    {
    }
}

} // verus!
