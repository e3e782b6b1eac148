use vstd::prelude::*;

use crate::literal::Literal;
use crate::positive_i32::PositiveI32;

verus! {

/// A propositional variable, identified by its positive index.
#[derive(Clone, Copy, Debug, Hash, PartialEq, Eq, Structural)]
pub struct Variable(PositiveI32);

impl View for Variable {
    type V = int;

    closed spec fn view(&self) -> int {
        self.0@
    }
}

impl Variable {
    pub fn from_index(index: PositiveI32) -> (r: Self)
        ensures
            r@ == index@,
    {
        Variable(index)
    }

    pub fn index(self) -> (r: PositiveI32)
        ensures
            r@ == self@,
    {
        self.0
    }

    pub fn as_literal(self, polarity: bool) -> (r: Literal)
        ensures
            r@ == (if polarity { self@ } else { -self@ }),
    {
        Literal::new(self, polarity)
    }

    pub fn as_positive(self) -> (r: Literal)
        ensures
            r@ == self@,
    {
        Literal::new(self, true)
    }

    pub fn as_negative(self) -> (r: Literal)
        ensures
            r@ == -self@,
    {
        Literal::new(self, false)
    }
}

} // verus!
