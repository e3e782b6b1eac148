use vstd::prelude::*;

verus! {

/// A strictly positive `i32`.
#[derive(Clone, Copy, Debug, Hash, PartialEq, Eq, Structural)]
pub struct PositiveI32(i32);

impl View for PositiveI32 {
    type V = int;

    closed spec fn view(&self) -> int {
        self.0 as int
    }
}

impl PositiveI32 {
    #[verifier::type_invariant]
    spec fn inv(self) -> bool {
        self.0 > 0
    }

    pub fn from_i32(value: i32) -> (r: Option<Self>)
        ensures
            value > 0 <==> r.is_some(),
            r matches Some(p) ==> p@ == value,
    {
        if value > 0 {
            Some(PositiveI32(value))
        } else {
            None
        }
    }

    pub fn from_u32(value: u32) -> (r: Option<Self>)
        ensures
            (0 < value <= i32::MAX) <==> r.is_some(),
            r matches Some(p) ==> p@ == value,
    {
        if value > 0 && value <= i32::MAX as u32 {
            Some(PositiveI32(value as i32))
        } else {
            None
        }
    }

    /// The value as an `i32`; it is never zero.
    pub fn as_non_zero_i32(self) -> (r: i32)
        ensures
            r == self@,
            r > 0,
    {
        proof { use_type_invariant(self); }
        self.0
    }

    pub fn as_i32(self) -> (r: i32)
        ensures
            r == self@,
            r > 0,
    {
        proof { use_type_invariant(self); }
        self.0
    }

    /// The value as a `u32`; it is never zero.
    pub fn as_non_zero_u32(self) -> (r: u32)
        ensures
            r == self@,
            r != 0,
    {
        proof { use_type_invariant(self); }
        self.0 as u32
    }

    pub fn as_u32(self) -> (r: u32)
        ensures
            r == self@,
    {
        proof { use_type_invariant(self); }
        self.0 as u32
    }

    /// The negated value, which is nonzero and representable.
    pub fn negated(self) -> (r: i32)
        ensures
            r == -self@,
            i32::MIN < r < 0,
    {
        proof { use_type_invariant(self); }
        -self.0
    }
}

} // verus!
