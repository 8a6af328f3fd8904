use vstd::prelude::*;

verus! {

// Several summaries divide one accumulated quantity by another.  Over an
// integer value domain the exact quotient is a rational number, so finalize
// entry points return the numerator and denominator unreduced rather than a
// rounded quotient.

/// An exact rational: `num / den`, with `den` always positive.
#[derive(Clone, Copy, PartialEq, Eq, Structural, Debug)]
pub struct Ratio {
    pub num: i128,
    pub den: u128,
}

impl Ratio {
    /// The denominator is positive, so the value is well defined.
    pub open spec fn wf(self) -> bool {
        self.den > 0
    }

    pub fn new(num: i128, den: u128) -> (r: Ratio)
        requires
            den > 0,
        ensures
            r.num == num,
            r.den == den,
            r.wf(),
    {
        Ratio { num, den }
    }
}

} // verus!
