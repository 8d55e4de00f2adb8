//! The death rate of a game: the share of the living that a step sets out to
//! kill.

use vstd::prelude::*;

verus! {

/// The share of the living that a step sets out to kill, as a fraction
/// between 0 and 1.
#[derive(Debug, Clone, Copy)]
pub struct DeathRate {
    numerator: u32,
    denominator: u32,
}

impl DeathRate {
    #[verifier::type_invariant]
    /// The fraction lies between 0 and 1.
    spec fn is_fraction(self) -> bool {
        0 < self.denominator && self.numerator <= self.denominator
    }

    /// The numerator of the fraction.
    pub closed spec fn above(&self) -> nat {
        self.numerator as nat
    }

    /// The denominator of the fraction.
    pub closed spec fn below(&self) -> nat {
        self.denominator as nat
    }

    /// The number of kills that a step among `living` tributes sets out
    /// for: their share, rounded down.
    pub open spec fn quota_of(&self, living: nat) -> nat {
        living * self.above() / self.below()
    }

    /// The fraction `numerator / denominator`, where that lies between 0
    /// and 1.
    pub fn new(numerator: u32, denominator: u32) -> (r: Option<DeathRate>)
        ensures
            r.is_some() == (0 < denominator && numerator <= denominator),
            r.is_some() ==> r.unwrap().above() == numerator && r.unwrap().below() == denominator,
    {
        if 0 < denominator && numerator <= denominator {
            Some(DeathRate { numerator, denominator })
        } else {
            None
        }
    }

    /// The number of kills that a step among `living` tributes sets out for.
    pub fn quota(&self, living: usize) -> (r: usize)
        ensures
            r == self.quota_of(living as nat),
            r <= living,
    {
        proof {
            use_type_invariant(self);
            let l = living as int;
            let n = self.numerator as int;
            let d = self.denominator as int;
            assert(0 <= l * n <= l * d) by (nonlinear_arith)
                requires
                    0 <= l,
                    0 <= n <= d,
            ;
            assert(l * n <= 0xffff_ffff_ffff_ffff * 0xffff_ffff) by (nonlinear_arith)
                requires
                    0 <= l <= 0xffff_ffff_ffff_ffff,
                    0 <= n <= 0xffff_ffff,
            ;
            assert((l * n) / d <= l) by (nonlinear_arith)
                requires
                    0 <= l * n <= l * d,
                    0 < d,
                    0 <= l,
            ;
        }
        let product: u128 = (living as u128) * (self.numerator as u128);
        (product / (self.denominator as u128)) as usize
    }
}

} // verus!
