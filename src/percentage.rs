//! A fee rate bounded by `PERCENTAGE_MAX` in the fixed scale.
use vstd::prelude::*;

use crate::fixed_dec_u64::FIXED_PRECISION;
use crate::lp_pool::LpPoolError;

verus! {

/// The largest raw value a `Percentage` may hold.
pub const PERCENTAGE_MAX: u64 = FIXED_PRECISION * 100;

/// A fixed-point rate no larger than `PERCENTAGE_MAX`. The field stays private:
/// `try_from` is the one way in, and it checks the bound.
#[derive(Clone, Copy, Debug, PartialEq, Eq, Structural, PartialOrd, Ord)]
pub struct Percentage(u64);

impl View for Percentage {
    type V = u64;

    closed spec fn view(&self) -> u64 {
        self.0
    }
}

/// What `Percentage::try_from(value)` gives: the rate when it is in bounds, else
/// `ValueTooLarge`.
pub open spec fn percentage_from_raw(value: u64) -> Result<Percentage, LpPoolError> {
    if value <= PERCENTAGE_MAX {
        Ok(choose|p: Percentage| p@ == value)
    } else {
        Err(LpPoolError::ValueTooLarge { val: value, max: PERCENTAGE_MAX })
    }
}

/// A raw value within bounds makes a rate that holds exactly that value.
/// Callers bring it in with `broadcast use`.
pub broadcast proof fn lemma_from_raw(value: u64)
    requires
        value <= PERCENTAGE_MAX,
    ensures
        #[trigger] percentage_from_raw(value) is Ok,
        percentage_from_raw(value)->Ok_0@ == value,
{
    let p = Percentage(value);
    assert(p@ == value);
}

impl Percentage {
    #[verifier::type_invariant]
    spec fn bounded(self) -> bool {
        self.0 <= PERCENTAGE_MAX
    }

    /// The raw value in the fixed scale.
    pub fn bits(&self) -> (r: u64)
        ensures
            r == self@,
            r <= PERCENTAGE_MAX,
    {
        proof {
            use_type_invariant(self);
        }
        self.0
    }

    /// Confirms the bound; it holds of every `Percentage`, so this always succeeds.
    pub fn check(&self) -> (r: Result<&Self, LpPoolError>)
        ensures
            r is Ok,
            *r->Ok_0 == *self,
    {
        if self.bits() > PERCENTAGE_MAX {
            return Err(LpPoolError::ValueTooLarge { val: self.bits(), max: PERCENTAGE_MAX });
        }
        Ok(self)
    }
}

impl TryFrom<u64> for Percentage {
    type Error = LpPoolError;

    fn try_from(value: u64) -> (r: Result<Self, Self::Error>) {
        if value > PERCENTAGE_MAX {
            return Err(LpPoolError::ValueTooLarge { val: value, max: PERCENTAGE_MAX });
        }
        let p = Percentage(value);
        proof {
            let q = choose|q: Percentage| q@ == value;
            assert(p@ == value);
            assert(q == p);
        }
        Ok(p)
    }
}

impl vstd::std_specs::convert::TryFromSpecImpl<u64> for Percentage {
    open spec fn obeys_try_from_spec() -> bool {
        true
    }

    open spec fn try_from_spec(value: u64) -> Result<Self, LpPoolError> {
        percentage_from_raw(value)
    }
}

} // verus!
