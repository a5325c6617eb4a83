//! The reward-per-share accumulator: a decimal fixed-point number with
//! `SCALE_DIGITS` digits below the unit, wide enough that a single accrual
//! never loses more than one accumulator unit to truncation.
use vstd::prelude::*;
use vstd::arithmetic::div_mod::{lemma_fundamental_div_mod, lemma_fundamental_div_mod_converse};
use crate::math::{SCALE, scaled_fraction, scaled_fraction_spec};

verus! {

/// Largest value, in accumulator units, that a `RewardPerShare` can hold.
pub open spec fn max_units() -> int {
    (u128::MAX as int) * SCALE + (SCALE - 1)
}

/// `amount / shares` in accumulator units, truncated.
pub open spec fn share_units(amount: int, shares: int) -> int {
    (amount * SCALE) / shares
}

/// Cumulative reward per boosted share: `whole + frac / SCALE`.
#[derive(Clone, Copy, Debug, Default, PartialEq, Eq, Structural)]
pub struct RewardPerShare {
    pub whole: u128,
    /// Fractional part in units of `1 / SCALE`; always below `SCALE`.
    pub frac: u128,
}

impl RewardPerShare {
    /// The value in accumulator units (`1 / SCALE` each).
    pub open spec fn view(&self) -> int {
        self.whole * SCALE + self.frac
    }

    pub open spec fn wf(&self) -> bool {
        self.frac < SCALE
    }

    /// The accumulator holding `units`.
    pub open spec fn from_units(units: int) -> RewardPerShare {
        RewardPerShare { whole: (units / SCALE as int) as u128, frac: (units % SCALE as int) as u128 }
    }

    /// This accumulator advanced by `units`.
    pub open spec fn plus(self, units: int) -> RewardPerShare {
        Self::from_units(self@ + units)
    }

    pub fn zero() -> (r: Self)
        ensures
            r@ == 0,
            r.wf(),
    {
        RewardPerShare { whole: 0, frac: 0 }
    }

    /// Adds `amount / shares`, truncated at `SCALE_DIGITS` decimal places.
    pub fn add_share(&mut self, amount: u128, shares: u128)
        requires
            shares > 0,
            old(self).wf(),
            old(self)@ + share_units(amount as int, shares as int) <= max_units(),
        ensures
            final(self).wf(),
            final(self)@ == old(self)@ + share_units(amount as int, shares as int),
            *final(self) == old(self).plus(share_units(amount as int, shares as int)),
    {
        let q = amount / shares;
        let r = amount % shares;
        let f = scaled_fraction(r, shares);
        proof {
            let rr: int = (r as int * SCALE) % (shares as int);
            lemma_fundamental_div_mod(amount as int, shares as int);
            lemma_fundamental_div_mod(r as int * SCALE, shares as int);
            assert(amount * SCALE == (q * SCALE + f) * shares + rr) by (nonlinear_arith)
                requires
                    amount == q * shares + r,
                    r * SCALE == f * shares + rr,
            ;
            lemma_fundamental_div_mod_converse(amount * SCALE, shares as int, q * SCALE + f, rr);
            assert(q * SCALE <= share_units(amount as int, shares as int)) by (nonlinear_arith)
                requires
                    share_units(amount as int, shares as int) == q * SCALE + f,
                    f >= 0,
            ;
        }
        proof {
            let su = share_units(amount as int, shares as int);
            assert((self.whole + q + 1) * SCALE <= self@ + su + SCALE) by (nonlinear_arith)
                requires
                    su == q * SCALE + f,
                    self@ == self.whole * SCALE + self.frac,
                    f >= 0,
                    self.frac >= 0,
            ;
            assert(self.whole + q + 1 <= u128::MAX + 1) by (nonlinear_arith)
                requires
                    (self.whole + q + 1) * SCALE <= self@ + su + SCALE,
                    self@ + su <= max_units(),
            ;
        }
        let sum = self.frac + f;
        if sum >= SCALE {
            self.whole = self.whole + q + 1;
            self.frac = sum - SCALE;
        } else {
            self.whole = self.whole + q;
            self.frac = sum;
        }
        proof {
            lemma_fundamental_div_mod_converse(self@, SCALE as int, self.whole as int, self.frac as int);
        }
    }
}

} // verus!
