//! Settings of direct preference optimization.
use vstd::prelude::*;

use crate::double::{zero, Real, TENTH_BITS};

verus! {

#[derive(Debug, Clone)]
pub struct DpoConfig {
    /// How sharply the policy is pulled towards the preferred response.
    pub beta: Real,
    pub label_smoothing: Real,
    /// The smallest difference of rewards that makes a pair.
    pub reward_margin: Real,
    pub pairing_strategy: String,
    pub batch_size: usize,
}

impl DpoConfig {
    /// These settings with another batch size.
    pub open spec fn sized(self, batch_size: usize) -> DpoConfig {
        DpoConfig { batch_size, ..self }
    }

    /// Whether the labels are smoothed.
    pub fn smooths_labels(&self) -> (r: bool)
        ensures
            r == zero().lt(self.label_smoothing),
    {
        Real::zero().less_than(&self.label_smoothing)
    }
}

pub fn default_beta() -> (r: Real)
    ensures
        r.bits == TENTH_BITS,
{
    Real::from_bits(TENTH_BITS)
}

pub fn default_margin() -> (r: Real)
    ensures
        r.bits == TENTH_BITS,
{
    Real::from_bits(TENTH_BITS)
}

pub fn default_strategy() -> (r: String)
    ensures
        r@ == "same_technique"@,
{
    "same_technique".to_owned()
}

pub fn default_bs() -> (n: usize)
    ensures
        n == 1,
{
    1
}

impl Default for DpoConfig {
    fn default() -> (r: Self)
        ensures
            r.beta.bits == TENTH_BITS,
            r.label_smoothing.bits == 0,
            r.reward_margin.bits == TENTH_BITS,
            r.pairing_strategy@ == "same_technique"@,
            r.batch_size == 1,
    {
        DpoConfig {
            beta: default_beta(),
            label_smoothing: Real::zero(),
            reward_margin: default_margin(),
            pairing_strategy: default_strategy(),
            batch_size: default_bs(),
        }
    }
}

} // verus!
