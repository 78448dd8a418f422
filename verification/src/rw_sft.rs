//! Settings of reward-weighted supervised fine-tuning.
use vstd::prelude::*;

use crate::double::{Real, HALF_BITS, ONE_BITS};

verus! {

#[derive(Debug, Clone)]
pub struct RwSftConfig {
    /// Rewards are divided by it before they are turned into weights.
    pub temperature: Real,
    pub normalization: String,
    pub reward_threshold: Real,
    pub batch_size: usize,
}

impl RwSftConfig {
    /// These settings with another batch size.
    pub open spec fn sized(self, batch_size: usize) -> RwSftConfig {
        RwSftConfig { batch_size, ..self }
    }
}

pub fn default_temp() -> (r: Real)
    ensures
        r.bits == ONE_BITS,
{
    Real::from_bits(ONE_BITS)
}

pub fn default_norm() -> (r: String)
    ensures
        r@ == "exponential"@,
{
    "exponential".to_owned()
}

pub fn default_thresh() -> (r: Real)
    ensures
        r.bits == HALF_BITS,
{
    Real::from_bits(HALF_BITS)
}

pub fn default_bs() -> (n: usize)
    ensures
        n == 1,
{
    1
}

impl Default for RwSftConfig {
    fn default() -> (r: Self)
        ensures
            r.temperature.bits == ONE_BITS,
            r.normalization@ == "exponential"@,
            r.reward_threshold.bits == HALF_BITS,
            r.batch_size == 1,
    {
        RwSftConfig {
            temperature: default_temp(),
            normalization: default_norm(),
            reward_threshold: default_thresh(),
            batch_size: default_bs(),
        }
    }
}

} // verus!
