//! Settings of implicit language Q-learning.
use vstd::prelude::*;

use crate::double::{Real, ONE_BITS, TENTH_BITS};

verus! {

/// The pattern of the double nearest to 0.99.
pub const GAMMA_BITS: u64 = 0x3FEF_AE14_7AE1_47AE;

/// The pattern of the double nearest to 0.7.
pub const EXPECTILE_BITS: u64 = 0x3FE6_6666_6666_6666;

/// The pattern of the double nearest to 0.005.
pub const TARGET_TAU_BITS: u64 = 0x3F74_7AE1_47AE_147B;

#[derive(Debug, Clone)]
pub struct IlqlConfig {
    /// Discount of future rewards.
    pub gamma: Real,
    /// Weight of the conservative penalty.
    pub cql_alpha: Real,
    /// Asymmetry of the value regression.
    pub expectile_tau: Real,
    /// Rate at which the target heads follow the trained ones.
    pub target_update_tau: Real,
    /// Weight of the supervised term.
    pub sft_weight: Real,
    pub q_head_layers: usize,
    pub batch_size: usize,
}

impl IlqlConfig {
    /// These settings with another batch size.
    pub open spec fn sized(self, batch_size: usize) -> IlqlConfig {
        IlqlConfig { batch_size, ..self }
    }
}

pub fn default_gamma() -> (r: Real)
    ensures
        r.bits == GAMMA_BITS,
{
    Real::from_bits(GAMMA_BITS)
}

pub fn default_cql_alpha() -> (r: Real)
    ensures
        r.bits == ONE_BITS,
{
    Real::from_bits(ONE_BITS)
}

pub fn default_expectile() -> (r: Real)
    ensures
        r.bits == EXPECTILE_BITS,
{
    Real::from_bits(EXPECTILE_BITS)
}

pub fn default_target_tau() -> (r: Real)
    ensures
        r.bits == TARGET_TAU_BITS,
{
    Real::from_bits(TARGET_TAU_BITS)
}

pub fn default_sft_weight() -> (r: Real)
    ensures
        r.bits == TENTH_BITS,
{
    Real::from_bits(TENTH_BITS)
}

pub fn default_q_layers() -> (n: usize)
    ensures
        n == 2,
{
    2
}

pub fn default_bs() -> (n: usize)
    ensures
        n == 1,
{
    1
}

impl Default for IlqlConfig {
    fn default() -> (r: Self)
        ensures
            r.gamma.bits == GAMMA_BITS,
            r.cql_alpha.bits == ONE_BITS,
            r.expectile_tau.bits == EXPECTILE_BITS,
            r.target_update_tau.bits == TARGET_TAU_BITS,
            r.sft_weight.bits == TENTH_BITS,
            r.q_head_layers == 2,
            r.batch_size == 1,
    {
        IlqlConfig {
            gamma: default_gamma(),
            cql_alpha: default_cql_alpha(),
            expectile_tau: default_expectile(),
            target_update_tau: default_target_tau(),
            sft_weight: default_sft_weight(),
            q_head_layers: default_q_layers(),
            batch_size: default_bs(),
        }
    }
}

} // verus!
