//! Settings and step count of the AdamW optimizer.
use vstd::prelude::*;

use crate::double::Real;

verus! {

/// The pattern of the double nearest to 0.001.
pub const LEARNING_RATE_BITS: u64 = 0x3F50_624D_D2F1_A9FC;

/// The pattern of the double nearest to 0.9.
pub const BETA1_BITS: u64 = 0x3FEC_CCCC_CCCC_CCCD;

/// The pattern of the double nearest to 0.999.
pub const BETA2_BITS: u64 = 0x3FEF_F7CE_D916_872B;

/// The pattern of the double nearest to 1e-8.
pub const EPSILON_BITS: u64 = 0x3E45_798E_E230_8C3A;

/// The pattern of the double nearest to 0.01.
pub const WEIGHT_DECAY_BITS: u64 = 0x3F84_7AE1_47AE_147B;

#[derive(Clone, Debug)]
pub struct ParamsPagedAdamW {
    pub lr: Real,
    pub beta1: Real,
    pub beta2: Real,
    pub eps: Real,
    pub weight_decay: Real,
}

impl Default for ParamsPagedAdamW {
    fn default() -> (r: Self)
        ensures
            r.lr.bits == LEARNING_RATE_BITS,
            r.beta1.bits == BETA1_BITS,
            r.beta2.bits == BETA2_BITS,
            r.eps.bits == EPSILON_BITS,
            r.weight_decay.bits == WEIGHT_DECAY_BITS,
    {
        ParamsPagedAdamW {
            lr: Real::from_bits(LEARNING_RATE_BITS),
            beta1: Real::from_bits(BETA1_BITS),
            beta2: Real::from_bits(BETA2_BITS),
            eps: Real::from_bits(EPSILON_BITS),
            weight_decay: Real::from_bits(WEIGHT_DECAY_BITS),
        }
    }
}

/// The settings of an optimizer and how many steps it has made. The moments themselves are
/// tensors and stay with the caller.
pub struct PagedAdamW {
    pub step_t: usize,
    pub params: ParamsPagedAdamW,
}

impl PagedAdamW {
    pub fn new(params: ParamsPagedAdamW) -> (r: PagedAdamW)
        ensures
            r.step_t == 0,
            r.params == params,
    {
        PagedAdamW { step_t: 0, params }
    }

    pub fn learning_rate(&self) -> (r: Real)
        ensures
            r == self.params.lr,
    {
        self.params.lr
    }

    pub fn set_learning_rate(&mut self, lr: Real)
        ensures
            *final(self) == (PagedAdamW {
                params: ParamsPagedAdamW { lr, ..old(self).params },
                ..*old(self)
            }),
    {
        self.params.lr = lr;
    }

    /// Begins a step and gives its number, which is the exponent of the bias corrections. The
    /// first step has the number one.
    pub fn begin_step(&mut self) -> (t: usize)
        requires
            old(self).step_t < usize::MAX,
        ensures
            t == old(self).step_t + 1,
            *final(self) == (PagedAdamW { step_t: t, ..*old(self) }),
    {
        self.step_t = self.step_t + 1;
        self.step_t
    }

    pub fn params(&self) -> (r: &ParamsPagedAdamW)
        ensures
            *r == self.params,
    {
        &self.params
    }
}

} // verus!
