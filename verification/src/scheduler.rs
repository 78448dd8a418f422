//! The schedule of the learning rate: a linear warm-up, then a decay.
//!
//! A rate lies between the smallest rate and the base rate. Where it lies is a fraction of step
//! counts, which is given exactly; the caller turns it into a number.
use vstd::prelude::*;

use crate::double::Real;
use crate::text::same_text;

verus! {

/// The pattern of the double nearest to 1e-6.
pub const MIN_RATE_BITS: u64 = 0x3EB0_C6F7_A0B5_ED8D;

#[derive(Debug, Clone)]
pub struct SchedulerConfig {
    /// `cosine`, `linear`, or anything else for a constant rate.
    pub scheduler_type: String,
    pub min_lr: Real,
}

impl Default for SchedulerConfig {
    fn default() -> (r: Self)
        ensures
            r.scheduler_type@ == "cosine"@,
            r.min_lr.bits == MIN_RATE_BITS,
    {
        SchedulerConfig {
            scheduler_type: "cosine".to_owned(),
            min_lr: Real::from_bits(MIN_RATE_BITS),
        }
    }
}

/// The learning rate of a step.
#[derive(Debug, Clone, Copy, PartialEq, Eq, Structural)]
pub enum Rate {
    /// `min + (base - min) * done / of`.
    Warmup { done: usize, of: usize },
    /// `min + (base - min) * (1 + cos(pi * done / of)) / 2`.
    Cosine { done: usize, of: usize },
    /// `min + (base - min) * (1 - done / of)`.
    Linear { done: usize, of: usize },
    /// The base rate.
    Constant,
}

pub struct LrScheduler {
    pub config: SchedulerConfig,
    pub base_lr: Real,
    pub warmup_steps: usize,
    pub total_steps: usize,
    pub current_step: usize,
}

/// How many steps the decay takes.
pub open spec fn decay_steps(warmup_steps: int, total_steps: int) -> int {
    if total_steps > warmup_steps {
        total_steps - warmup_steps
    } else {
        1
    }
}

impl LrScheduler {
    /// The rate of a step.
    pub open spec fn rate_at(self, step: int) -> Rate {
        let of = decay_steps(self.warmup_steps as int, self.total_steps as int) as usize;
        if step < self.warmup_steps {
            Rate::Warmup { done: step as usize, of: self.warmup_steps }
        } else if self.config.scheduler_type@ == "cosine"@ {
            Rate::Cosine { done: (step - self.warmup_steps) as usize, of }
        } else if self.config.scheduler_type@ == "linear"@ {
            Rate::Linear { done: (step - self.warmup_steps) as usize, of }
        } else {
            Rate::Constant
        }
    }

    pub fn new(
        config: SchedulerConfig,
        base_lr: Real,
        warmup_steps: usize,
        total_steps: usize,
    ) -> (r: LrScheduler)
        ensures
            r == (LrScheduler { config, base_lr, warmup_steps, total_steps, current_step: 0 }),
    {
        LrScheduler { config, base_lr, warmup_steps, total_steps, current_step: 0 }
    }

    /// The rate of the current step, and on to the next one.
    pub fn step(&mut self) -> (r: Rate)
        requires
            old(self).current_step < usize::MAX,
        ensures
            r == old(self).rate_at(old(self).current_step as int),
            *final(self) == (LrScheduler {
                current_step: (old(self).current_step + 1) as usize,
                ..*old(self)
            }),
    {
        let r = self.get_lr();
        self.current_step = self.current_step + 1;
        r
    }

    /// The rate of the current step.
    pub fn get_lr(&self) -> (r: Rate)
        ensures
            r == self.rate_at(self.current_step as int),
    {
        if self.current_step < self.warmup_steps {
            return Rate::Warmup { done: self.current_step, of: self.warmup_steps };
        }
        let done: usize = self.current_step - self.warmup_steps;
        let of: usize = if self.total_steps > self.warmup_steps {
            self.total_steps - self.warmup_steps
        } else {
            1
        };
        if same_text(self.config.scheduler_type.as_str(), "cosine") {
            Rate::Cosine { done, of }
        } else if same_text(self.config.scheduler_type.as_str(), "linear") {
            Rate::Linear { done, of }
        } else {
            Rate::Constant
        }
    }

    pub fn current_step(&self) -> (n: usize)
        ensures
            n == self.current_step,
    {
        self.current_step
    }
}

// ---------------------------------------------------------------------------
// Laws
// ---------------------------------------------------------------------------

/// Whether a rate lies between the smallest rate and the base rate: the fraction behind it is
/// one of at most one.
pub open spec fn is_between(r: Rate) -> bool {
    match r {
        Rate::Warmup { done, of } => done <= of && of > 0,
        Rate::Cosine { done, of } => done <= of && of > 0,
        Rate::Linear { done, of } => done <= of && of > 0,
        Rate::Constant => true,
    }
}

/// Within the planned steps the rate stays between the smallest rate and the base rate.
pub proof fn law_rate_stays_between(s: LrScheduler, step: int)
    requires
        0 <= step < s.total_steps,
    ensures
        is_between(s.rate_at(step)),
{
}

/// A schedule with a warm-up begins at the smallest rate, and when the warm-up is over the decay
/// begins at the base rate.
pub proof fn law_warmup_reaches_base(s: LrScheduler)
    ensures
        s.warmup_steps > 0 ==> s.rate_at(0) == (Rate::Warmup { done: 0, of: s.warmup_steps }),
        match s.rate_at(s.warmup_steps as int) {
            Rate::Warmup { .. } => false,
            Rate::Cosine { done, .. } => done == 0,
            Rate::Linear { done, .. } => done == 0,
            Rate::Constant => true,
        },
{
}

/// The warm-up rises and the decay falls by the same amount in each step: the fraction grows by
/// one count at a time, over a count that stays the same.
pub proof fn law_rate_moves_evenly(s: LrScheduler, step: int)
    requires
        0 <= step < usize::MAX,
    ensures
        match (s.rate_at(step), s.rate_at(step + 1)) {
            (Rate::Warmup { done: a, of: m }, Rate::Warmup { done: b, of: n }) => b == a + 1 && m
                == n,
            (Rate::Warmup { done, of }, _) => done + 1 == of,
            (Rate::Cosine { done: a, of: m }, Rate::Cosine { done: b, of: n }) => b == a + 1 && m
                == n,
            (Rate::Linear { done: a, of: m }, Rate::Linear { done: b, of: n }) => b == a + 1 && m
                == n,
            (Rate::Constant, Rate::Constant) => true,
            _ => false,
        },
{
}

/// In the warm-up a rate is the share of its steps that are done. After it, a cosine or a linear
/// schedule goes by the share of the other steps that are done, and any other schedule stays at
/// the base rate.
pub proof fn law_rate_by_type(s: LrScheduler, step: usize)
    ensures
        step < s.warmup_steps ==> s.rate_at(step as int) == (Rate::Warmup {
            done: step,
            of: s.warmup_steps,
        }),
        step >= s.warmup_steps && s.config.scheduler_type@ == "cosine"@ ==> (s.rate_at(
            step as int,
        ) matches Rate::Cosine { done, of } && done == step - s.warmup_steps && of >= 1 && of
            >= s.total_steps - s.warmup_steps && (of == 1 || of == s.total_steps - s.warmup_steps)),
        step >= s.warmup_steps && s.config.scheduler_type@ == "linear"@ ==> (s.rate_at(
            step as int,
        ) matches Rate::Linear { done, of } && done == step - s.warmup_steps && of >= 1 && of
            >= s.total_steps - s.warmup_steps && (of == 1 || of == s.total_steps - s.warmup_steps)),
        step >= s.warmup_steps && s.config.scheduler_type@ != "cosine"@ && s.config.scheduler_type@
            != "linear"@ ==> s.rate_at(step as int) == Rate::Constant,
{
    reveal_strlit("cosine");
    reveal_strlit("linear");
    assert("cosine"@[0] != "linear"@[0]);
}

/// A schedule that decays has come to its end at the last step: all steps after the warm-up are
/// done then, and not before.
pub proof fn law_decay_ends_with_the_run(s: LrScheduler, step: usize)
    requires
        s.config.scheduler_type@ == "cosine"@ || s.config.scheduler_type@ == "linear"@,
        s.warmup_steps <= step <= s.total_steps,
        s.warmup_steps < s.total_steps,
    ensures
        match s.rate_at(step as int) {
            Rate::Cosine { done, of } => done <= of && (done == of <==> step == s.total_steps),
            Rate::Linear { done, of } => done <= of && (done == of <==> step == s.total_steps),
            _ => false,
        },
{
}

} // verus!
