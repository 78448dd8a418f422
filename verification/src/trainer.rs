//! Training: its settings, the choice of the algorithm, and the order of its work.
//!
//! A training run is a sequence of updates, each by the gradient that several small batches have
//! gathered. After some of them the model is evaluated, and its weights are saved when it did
//! better than before, at regular intervals, and at the end. This module says what comes next; the
//! work itself is the caller's.
use vstd::prelude::*;

use crate::checkpoint::TrainState;
use crate::double::{infinity, Real, INFINITY_BITS};
use crate::dpo::DpoConfig;
use crate::ilql::IlqlConfig;
use crate::replay_buffer::DataConfig;
use crate::rw_sft::RwSftConfig;
use crate::scheduler::{LrScheduler, Rate, SchedulerConfig};
use crate::text::same_text;

verus! {

broadcast use vstd::string::group_string_axioms;

// ---------------------------------------------------------------------------
// Settings
// ---------------------------------------------------------------------------

#[derive(Debug, Clone)]
pub struct ModelConfig {
    pub model_id: String,
    pub dtype: String,
    pub max_prompt_length: usize,
    pub max_response_length: usize,
}

#[derive(Debug, Clone)]
pub struct TrainingConfig {
    pub algorithm: String,
    pub num_epochs: usize,
    pub batch_size: usize,
    pub gradient_accumulation_steps: usize,
    pub learning_rate: Real,
    pub warmup_steps: usize,
    pub max_steps: usize,
    pub save_every: usize,
    pub eval_every: usize,
    pub output_dir: String,
    pub seed: u64,
    pub adamw: AdamWConfig,
    pub scheduler: SchedulerConfig,
}

#[derive(Debug, Clone)]
pub struct AdamWConfig {
    pub beta1: Real,
    pub beta2: Real,
    pub eps: Real,
    pub weight_decay: Real,
}

#[derive(Debug, Clone)]
pub struct DataSectionConfig {
    pub logs_dir: String,
    pub train_split: Real,
    pub prompt_truncation: String,
    pub min_reward: Real,
}

#[derive(Debug, Clone)]
pub struct FullConfig {
    pub model: ModelConfig,
    pub data: DataSectionConfig,
    pub training: TrainingConfig,
    pub dpo: DpoConfig,
    pub rw_sft: RwSftConfig,
    pub ilql: IlqlConfig,
}

impl FullConfig {
    /// The settings of the replay buffer.
    pub fn data_config(&self) -> (r: DataConfig)
        ensures
            r == (DataConfig {
                max_prompt_length: self.model.max_prompt_length,
                max_response_length: self.model.max_response_length,
                min_reward: self.data.min_reward,
                train_split: self.data.train_split,
            }),
    {
        DataConfig {
            max_prompt_length: self.model.max_prompt_length,
            max_response_length: self.model.max_response_length,
            min_reward: self.data.min_reward,
            train_split: self.data.train_split,
        }
    }

    /// The plan of a run on `train_len` examples.
    pub fn run_plan(&self, train_len: usize) -> (r: RunPlan)
        ensures
            r == (RunPlan {
                total_steps: self.training.max_steps,
                accumulation: self.training.gradient_accumulation_steps,
                eval_every: self.training.eval_every,
                save_every: self.training.save_every,
                train_len,
            }),
    {
        RunPlan {
            total_steps: self.training.max_steps,
            accumulation: self.training.gradient_accumulation_steps,
            eval_every: self.training.eval_every,
            save_every: self.training.save_every,
            train_len,
        }
    }

    /// The settings with those that were given anew; the others stay.
    pub fn with_overrides(
        self,
        algorithm: Option<String>,
        learning_rate: Option<Real>,
        max_steps: Option<usize>,
    ) -> (r: FullConfig)
        ensures
            r == (FullConfig {
                training: TrainingConfig {
                    algorithm: match algorithm {
                        Some(a) => a,
                        None => self.training.algorithm,
                    },
                    learning_rate: match learning_rate {
                        Some(x) => x,
                        None => self.training.learning_rate,
                    },
                    max_steps: match max_steps {
                        Some(n) => n,
                        None => self.training.max_steps,
                    },
                    ..self.training
                },
                ..self
            }),
    {
        let mut r = self;
        if let Some(a) = algorithm {
            r.training.algorithm = a;
        }
        if let Some(x) = learning_rate {
            r.training.learning_rate = x;
        }
        if let Some(n) = max_steps {
            r.training.max_steps = n;
        }
        r
    }

    /// The schedule of the learning rate.
    pub fn lr_scheduler(&self) -> (r: LrScheduler)
        ensures
            r.config.scheduler_type@ == self.training.scheduler.scheduler_type@,
            r.config.min_lr == self.training.scheduler.min_lr,
            r.base_lr == self.training.learning_rate,
            r.warmup_steps == self.training.warmup_steps,
            r.total_steps == self.training.max_steps,
            r.current_step == 0,
    {
        let config = SchedulerConfig {
            scheduler_type: self.training.scheduler.scheduler_type.clone(),
            min_lr: self.training.scheduler.min_lr,
        };
        LrScheduler::new(
            config,
            self.training.learning_rate,
            self.training.warmup_steps,
            self.training.max_steps,
        )
    }
}

// ---------------------------------------------------------------------------
// Algorithms
// ---------------------------------------------------------------------------

/// An algorithm with its settings.
pub enum Algorithm {
    Dpo(DpoConfig),
    RwSft(RwSftConfig),
    Ilql(IlqlConfig),
}

impl Algorithm {
    /// The name by which the algorithm is chosen.
    pub open spec fn label(self) -> Seq<char> {
        match self {
            Algorithm::Dpo(_) => "dpo"@,
            Algorithm::RwSft(_) => "rw_sft"@,
            Algorithm::Ilql(_) => "ilql"@,
        }
    }

    pub fn name(&self) -> (r: &'static str)
        ensures
            r@ == self.label(),
    {
        match self {
            Algorithm::Dpo(_) => "dpo",
            Algorithm::RwSft(_) => "rw_sft",
            Algorithm::Ilql(_) => "ilql",
        }
    }

    /// Whether value heads are trained along with the model, and saved with it.
    pub fn has_value_heads(&self) -> (r: bool)
        ensures
            r == (self is Ilql),
    {
        match self {
            Algorithm::Ilql(_) => true,
            _ => false,
        }
    }
}

/// The algorithm that the settings name. It takes the batch size of the training.
pub fn choose_algorithm(config: FullConfig) -> (r: Result<Algorithm, String>)
    ensures
        match r {
            Ok(Algorithm::Dpo(c)) => config.training.algorithm@ == "dpo"@ && c == config.dpo.sized(
                config.training.batch_size,
            ),
            Ok(Algorithm::RwSft(c)) => config.training.algorithm@ == "rw_sft"@ && c
                == config.rw_sft.sized(config.training.batch_size),
            Ok(Algorithm::Ilql(c)) => config.training.algorithm@ == "ilql"@ && c
                == config.ilql.sized(config.training.batch_size),
            Err(e) => config.training.algorithm@ != "dpo"@ && config.training.algorithm@
                != "rw_sft"@ && config.training.algorithm@ != "ilql"@ && e@
                == "unknown algorithm: "@ + config.training.algorithm@,
        },
{
    let batch_size: usize = config.training.batch_size;
    if same_text(config.training.algorithm.as_str(), "dpo") {
        let mut c = config.dpo;
        c.batch_size = batch_size;
        Ok(Algorithm::Dpo(c))
    } else if same_text(config.training.algorithm.as_str(), "rw_sft") {
        let mut c = config.rw_sft;
        c.batch_size = batch_size;
        Ok(Algorithm::RwSft(c))
    } else if same_text(config.training.algorithm.as_str(), "ilql") {
        let mut c = config.ilql;
        c.batch_size = batch_size;
        Ok(Algorithm::Ilql(c))
    } else {
        let mut e = "unknown algorithm: ".to_owned();
        e.append(config.training.algorithm.as_str());
        Err(e)
    }
}

// ---------------------------------------------------------------------------
// The order of the work
// ---------------------------------------------------------------------------

/// What a training run looks like from outside.
#[derive(Clone, Copy)]
pub struct RunPlan {
    pub total_steps: usize,
    /// How many small batches an update gathers its gradient from.
    pub accumulation: usize,
    pub eval_every: usize,
    pub save_every: usize,
    /// How many examples are trained on.
    pub train_len: usize,
}

/// What is to be done.
#[derive(Clone, Copy, Debug, PartialEq, Eq, Structural)]
pub enum Phase {
    /// The gradient of one more small batch.
    Accumulate,
    /// One update of the model, by what the small batches have gathered.
    Update,
    Evaluate,
    /// Save the weights, since the model did better than before.
    SaveBest,
    /// Save the weights, since it is time to.
    SavePeriodic,
    /// Save the weights at the end.
    SaveFinal,
    Finished,
}

/// How far a run has come.
#[derive(Clone, Copy, Debug)]
pub struct Progress {
    pub step: usize,
    /// How many small batches have been gathered for the update of this step.
    pub gathered: usize,
    pub best_eval_loss: Real,
    pub phase: Phase,
}

impl RunPlan {
    /// The intervals are given, where they come into play at all.
    pub open spec fn valid(self) -> bool {
        self.total_steps > 1 ==> self.eval_every > 0 && self.save_every > 0
    }

    /// Whether the intervals are given, where they come into play at all.
    pub fn is_valid(&self) -> (r: bool)
        ensures
            r == self.valid(),
    {
        self.total_steps <= 1 || (self.eval_every > 0 && self.save_every > 0)
    }

    pub open spec fn evaluates_at(self, step: int) -> bool {
        step > 0 && step % self.eval_every as int == 0
    }

    pub open spec fn saves_at(self, step: int) -> bool {
        step > 0 && step % self.save_every as int == 0
    }

    /// What a step begins with.
    pub open spec fn entering(self, step: int) -> Phase {
        if step >= self.total_steps {
            Phase::SaveFinal
        } else if self.accumulation > 0 {
            Phase::Accumulate
        } else {
            Phase::Update
        }
    }

    pub open spec fn next_step(self, p: Progress) -> Progress {
        Progress {
            step: (p.step + 1) as usize,
            gathered: 0,
            phase: self.entering(p.step + 1),
            ..p
        }
    }

    /// What follows when a step has been evaluated, or need not be.
    pub open spec fn after_evaluation(self, p: Progress) -> Progress {
        if self.saves_at(p.step as int) {
            Progress { phase: Phase::SavePeriodic, ..p }
        } else {
            self.next_step(p)
        }
    }

    /// What follows when the work of a phase is done. An evaluation found the given loss.
    pub open spec fn next(self, p: Progress, loss: Real) -> Progress {
        match p.phase {
            Phase::Accumulate => Progress {
                gathered: (p.gathered + 1) as usize,
                phase: if p.gathered + 1 < self.accumulation {
                    Phase::Accumulate
                } else {
                    Phase::Update
                },
                ..p
            },
            Phase::Update => if self.evaluates_at(p.step as int) {
                Progress { phase: Phase::Evaluate, ..p }
            } else {
                self.after_evaluation(p)
            },
            Phase::Evaluate => if loss.lt(p.best_eval_loss) {
                Progress { phase: Phase::SaveBest, best_eval_loss: loss, ..p }
            } else {
                self.after_evaluation(p)
            },
            Phase::SaveBest => self.after_evaluation(p),
            Phase::SavePeriodic => self.next_step(p),
            Phase::SaveFinal => Progress { phase: Phase::Finished, ..p },
            Phase::Finished => p,
        }
    }

    /// How a run begins.
    pub open spec fn start(self) -> Progress {
        Progress { step: 0, gathered: 0, best_eval_loss: infinity(), phase: self.entering(0) }
    }

    /// The phase fits the step and what has been gathered: an update waits for all small batches.
    pub open spec fn fits(self, p: Progress) -> bool {
        match p.phase {
            Phase::Accumulate => p.step < self.total_steps && p.gathered < self.accumulation,
            Phase::Update => p.step < self.total_steps && p.gathered == self.accumulation,
            Phase::Evaluate | Phase::SaveBest => p.step < self.total_steps && p.gathered
                == self.accumulation && self.evaluates_at(p.step as int),
            Phase::SavePeriodic => p.step < self.total_steps && p.gathered == self.accumulation
                && self.saves_at(p.step as int),
            Phase::SaveFinal | Phase::Finished => p.step == self.total_steps && p.gathered == 0,
        }
    }

    fn enter(&self, step: usize) -> (r: Phase)
        ensures
            r == self.entering(step as int),
    {
        if step >= self.total_steps {
            Phase::SaveFinal
        } else if self.accumulation > 0 {
            Phase::Accumulate
        } else {
            Phase::Update
        }
    }

    /// How a run begins.
    pub fn begin(&self) -> (p: Progress)
        ensures
            p == self.start(),
            self.fits(p),
    {
        Progress {
            step: 0,
            gathered: 0,
            best_eval_loss: Real::from_bits(INFINITY_BITS),
            phase: self.enter(0),
        }
    }

    fn leave_step(&self, p: Progress) -> (r: Progress)
        requires
            self.valid(),
            p.step < self.total_steps,
        ensures
            r == self.next_step(p),
    {
        let step: usize = p.step + 1;
        Progress {
            step,
            gathered: 0,
            best_eval_loss: p.best_eval_loss,
            phase: self.enter(step),
        }
    }

    fn leave_evaluation(&self, p: Progress) -> (r: Progress)
        requires
            self.valid(),
            p.step < self.total_steps,
        ensures
            r == self.after_evaluation(p),
    {
        if p.step > 0 && p.step % self.save_every == 0 {
            Progress { phase: Phase::SavePeriodic, ..p }
        } else {
            self.leave_step(p)
        }
    }

    /// What follows when the work of a phase other than an evaluation is done.
    pub fn proceed(&self, p: Progress) -> (r: Progress)
        requires
            self.valid(),
            self.fits(p),
            p.phase != Phase::Evaluate,
        ensures
            forall|loss: Real| r == #[trigger] self.next(p, loss),
            self.fits(r),
    {
        match p.phase {
            Phase::Accumulate => Progress {
                gathered: p.gathered + 1,
                phase: if p.gathered + 1 < self.accumulation {
                    Phase::Accumulate
                } else {
                    Phase::Update
                },
                ..p
            },
            Phase::Update => if p.step > 0 && p.step % self.eval_every == 0 {
                Progress { phase: Phase::Evaluate, ..p }
            } else {
                self.leave_evaluation(p)
            },
            Phase::Evaluate | Phase::SaveBest => self.leave_evaluation(p),
            Phase::SavePeriodic => self.leave_step(p),
            Phase::SaveFinal => Progress { phase: Phase::Finished, ..p },
            Phase::Finished => p,
        }
    }

    /// What follows when an evaluation found the given loss.
    pub fn judge(&self, p: Progress, loss: Real) -> (r: Progress)
        requires
            self.valid(),
            self.fits(p),
            p.phase == Phase::Evaluate,
        ensures
            r == self.next(p, loss),
            self.fits(r),
    {
        if loss.less_than(&p.best_eval_loss) {
            Progress { phase: Phase::SaveBest, best_eval_loss: loss, ..p }
        } else {
            self.leave_evaluation(p)
        }
    }

    /// What is recorded with saved weights. Every example is seen once per epoch.
    pub fn train_state(&self, p: Progress, algorithm: &str) -> (r: TrainState)
        ensures
            r.global_step == p.step,
            r.epoch as int == p.step as int / (if self.train_len == 0 {
                1
            } else {
                self.train_len as int
            }),
            r.best_eval_loss == p.best_eval_loss,
            r.algorithm@ == algorithm@,
    {
        let per_epoch: usize = if self.train_len == 0 {
            1
        } else {
            self.train_len
        };
        TrainState {
            global_step: p.step,
            epoch: p.step / per_epoch,
            best_eval_loss: p.best_eval_loss,
            algorithm: algorithm.to_owned(),
        }
    }
}

/// A training run: its plan, how far it has come, and the schedule of its learning rate.
pub struct TrainingRun {
    pub plan: RunPlan,
    pub progress: Progress,
    pub scheduler: LrScheduler,
}

/// How many updates have been made.
pub open spec fn updates_made(p: Progress) -> int {
    match p.phase {
        Phase::Evaluate | Phase::SaveBest | Phase::SavePeriodic => p.step + 1,
        Phase::Accumulate | Phase::Update | Phase::SaveFinal | Phase::Finished => p.step as int,
    }
}

impl TrainingRun {
    /// The phase fits the step, and the schedule has moved on by one with each update.
    pub open spec fn consistent(self) -> bool {
        &&& self.plan.valid()
        &&& self.plan.fits(self.progress)
        &&& self.scheduler.current_step == updates_made(self.progress)
    }

    /// A run at its beginning.
    pub fn start(plan: RunPlan, scheduler: LrScheduler) -> (r: TrainingRun)
        requires
            plan.valid(),
            scheduler.current_step == 0,
        ensures
            r.consistent(),
            r == (TrainingRun { plan, progress: plan.start(), scheduler }),
    {
        TrainingRun { plan, progress: plan.begin(), scheduler }
    }

    /// The learning rate of the update that is due: the one that the schedule has for the step.
    pub fn rate(&self) -> (r: Rate)
        requires
            self.consistent(),
            self.progress.phase == Phase::Accumulate || self.progress.phase == Phase::Update,
        ensures
            r == self.scheduler.rate_at(self.progress.step as int),
    {
        self.scheduler.get_lr()
    }

    /// Goes on when the work of a phase other than an evaluation is done.
    pub fn proceed(&mut self)
        requires
            old(self).consistent(),
            old(self).progress.phase != Phase::Evaluate,
        ensures
            final(self).consistent(),
            final(self).plan == old(self).plan,
            forall|loss: Real|
                final(self).progress == #[trigger] old(self).plan.next(old(self).progress, loss),
            final(self).scheduler == (LrScheduler {
                current_step: updates_made(final(self).progress) as usize,
                ..old(self).scheduler
            }),
    {
        if self.progress.phase == Phase::Update {
            let _rate = self.scheduler.step();
        }
        let ghost before = self.progress;
        self.progress = self.plan.proceed(self.progress);
        assert(self.progress == self.plan.next(before, infinity()));
    }

    /// Goes on when an evaluation found the given loss.
    pub fn judge(&mut self, loss: Real)
        requires
            old(self).consistent(),
            old(self).progress.phase == Phase::Evaluate,
        ensures
            final(self).consistent(),
            *final(self) == (TrainingRun {
                progress: old(self).plan.next(old(self).progress, loss),
                ..*old(self)
            }),
    {
        self.progress = self.plan.judge(self.progress, loss);
    }
}

// ---------------------------------------------------------------------------
// Laws
// ---------------------------------------------------------------------------

/// A run after `n` pieces of work, when the evaluation of step `s` finds the loss `losses(s)`.
pub open spec fn run(plan: RunPlan, losses: spec_fn(int) -> Real, n: nat) -> Progress
    decreases n,
{
    if n == 0 {
        plan.start()
    } else {
        let p = run(plan, losses, (n - 1) as nat);
        plan.next(p, losses(p.step as int))
    }
}

/// The smallest loss found before step `k`; infinity where there is none.
pub open spec fn best_before(plan: RunPlan, losses: spec_fn(int) -> Real, k: int) -> Real
    decreases k,
{
    if k <= 0 {
        infinity()
    } else {
        let best = best_before(plan, losses, k - 1);
        if plan.evaluates_at(k - 1) && losses(k - 1).lt(best) {
            losses(k - 1)
        } else {
            best
        }
    }
}

/// How much work is left at most.
pub open spec fn work_left(plan: RunPlan, p: Progress) -> int {
    (plan.total_steps - p.step) * (plan.accumulation + 4) + match p.phase {
        Phase::Accumulate => plan.accumulation - p.gathered + 4int,
        Phase::Update => 4int,
        Phase::Evaluate => 3,
        Phase::SaveBest => 2,
        Phase::SavePeriodic | Phase::SaveFinal => 1,
        Phase::Finished => 0,
    }
}

/// In every state of a run the phase fits the step: there are evaluations and regular saves only
/// where the intervals say so, and the final save is at the last step.
pub proof fn law_run_fits(plan: RunPlan, losses: spec_fn(int) -> Real, n: nat)
    ensures
        plan.fits(run(plan, losses, n)),
    decreases n,
{
    if n > 0 {
        law_run_fits(plan, losses, (n - 1) as nat);
    }
}

/// Every piece of work brings a run closer to its end.
pub proof fn law_run_ends(plan: RunPlan, p: Progress, loss: Real)
    requires
        plan.fits(p),
        p.phase != Phase::Finished,
    ensures
        0 <= work_left(plan, plan.next(p, loss)) < work_left(plan, p),
{
    let per_step = plan.accumulation + 4;
    let left = plan.total_steps - p.step;
    assert(left * per_step >= 0) by (nonlinear_arith)
        requires
            left >= 0,
            per_step >= 0,
    ;
    assert((left - 1) * per_step == left * per_step - per_step) by (nonlinear_arith);
    if left > 0 {
        assert((left - 1) * per_step >= 0) by (nonlinear_arith)
            requires
                left > 0,
                per_step >= 0,
        ;
    }
}

/// The best loss of a run is the smallest that its evaluations have found so far.
pub proof fn law_best_is_smallest(plan: RunPlan, losses: spec_fn(int) -> Real, n: nat)
    ensures
        ({
            let p = run(plan, losses, n);
            p.best_eval_loss == best_before(
                plan,
                losses,
                match p.phase {
                    Phase::Accumulate | Phase::Update | Phase::Evaluate => p.step as int,
                    Phase::SaveBest | Phase::SavePeriodic => p.step + 1,
                    Phase::SaveFinal | Phase::Finished => plan.total_steps as int,
                },
            )
        }),
    decreases n,
{
    if n > 0 {
        law_best_is_smallest(plan, losses, (n - 1) as nat);
        law_run_fits(plan, losses, (n - 1) as nat);
    }
}

/// No evaluation before step `k` found a loss below the best one, and the best one is a loss that
/// an evaluation found, or infinity.
pub proof fn law_best_is_bound(plan: RunPlan, losses: spec_fn(int) -> Real, k: int)
    ensures
        !best_before(plan, losses, k).is_nan(),
        forall|s: int|
            0 <= s < k && plan.evaluates_at(s) ==> !(#[trigger] losses(s)).lt(
                best_before(plan, losses, k),
            ),
        best_before(plan, losses, k) == infinity() || exists|s: int|
            0 <= s < k && plan.evaluates_at(s) && #[trigger] losses(s) == best_before(
                plan,
                losses,
                k,
            ),
    decreases k,
{
    if k > 0 {
        law_best_is_bound(plan, losses, k - 1);
        let best = best_before(plan, losses, k - 1);
        if plan.evaluates_at(k - 1) && losses(k - 1).lt(best) {
            assert forall|s: int| 0 <= s < k && plan.evaluates_at(s) implies !(
            #[trigger] losses(s)).lt(losses(k - 1)) by {
                if s < k - 1 {
                    assert(!losses(s).lt(best));
                }
            }
        }
    }
}

/// From an update a run comes to the beginning of the next step, by way of the evaluation and the
/// regular save of the step, where it has them.
proof fn lemma_one_step(plan: RunPlan, losses: spec_fn(int) -> Real, n: nat) -> (m: nat)
    requires
        run(plan, losses, n).phase == Phase::Update,
    ensures
        m > n,
        run(plan, losses, m).step == run(plan, losses, n).step + 1,
        run(plan, losses, m).gathered == 0,
        run(plan, losses, m).phase == plan.entering(run(plan, losses, n).step + 1),
        plan.evaluates_at(run(plan, losses, n).step as int) ==> run(plan, losses, n + 1).phase
            == Phase::Evaluate && run(plan, losses, n + 1).step == run(plan, losses, n).step,
        plan.saves_at(run(plan, losses, n).step as int) ==> run(
            plan,
            losses,
            (m - 1) as nat,
        ).phase == Phase::SavePeriodic && run(plan, losses, (m - 1) as nat).step == run(
            plan,
            losses,
            n,
        ).step,
{
    law_run_fits(plan, losses, n);
    let p = run(plan, losses, n);
    assert(run(plan, losses, n + 1) == plan.next(p, losses(p.step as int)));
    let p1 = run(plan, losses, n + 1);
    assert(run(plan, losses, n + 2) == plan.next(p1, losses(p1.step as int)));
    let p2 = run(plan, losses, n + 2);
    assert(run(plan, losses, n + 3) == plan.next(p2, losses(p2.step as int)));
    let p3 = run(plan, losses, n + 3);
    assert(run(plan, losses, n + 4) == plan.next(p3, losses(p3.step as int)));
    if p1.step == p.step + 1 {
        n + 1
    } else if p2.step == p.step + 1 {
        n + 2
    } else if p3.step == p.step + 1 {
        n + 3
    } else {
        n + 4
    }
}

/// A step that is entered gathers one small batch after the other.
proof fn lemma_gathered(plan: RunPlan, losses: spec_fn(int) -> Real, n: nat, k: nat)
    requires
        run(plan, losses, n).step < plan.total_steps,
        run(plan, losses, n).gathered == 0,
        run(plan, losses, n).phase == plan.entering(run(plan, losses, n).step as int),
        k <= plan.accumulation,
    ensures
        run(plan, losses, n + k).step == run(plan, losses, n).step,
        run(plan, losses, n + k).gathered == k,
        run(plan, losses, n + k).phase == (if k < plan.accumulation {
            Phase::Accumulate
        } else {
            Phase::Update
        }),
    decreases k,
{
    if k > 0 {
        let j = (k - 1) as nat;
        lemma_gathered(plan, losses, n, j);
        let p = run(plan, losses, n + j);
        assert((n + k - 1) as nat == n + j);
        assert(run(plan, losses, n + k) == plan.next(p, losses(p.step as int)));
    }
}

/// A run comes to each of its steps, and after the last one it saves the weights.
pub proof fn law_every_step_comes(plan: RunPlan, losses: spec_fn(int) -> Real, s: int) -> (n: nat)
    requires
        0 <= s <= plan.total_steps,
    ensures
        run(plan, losses, n).step == s,
        run(plan, losses, n).gathered == 0,
        run(plan, losses, n).phase == plan.entering(s),
    decreases s,
{
    if s == 0 {
        0
    } else {
        let n = law_every_step_comes(plan, losses, s - 1);
        lemma_gathered(plan, losses, n, plan.accumulation as nat);
        lemma_one_step(plan, losses, n + plan.accumulation as nat)
    }
}

/// In each of its steps a run gathers the gradients of all small batches, one after the other, and
/// then makes its update.
pub proof fn law_update_gathers_all(plan: RunPlan, losses: spec_fn(int) -> Real, s: int) -> (n: nat)
    requires
        0 <= s < plan.total_steps,
    ensures
        forall|k: nat|
            k < plan.accumulation ==> (#[trigger] run(plan, losses, n + k)).step == s && run(
                plan,
                losses,
                n + k,
            ).phase == Phase::Accumulate && run(plan, losses, n + k).gathered == k,
        run(plan, losses, n + plan.accumulation as nat).step == s,
        run(plan, losses, n + plan.accumulation as nat).phase == Phase::Update,
{
    let n = law_every_step_comes(plan, losses, s);
    assert forall|k: nat| k < plan.accumulation implies (#[trigger] run(plan, losses, n + k)).step
        == s && run(plan, losses, n + k).phase == Phase::Accumulate && run(
        plan,
        losses,
        n + k,
    ).gathered == k by {
        lemma_gathered(plan, losses, n, k);
    }
    lemma_gathered(plan, losses, n, plan.accumulation as nat);
    n
}

/// A run evaluates the model, and saves its weights, in each of the steps where the intervals
/// say so.
pub proof fn law_intervals_are_kept(plan: RunPlan, losses: spec_fn(int) -> Real, s: int) -> (r: (
    nat,
    nat,
))
    requires
        0 <= s < plan.total_steps,
    ensures
        plan.evaluates_at(s) ==> run(plan, losses, r.0).phase == Phase::Evaluate && run(
            plan,
            losses,
            r.0,
        ).step == s,
        plan.saves_at(s) ==> run(plan, losses, r.1).phase == Phase::SavePeriodic && run(
            plan,
            losses,
            r.1,
        ).step == s,
{
    let n = law_update_gathers_all(plan, losses, s) + plan.accumulation as nat;
    let m = lemma_one_step(plan, losses, n);
    (n + 1, (m - 1) as nat)
}

/// No step is updated twice, and nothing is gathered for a step after its update.
pub proof fn law_steps_only_grow(plan: RunPlan, losses: spec_fn(int) -> Real, m: nat, n: nat)
    requires
        m < n,
    ensures
        run(plan, losses, m).step <= run(plan, losses, n).step,
        run(plan, losses, m).phase == Phase::Update && (run(plan, losses, n).phase == Phase::Update
            || run(plan, losses, n).phase == Phase::Accumulate) ==> run(plan, losses, m).step
            < run(plan, losses, n).step,
    decreases n,
{
    let k = (n - 1) as nat;
    law_run_fits(plan, losses, k);
    law_run_fits(plan, losses, m);
    let p = run(plan, losses, k);
    assert(run(plan, losses, n) == plan.next(p, losses(p.step as int)));
    if m < k {
        law_steps_only_grow(plan, losses, m, k);
    }
}

/// A run evaluates the model in each step after the first that the interval of evaluations
/// divides, and saves its weights in each one that the interval of saves divides, and does
/// neither in any other step.
pub proof fn law_work_of_the_intervals(
    plan: RunPlan,
    losses: spec_fn(int) -> Real,
    s: int,
    n: nat,
) -> (r: (nat, nat))
    requires
        0 < s < plan.total_steps,
    ensures
        s % plan.eval_every as int == 0 ==> run(plan, losses, r.0).step == s && run(
            plan,
            losses,
            r.0,
        ).phase == Phase::Evaluate,
        s % plan.save_every as int == 0 ==> run(plan, losses, r.1).step == s && run(
            plan,
            losses,
            r.1,
        ).phase == Phase::SavePeriodic,
        run(plan, losses, n).phase == Phase::Evaluate || run(plan, losses, n).phase
            == Phase::SaveBest ==> 0 < run(plan, losses, n).step < plan.total_steps && run(
            plan,
            losses,
            n,
        ).step as int % plan.eval_every as int == 0,
        run(plan, losses, n).phase == Phase::SavePeriodic ==> 0 < run(plan, losses, n).step
            < plan.total_steps && run(plan, losses, n).step as int % plan.save_every as int == 0,
        run(plan, losses, n).phase == Phase::SaveFinal ==> run(plan, losses, n).step
            == plan.total_steps,
{
    law_run_fits(plan, losses, n);
    law_intervals_are_kept(plan, losses, s)
}

/// A run begins with its first step and without a loss, comes to the beginning of each step with
/// nothing gathered, and saves its weights at the end and is then finished.
pub proof fn law_run_from_start_to_end(plan: RunPlan, losses: spec_fn(int) -> Real, s: int) -> (n:
    nat)
    requires
        0 <= s <= plan.total_steps,
    ensures
        run(plan, losses, 0).step == 0,
        run(plan, losses, 0).best_eval_loss.bits == 0x7FF0_0000_0000_0000,
        run(plan, losses, n).step == s,
        run(plan, losses, n).gathered == 0,
        s < plan.total_steps && plan.accumulation > 0 ==> run(plan, losses, n).phase
            == Phase::Accumulate,
        s < plan.total_steps && plan.accumulation == 0 ==> run(plan, losses, n).phase
            == Phase::Update,
        s == plan.total_steps ==> run(plan, losses, n).phase == Phase::SaveFinal && run(
            plan,
            losses,
            n + 1,
        ).phase == Phase::Finished && run(plan, losses, n + 1).step == plan.total_steps,
{
    let n = law_every_step_comes(plan, losses, s);
    let p = run(plan, losses, n);
    assert(run(plan, losses, n + 1) == plan.next(p, losses(p.step as int)));
    n
}

/// The weights are saved as the best where an evaluation found a loss below all before it, and
/// only there; nothing but such a loss changes the best one.
pub proof fn law_best_is_saved(plan: RunPlan, p: Progress, loss: Real)
    requires
        plan.fits(p),
    ensures
        plan.next(p, loss).phase == Phase::SaveBest <==> p.phase == Phase::Evaluate && loss.lt(
            p.best_eval_loss,
        ),
        p.phase == Phase::Evaluate && loss.lt(p.best_eval_loss) ==> plan.next(
            p,
            loss,
        ).best_eval_loss == loss && plan.next(p, loss).step == p.step,
        !(p.phase == Phase::Evaluate && loss.lt(p.best_eval_loss)) ==> plan.next(
            p,
            loss,
        ).best_eval_loss == p.best_eval_loss,
{
}

/// A plan can be followed where it has at most one step, or where both intervals are known. The
/// updates that were made are those of the steps that are left, and of this one where its update
/// is done.
pub proof fn law_plans_to_follow(plan: RunPlan, p: Progress)
    ensures
        plan.valid() <==> plan.total_steps <= 1 || (plan.eval_every > 0 && plan.save_every > 0),
        p.phase == Phase::Evaluate || p.phase == Phase::SaveBest || p.phase == Phase::SavePeriodic
            ==> updates_made(p) == p.step + 1,
        !(p.phase == Phase::Evaluate || p.phase == Phase::SaveBest || p.phase
            == Phase::SavePeriodic) ==> updates_made(p) == p.step,
{
}

/// The settings of an algorithm are its own but for the size of a batch, which is that of the
/// training.
pub proof fn law_batch_size_is_set(
    d: DpoConfig,
    w: RwSftConfig,
    q: IlqlConfig,
    batch_size: usize,
)
    ensures
        d.sized(batch_size).batch_size == batch_size,
        d.sized(batch_size).sized(d.batch_size) == d,
        w.sized(batch_size).batch_size == batch_size,
        w.sized(batch_size).sized(w.batch_size) == w,
        q.sized(batch_size).batch_size == batch_size,
        q.sized(batch_size).sized(q.batch_size) == q,
        Algorithm::Dpo(d).label() == "dpo"@,
        Algorithm::RwSft(w).label() == "rw_sft"@,
        Algorithm::Ilql(q).label() == "ilql"@,
{
}

} // verus!
