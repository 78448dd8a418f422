//! The replay buffer: tokenized examples, their preference pairs, and batches drawn from them.
use vstd::prelude::*;

use rand::rngs::StdRng;
use rand::Rng;
use tokenizers::Tokenizer;

use crate::batch::{dpo_batch, ilql_batch, sft_batch, DpoBatch, IlqlBatch, Row, SftBatch, TokenRow};
use crate::double::{Real, ONE_BITS, TENTH_BITS};
use crate::grid::Grid;
use crate::preference::{build_preference_pairs, PreferencePair, TokenizedExample};
use crate::tokenize::{tokenize_text, TokenizeError};
use crate::trajectory::{Dataset, StepData};

verus! {

/// The pattern of minus one.
pub const MINUS_ONE_BITS: u64 = 0xBFF0_0000_0000_0000;

/// The pattern of the double nearest to 0.9.
pub const NINE_TENTHS_BITS: u64 = 0x3FEC_CCCC_CCCC_CCCD;

/// What goes into the buffer, and how it is split.
#[derive(Debug, Clone)]
pub struct DataConfig {
    pub max_prompt_length: usize,
    pub max_response_length: usize,
    /// Steps with a smaller reward are left out.
    pub min_reward: Real,
    /// The share of the examples that is trained on.
    pub train_split: Real,
}

impl Default for DataConfig {
    fn default() -> (r: Self)
        ensures
            r.max_prompt_length == 2048,
            r.max_response_length == 4096,
            r.min_reward.bits == MINUS_ONE_BITS,
            r.train_split.bits == NINE_TENTHS_BITS,
    {
        DataConfig {
            max_prompt_length: 2048,
            max_response_length: 4096,
            min_reward: Real::from_bits(MINUS_ONE_BITS),
            train_split: Real::from_bits(NINE_TENTHS_BITS),
        }
    }
}

pub struct ReplayBuffer {
    pub train_examples: Vec<TokenizedExample>,
    pub eval_examples: Vec<TokenizedExample>,
    pub train_preference_pairs: Vec<PreferencePair>,
    pub eval_preference_pairs: Vec<PreferencePair>,
    /// One weight for each example that is trained on.
    pub reward_weights: Vec<Real>,
    pub config: DataConfig,
}

// ---------------------------------------------------------------------------
// Examples
// ---------------------------------------------------------------------------

/// What an example holds.
pub struct ExampleView {
    pub prompt: Seq<u32>,
    pub response: Seq<u32>,
    pub reward: Real,
    pub trajectory_id: usize,
    pub step_id: usize,
    pub technique: Seq<char>,
}

impl View for TokenizedExample {
    type V = ExampleView;

    open spec fn view(&self) -> ExampleView {
        ExampleView {
            prompt: self.prompt_ids@,
            response: self.response_ids@,
            reward: self.reward,
            trajectory_id: self.trajectory_id,
            step_id: self.step_id,
            technique: self.technique@,
        }
    }
}

pub open spec fn example_views(examples: Seq<TokenizedExample>) -> Seq<ExampleView> {
    examples.map_values(|e: TokenizedExample| e@)
}

/// A step is considered unless its reward is below the smallest one that is wanted.
pub open spec fn considered(step: StepData, min_reward: Real) -> bool {
    !step.reward.lt(min_reward)
}

/// The example that a considered step makes; none where prompt or response has no token.
pub open spec fn example_of(step: StepData, ids: (Seq<u32>, Seq<u32>)) -> Option<ExampleView> {
    if ids.0.len() == 0 || ids.1.len() == 0 {
        None
    } else {
        Some(
            ExampleView {
                prompt: ids.0,
                response: ids.1,
                reward: step.reward,
                trajectory_id: step.trajectory_id,
                step_id: step.step_id,
                technique: step.technique@,
            },
        )
    }
}

/// The examples of some steps, in order, where `ids[i]` are the tokens of step `i`.
pub open spec fn examples_of(
    steps: Seq<StepData>,
    ids: Seq<(Seq<u32>, Seq<u32>)>,
    min_reward: Real,
) -> Seq<ExampleView>
    decreases steps.len(),
{
    if steps.len() == 0 {
        seq![]
    } else {
        let rest = examples_of(steps.drop_last(), ids, min_reward);
        if considered(steps.last(), min_reward) {
            match example_of(steps.last(), ids[steps.len() - 1]) {
                Some(e) => rest.push(e),
                None => rest,
            }
        } else {
            rest
        }
    }
}

/// `ids` are tokens that the tokenizer can give for the prompt and the response of a step,
/// cut to the lengths of the settings.
pub open spec fn step_tokens(
    t: Tokenizer,
    step: StepData,
    config: DataConfig,
    ids: (Seq<u32>, Seq<u32>),
) -> bool {
    &&& crate::tokenize::tokenized(
        t,
        step.prompt_text@,
        config.max_prompt_length as nat,
        Ok(ids.0),
    )
    &&& crate::tokenize::tokenized(
        t,
        step.response_text@,
        config.max_response_length as nat,
        Ok(ids.1),
    )
}

/// The tokenizer can fail on the prompt or the response of a step with this message.
pub open spec fn step_failure(
    t: Tokenizer,
    step: StepData,
    config: DataConfig,
    message: Seq<char>,
) -> bool {
    ||| crate::tokenize::tokenized(
        t,
        step.prompt_text@,
        config.max_prompt_length as nat,
        Err(message),
    )
    ||| crate::tokenize::tokenized(
        t,
        step.response_text@,
        config.max_response_length as nat,
        Err(message),
    )
}

/// An example respects the settings: it has tokens on both sides, none too many, and a reward
/// that is not too small.
pub open spec fn respects(e: ExampleView, config: DataConfig) -> bool {
    &&& 0 < e.prompt.len() <= config.max_prompt_length
    &&& 0 < e.response.len() <= config.max_response_length
    &&& !e.reward.lt(config.min_reward)
}

/// The example that a considered step makes of its tokens.
pub fn make_example(step: &StepData, prompt_ids: Vec<u32>, response_ids: Vec<u32>) -> (r: Option<
    TokenizedExample,
>)
    ensures
        match r {
            Some(e) => example_of(*step, (prompt_ids@, response_ids@)) == Some(e@),
            None => example_of(*step, (prompt_ids@, response_ids@)) is None,
        },
{
    if prompt_ids.len() == 0 || response_ids.len() == 0 {
        return None;
    }
    Some(
        TokenizedExample {
            prompt_ids,
            response_ids,
            reward: step.reward,
            trajectory_id: step.trajectory_id,
            step_id: step.step_id,
            technique: step.technique.clone(),
        },
    )
}

/// The examples of a dataset, in the order of its steps.
pub fn collect_examples(dataset: &Dataset, tokenizer: &Tokenizer, config: &DataConfig) -> (r:
    Result<Vec<TokenizedExample>, TokenizeError>)
    requires
        crate::pipeline::encodes_soundly(*tokenizer),
    ensures
        ({
            let steps = dataset.steps();
            match r {
                Ok(examples) => exists|ids: Seq<(Seq<u32>, Seq<u32>)>|
                    {
                        &&& ids.len() == steps.len()
                        &&& forall|i: int|
                            0 <= i < steps.len() && considered(steps[i], config.min_reward)
                                ==> #[trigger] step_tokens(*tokenizer, steps[i], *config, ids[i])
                        &&& example_views(examples@) == #[trigger] examples_of(
                            steps,
                            ids,
                            config.min_reward,
                        )
                    },
                Err(e) => exists|i: int|
                    0 <= i < steps.len() && considered(#[trigger] steps[i], config.min_reward)
                        && step_failure(*tokenizer, steps[i], *config, e.message@),
            }
        }),
{
    let steps = dataset.all_steps();
    let ghost own = dataset.steps();
    assert(own.len() == steps@.len()) by {
        assert(crate::trajectory::steps_behind(steps@).len() == steps@.len());
    }
    assert forall|k: int| 0 <= k < own.len() implies own[k] == *steps@[k] by {
        assert(crate::trajectory::steps_behind(steps@)[k] == *steps@[k]);
    }
    let mut examples: Vec<TokenizedExample> = Vec::new();
    let ghost mut ids: Seq<(Seq<u32>, Seq<u32>)> = seq![];
    let mut i: usize = 0;
    assert(examples_of(own.take(0), ids, config.min_reward) =~= seq![]);
    assert(example_views(examples@) =~= seq![]);
    while i < steps.len()
        invariant
            crate::pipeline::encodes_soundly(*tokenizer),
            own == dataset.steps(),
            own.len() == steps@.len(),
            forall|k: int| 0 <= k < own.len() ==> own[k] == *steps@[k],
            i <= steps@.len(),
            ids.len() == i,
            forall|k: int|
                0 <= k < i && considered(own[k], config.min_reward) ==> #[trigger] step_tokens(
                    *tokenizer,
                    own[k],
                    *config,
                    ids[k],
                ),
            example_views(examples@) == examples_of(
                own.take(i as int),
                ids,
                config.min_reward,
            ),
        decreases steps@.len() - i,
    {
        let step = steps[i];
        let ghost step_value = own[i as int];
        assert(step_value == *step);
        let ghost had_ids = ids;
        let ghost had = example_views(examples@);
        assert(own.take(i + 1).drop_last() =~= own.take(i as int));
        assert(own.take(i + 1).last() == step_value);
        if step.reward.less_than(&config.min_reward) {
            proof {
                ids = ids.push((seq![], seq![]));
                lemma_examples_of_prefix(own.take(i as int), had_ids, ids, config.min_reward);
                assert forall|k: int|
                    0 <= k < i + 1 && considered(own[k], config.min_reward) implies step_tokens(
                    *tokenizer,
                    own[k],
                    *config,
                    ids[k],
                ) by {
                    assert(step_tokens(*tokenizer, own[k], *config, had_ids[k]));
                }
            }
            i = i + 1;
            continue ;
        }
        let prompt_ids = match tokenize_text(
            tokenizer,
            step.prompt_text.as_str(),
            config.max_prompt_length,
        ) {
            Ok(v) => v,
            Err(e) => {
                assert(step_failure(*tokenizer, own[i as int], *config, e.message@));
                return Err(e);
            },
        };
        let response_ids = match tokenize_text(
            tokenizer,
            step.response_text.as_str(),
            config.max_response_length,
        ) {
            Ok(v) => v,
            Err(e) => {
                assert(step_failure(*tokenizer, own[i as int], *config, e.message@));
                return Err(e);
            },
        };
        let ghost pair = (prompt_ids@, response_ids@);
        assert(step_tokens(*tokenizer, step_value, *config, pair));
        proof {
            ids = ids.push(pair);
            lemma_examples_of_prefix(own.take(i as int), had_ids, ids, config.min_reward);
            assert forall|k: int|
                0 <= k < i + 1 && considered(own[k], config.min_reward) implies step_tokens(
                *tokenizer,
                own[k],
                *config,
                ids[k],
            ) by {
                if k < i {
                    assert(step_tokens(*tokenizer, own[k], *config, had_ids[k]));
                }
            }
        }
        if let Some(e) = make_example(step, prompt_ids, response_ids) {
            let ghost value = e@;
            examples.push(e);
            assert(example_views(examples@) =~= had.push(value));
        }
        i = i + 1;
    }
    assert(own.take(own.len() as int) =~= own);
    Ok(examples)
}

/// The examples of some steps depend on the tokens of those steps alone.
proof fn lemma_examples_of_prefix(
    steps: Seq<StepData>,
    a: Seq<(Seq<u32>, Seq<u32>)>,
    b: Seq<(Seq<u32>, Seq<u32>)>,
    min_reward: Real,
)
    requires
        forall|k: int| 0 <= k < steps.len() ==> #[trigger] a[k] == b[k],
    ensures
        examples_of(steps, a, min_reward) == examples_of(steps, b, min_reward),
    decreases steps.len(),
{
    if steps.len() > 0 {
        assert(a[steps.len() - 1] == b[steps.len() - 1]);
        lemma_examples_of_prefix(steps.drop_last(), a, b, min_reward);
    }
}

/// Every example that is collected respects the settings.
pub proof fn law_examples_respect_settings(
    t: Tokenizer,
    steps: Seq<StepData>,
    ids: Seq<(Seq<u32>, Seq<u32>)>,
    config: DataConfig,
)
    requires
        ids.len() >= steps.len(),
        forall|i: int|
            0 <= i < steps.len() && considered(steps[i], config.min_reward)
                ==> #[trigger] step_tokens(t, steps[i], config, ids[i]),
    ensures
        forall|k: int|
            0 <= k < examples_of(steps, ids, config.min_reward).len() ==> respects(
                #[trigger] examples_of(steps, ids, config.min_reward)[k],
                config,
            ),
    decreases steps.len(),
{
    if steps.len() > 0 {
        let rest = steps.drop_last();
        assert forall|i: int|
            0 <= i < rest.len() && considered(rest[i], config.min_reward) implies step_tokens(
            t,
            rest[i],
            config,
            ids[i],
        ) by {
            assert(step_tokens(t, steps[i], config, ids[i]));
        }
        law_examples_respect_settings(t, rest, ids, config);
        let last = steps.len() - 1;
        let all = examples_of(steps, ids, config.min_reward);
        let some = examples_of(rest, ids, config.min_reward);
        if considered(steps[last], config.min_reward) {
            assert(step_tokens(t, steps[last], config, ids[last]));
        }
        assert forall|k: int| 0 <= k < all.len() implies respects(#[trigger] all[k], config) by {
            if k < some.len() {
                assert(respects(some[k], config));
            }
        }
    }
}

// ---------------------------------------------------------------------------
// The buffer
// ---------------------------------------------------------------------------

/// The distance of rewards that makes a pair.
pub open spec fn pair_margin() -> Real {
    Real { bits: TENTH_BITS }
}

pub open spec fn row_of(e: TokenizedExample) -> Row {
    Row { prompt: e.prompt_ids@, response: e.response_ids@ }
}

pub open spec fn chosen_row(p: PreferencePair) -> Row {
    Row { prompt: p.chosen_prompt_ids@, response: p.chosen_response_ids@ }
}

pub open spec fn rejected_row(p: PreferencePair) -> Row {
    Row { prompt: p.rejected_prompt_ids@, response: p.rejected_response_ids@ }
}

/// The rows of the examples at some indices.
pub open spec fn rows_at(examples: Seq<TokenizedExample>, indices: Seq<usize>) -> Seq<Row> {
    indices.map_values(|i: usize| row_of(examples[i as int]))
}

pub open spec fn chosen_rows_at(pairs: Seq<PreferencePair>, indices: Seq<usize>) -> Seq<Row> {
    indices.map_values(|i: usize| chosen_row(pairs[i as int]))
}

pub open spec fn rejected_rows_at(pairs: Seq<PreferencePair>, indices: Seq<usize>) -> Seq<Row> {
    indices.map_values(|i: usize| rejected_row(pairs[i as int]))
}

/// The numbers at some indices.
pub open spec fn numbers_at(numbers: Seq<Real>, indices: Seq<usize>) -> Seq<Real> {
    indices.map_values(|i: usize| numbers[i as int])
}

/// `indices` are `count` indices below `len`.
pub open spec fn drawn(indices: Seq<usize>, count: nat, len: nat) -> bool {
    &&& indices.len() == count
    &&& forall|k: int| 0 <= k < indices.len() ==> #[trigger] indices[k] < len
}

/// A batch of `count` rows of this length can be stored.
pub open spec fn roomy(row: Row, count: nat) -> bool {
    row.total() <= usize::MAX && count * row.total() <= usize::MAX
}

/// A batch of `count` rows of the length of any of some examples can be stored.
pub open spec fn all_roomy(examples: Seq<TokenizedExample>, count: nat) -> bool {
    forall|k: int| 0 <= k < examples.len() ==> roomy(row_of(#[trigger] examples[k]), count)
}

fn have_room(examples: &Vec<TokenizedExample>, batch_size: usize) -> (r: bool)
    ensures
        r == all_roomy(examples@, batch_size as nat),
{
    let mut i: usize = 0;
    while i < examples.len()
        invariant
            i <= examples@.len(),
            forall|k: int|
                0 <= k < i ==> roomy(row_of(#[trigger] examples@[k]), batch_size as nat),
        decreases examples@.len() - i,
    {
        let example = &examples[i];
        let total: usize = match example.prompt_ids.len().checked_add(example.response_ids.len()) {
            Some(n) => n,
            None => {
                assert(!roomy(row_of(examples@[i as int]), batch_size as nat));
                return false;
            },
        };
        if batch_size.checked_mul(total).is_none() {
            assert(!roomy(row_of(examples@[i as int]), batch_size as nat));
            return false;
        }
        i = i + 1;
    }
    true
}

impl ReplayBuffer {
    /// Each example that is trained on has a weight, and the pairs carry what the examples
    /// hold.
    pub open spec fn well_formed(self) -> bool {
        &&& self.reward_weights@.len() == self.train_examples@.len()
        &&& forall|k: int|
            0 <= k < self.train_preference_pairs@.len() ==> crate::preference::copies(
                #[trigger] self.train_preference_pairs@[k],
                self.train_examples@,
            )
        &&& forall|k: int|
            0 <= k < self.eval_preference_pairs@.len() ==> crate::preference::copies(
                #[trigger] self.eval_preference_pairs@[k],
                self.eval_examples@,
            )
    }

    /// Batches of `count` rows can be stored, whichever examples are drawn.
    pub open spec fn roomy_for(self, count: nat) -> bool {
        all_roomy(self.train_examples@, count)
    }

    /// Each example that is held back fits into a batch of its own.
    pub open spec fn roomy_for_evaluation(self) -> bool {
        all_roomy(self.eval_examples@, 1)
    }

    /// Whether batches of `batch_size` rows can be stored, whichever examples are drawn.
    pub fn has_room_for(&self, batch_size: usize) -> (r: bool)
        ensures
            r == self.roomy_for(batch_size as nat),
    {
        have_room(&self.train_examples, batch_size)
    }

    /// Whether each example that is held back fits into a batch of its own.
    pub fn has_room_for_evaluation(&self) -> (r: bool)
        ensures
            r == self.roomy_for_evaluation(),
    {
        have_room(&self.eval_examples, 1)
    }

    /// The buffer of some examples. The first `split_idx` are trained on, the others are kept
    /// for evaluation. `train_gaps` and `eval_gaps` hold the distances between the rewards of
    /// the two parts, `reward_weights` the weights of the first.
    pub fn new(
        examples: Vec<TokenizedExample>,
        split_idx: usize,
        train_gaps: &Grid<Real>,
        eval_gaps: &Grid<Real>,
        reward_weights: Vec<Real>,
        config: DataConfig,
    ) -> (r: ReplayBuffer)
        requires
            split_idx <= examples@.len(),
            crate::preference::fits(*train_gaps, split_idx as nat),
            crate::preference::fits(*eval_gaps, (examples@.len() - split_idx) as nat),
            reward_weights@.len() == split_idx,
        ensures
            r.well_formed(),
            r.train_examples@ == examples@.take(split_idx as int),
            r.eval_examples@ == examples@.skip(split_idx as int),
            crate::preference::is_pairing(
                r.train_preference_pairs@,
                r.train_examples@,
                *train_gaps,
                pair_margin(),
            ),
            crate::preference::is_pairing(
                r.eval_preference_pairs@,
                r.eval_examples@,
                *eval_gaps,
                pair_margin(),
            ),
            crate::preference::share_technique(r.train_preference_pairs@, r.train_examples@),
            crate::preference::share_technique(r.eval_preference_pairs@, r.eval_examples@),
            r.reward_weights == reward_weights,
            r.config == config,
    {
        let mut train_examples = examples;
        let eval_examples = train_examples.split_off(split_idx);
        assert(train_examples@ =~= examples@.take(split_idx as int));
        assert(eval_examples@ =~= examples@.skip(split_idx as int));
        let margin = Real::from_bits(TENTH_BITS);
        let train_preference_pairs = build_preference_pairs(&train_examples, train_gaps, margin);
        let eval_preference_pairs = build_preference_pairs(&eval_examples, eval_gaps, margin);
        ReplayBuffer {
            train_examples,
            eval_examples,
            train_preference_pairs,
            eval_preference_pairs,
            reward_weights,
            config,
        }
    }

    pub fn train_len(&self) -> (n: usize)
        ensures
            n == self.train_examples@.len(),
    {
        self.train_examples.len()
    }

    pub fn eval_len(&self) -> (n: usize)
        ensures
            n == self.eval_examples@.len(),
    {
        self.eval_examples.len()
    }

    pub fn preference_pairs_len(&self) -> (n: usize)
        ensures
            n == self.train_preference_pairs@.len(),
    {
        self.train_preference_pairs.len()
    }

    /// The supervised batch of the examples at some indices; all rows weigh the same.
    pub fn build_sft_batch(&self, indices: &Vec<usize>) -> (batch: SftBatch)
        requires
            drawn(indices@, indices@.len(), self.train_examples@.len()),
            crate::batch::storable(rows_at(self.train_examples@, indices@)),
        ensures
            crate::batch::is_sft_batch(
                batch,
                rows_at(self.train_examples@, indices@),
                Seq::new(indices@.len(), |k: int| crate::batch::one()),
            ),
    {
        let rows = example_rows(&self.train_examples, indices);
        let mut weights: Vec<Real> = Vec::new();
        let mut i: usize = 0;
        while i < indices.len()
            invariant
                i <= indices@.len(),
                weights@ == Seq::new(i as nat, |k: int| crate::batch::one()),
            decreases indices@.len() - i,
        {
            weights.push(Real::from_bits(ONE_BITS));
            assert(weights@ =~= Seq::new((i + 1) as nat, |k: int| crate::batch::one()));
            i = i + 1;
        }
        sft_batch(&rows, weights)
    }

    /// The supervised batch of the examples at some indices, each with its own weight.
    pub fn build_weighted_sft_batch(&self, indices: &Vec<usize>) -> (batch: SftBatch)
        requires
            self.well_formed(),
            drawn(indices@, indices@.len(), self.train_examples@.len()),
            crate::batch::storable(rows_at(self.train_examples@, indices@)),
        ensures
            crate::batch::is_sft_batch(
                batch,
                rows_at(self.train_examples@, indices@),
                numbers_at(self.reward_weights@, indices@),
            ),
    {
        let rows = example_rows(&self.train_examples, indices);
        let weights = pick_numbers(&self.reward_weights, indices);
        sft_batch(&rows, weights)
    }

    /// A supervised batch of examples drawn at random.
    pub fn sample_sft_batch(&self, batch_size: usize, rng: &mut StdRng) -> (batch: SftBatch)
        requires
            self.train_examples@.len() > 0 || batch_size == 0,
            self.roomy_for(batch_size as nat),
        ensures
            exists|indices: Seq<usize>|
                {
                    &&& #[trigger] drawn(indices, batch_size as nat, self.train_examples@.len())
                    &&& crate::batch::is_sft_batch(
                        batch,
                        rows_at(self.train_examples@, indices),
                        Seq::new(batch_size as nat, |k: int| crate::batch::one()),
                    )
                },
    {
        let indices = draw_indices(batch_size, self.train_examples.len(), rng);
        proof {
            lemma_drawn_storable(self.train_examples@, indices@);
        }
        self.build_sft_batch(&indices)
    }

    /// A supervised batch of examples drawn at random, each weighted by its reward.
    pub fn sample_weighted_sft_batch(&self, batch_size: usize, rng: &mut StdRng) -> (batch:
        SftBatch)
        requires
            self.well_formed(),
            self.train_examples@.len() > 0 || batch_size == 0,
            self.roomy_for(batch_size as nat),
        ensures
            exists|indices: Seq<usize>|
                {
                    &&& #[trigger] drawn(indices, batch_size as nat, self.train_examples@.len())
                    &&& crate::batch::is_sft_batch(
                        batch,
                        rows_at(self.train_examples@, indices),
                        numbers_at(self.reward_weights@, indices),
                    )
                },
    {
        let indices = draw_indices(batch_size, self.train_examples.len(), rng);
        proof {
            lemma_drawn_storable(self.train_examples@, indices@);
        }
        self.build_weighted_sft_batch(&indices)
    }

    /// A batch of preference pairs drawn at random. There is none without pairs.
    pub fn sample_dpo_batch(&self, batch_size: usize, rng: &mut StdRng) -> (r: Result<
        DpoBatch,
        String,
    >)
        requires
            self.well_formed(),
            self.roomy_for(batch_size as nat),
        ensures
            match r {
                Ok(batch) => self.train_preference_pairs@.len() > 0 && exists|indices: Seq<usize>|
                    {
                        &&& #[trigger] drawn(
                            indices,
                            batch_size as nat,
                            self.train_preference_pairs@.len(),
                        )
                        &&& crate::batch::is_dpo_batch(
                            batch,
                            chosen_rows_at(self.train_preference_pairs@, indices),
                            rejected_rows_at(self.train_preference_pairs@, indices),
                        )
                    },
                Err(message) => self.train_preference_pairs@.len() == 0 && message@
                    == "no preference pairs available"@,
            },
    {
        if self.train_preference_pairs.len() == 0 {
            return Err("no preference pairs available".to_owned());
        }
        let indices = draw_indices(batch_size, self.train_preference_pairs.len(), rng);
        proof {
            let pairs = self.train_preference_pairs@;
            let chosen = chosen_rows_at(pairs, indices@);
            let rejected = rejected_rows_at(pairs, indices@);
            assert forall|k: int| 0 <= k < indices@.len() implies roomy(
                #[trigger] chosen[k],
                batch_size as nat,
            ) by {
                let p = pairs[indices@[k] as int];
                let e = self.train_examples@[p.chosen_idx as int];
                assert(roomy(row_of(e), batch_size as nat));
                assert(chosen[k] =~= row_of(e));
            }
            assert forall|k: int| 0 <= k < indices@.len() implies roomy(
                #[trigger] rejected[k],
                batch_size as nat,
            ) by {
                let p = pairs[indices@[k] as int];
                let e = self.train_examples@[p.rejected_idx as int];
                assert(roomy(row_of(e), batch_size as nat));
                assert(rejected[k] =~= row_of(e));
            }
            lemma_roomy_storable(chosen);
            lemma_roomy_storable(rejected);
        }
        Ok(build_dpo_batch(&self.train_preference_pairs, &indices))
    }

    /// A Q-learning batch of examples drawn at random.
    pub fn sample_ilql_batch(&self, batch_size: usize, rng: &mut StdRng) -> (batch: IlqlBatch)
        requires
            self.train_examples@.len() > 0 || batch_size == 0,
            self.roomy_for(batch_size as nat),
        ensures
            exists|indices: Seq<usize>|
                {
                    &&& #[trigger] drawn(indices, batch_size as nat, self.train_examples@.len())
                    &&& crate::batch::is_ilql_batch(
                        batch,
                        rows_at(self.train_examples@, indices),
                        numbers_at(
                            crate::preference::example_rewards(self.train_examples@),
                            indices,
                        ),
                    )
                },
    {
        let indices = draw_indices(batch_size, self.train_examples.len(), rng);
        proof {
            lemma_drawn_storable(self.train_examples@, indices@);
        }
        build_ilql_batch(&self.train_examples, &indices)
    }
}

// ---------------------------------------------------------------------------
// Drawing
// ---------------------------------------------------------------------------

/// The random number generator of the `rand` crate, carried through as it is.
#[verifier::external_type_specification]
#[verifier::external_body]
pub struct ExStdRng(rand::rngs::StdRng);

/// `Rng::random_range` on the range from 0 up to `n`, `n` itself not included. The range must
/// not be empty. Which number comes is left to chance.
#[verifier::external_body]
fn random_below(rng: &mut StdRng, n: usize) -> (r: usize)
    requires
        n > 0,
    ensures
        r < n,
{
    rng.random_range(0..n)
}

/// `count` indices below `len`, drawn at random and independently.
fn draw_indices(count: usize, len: usize, rng: &mut StdRng) -> (r: Vec<usize>)
    requires
        len > 0 || count == 0,
    ensures
        drawn(r@, count as nat, len as nat),
{
    let mut r: Vec<usize> = Vec::new();
    let mut i: usize = 0;
    while i < count
        invariant
            len > 0 || count == 0,
            i <= count,
            drawn(r@, i as nat, len as nat),
        decreases count - i,
    {
        let index: usize = random_below(rng, len);
        r.push(index);
        i = i + 1;
    }
    r
}

/// Rows that each leave room for all of them make a batch that can be stored.
pub proof fn lemma_roomy_storable(rows: Seq<Row>)
    requires
        forall|k: int| 0 <= k < rows.len() ==> roomy(#[trigger] rows[k], rows.len()),
    ensures
        crate::batch::storable(rows),
{
    crate::batch::law_longest_is_bound(rows);
    if rows.len() > 0 {
        let k = choose|k: int|
            0 <= k < rows.len() && (#[trigger] rows[k]).total() == crate::batch::longest(rows);
        assert(roomy(rows[k], rows.len()));
    } else {
        assert(rows.len() * crate::batch::width(rows) == 0) by (nonlinear_arith)
            requires
                rows.len() == 0,
        ;
    }
}

proof fn lemma_drawn_storable(examples: Seq<TokenizedExample>, indices: Seq<usize>)
    requires
        drawn(indices, indices.len(), examples.len()),
        forall|k: int|
            0 <= k < examples.len() ==> roomy(row_of(#[trigger] examples[k]), indices.len()),
    ensures
        crate::batch::storable(rows_at(examples, indices)),
{
    let rows = rows_at(examples, indices);
    assert forall|k: int| 0 <= k < rows.len() implies roomy(#[trigger] rows[k], rows.len()) by {
        assert(roomy(row_of(examples[indices[k] as int]), indices.len()));
    }
    lemma_roomy_storable(rows);
}

fn example_rows<'a>(examples: &'a Vec<TokenizedExample>, indices: &Vec<usize>) -> (r: Vec<
    TokenRow<'a>,
>)
    requires
        drawn(indices@, indices@.len(), examples@.len()),
    ensures
        crate::batch::row_views(r@) == rows_at(examples@, indices@),
{
    let mut r: Vec<TokenRow<'a>> = Vec::new();
    let mut i: usize = 0;
    while i < indices.len()
        invariant
            drawn(indices@, indices@.len(), examples@.len()),
            i <= indices@.len(),
            r@.len() == i,
            forall|k: int|
                0 <= k < i ==> (#[trigger] r@[k])@ == row_of(examples@[indices@[k] as int]),
        decreases indices@.len() - i,
    {
        let e = &examples[indices[i]];
        r.push(TokenRow { prompt: &e.prompt_ids, response: &e.response_ids });
        i = i + 1;
    }
    assert(crate::batch::row_views(r@) =~= rows_at(examples@, indices@));
    r
}

fn pick_numbers(numbers: &Vec<Real>, indices: &Vec<usize>) -> (r: Vec<Real>)
    requires
        drawn(indices@, indices@.len(), numbers@.len()),
    ensures
        r@ == numbers_at(numbers@, indices@),
{
    let mut r: Vec<Real> = Vec::new();
    let mut i: usize = 0;
    while i < indices.len()
        invariant
            drawn(indices@, indices@.len(), numbers@.len()),
            i <= indices@.len(),
            r@.len() == i,
            forall|k: int| 0 <= k < i ==> #[trigger] r@[k] == numbers@[indices@[k] as int],
        decreases indices@.len() - i,
    {
        r.push(numbers[indices[i]]);
        i = i + 1;
    }
    assert(r@ =~= numbers_at(numbers@, indices@));
    r
}

/// The batch of the preference pairs at some indices.
pub fn build_dpo_batch(pairs: &Vec<PreferencePair>, indices: &Vec<usize>) -> (batch: DpoBatch)
    requires
        drawn(indices@, indices@.len(), pairs@.len()),
        crate::batch::storable(chosen_rows_at(pairs@, indices@)),
        crate::batch::storable(rejected_rows_at(pairs@, indices@)),
    ensures
        crate::batch::is_dpo_batch(
            batch,
            chosen_rows_at(pairs@, indices@),
            rejected_rows_at(pairs@, indices@),
        ),
{
    let mut chosen: Vec<TokenRow> = Vec::new();
    let mut rejected: Vec<TokenRow> = Vec::new();
    let mut i: usize = 0;
    while i < indices.len()
        invariant
            drawn(indices@, indices@.len(), pairs@.len()),
            i <= indices@.len(),
            chosen@.len() == i,
            rejected@.len() == i,
            forall|k: int|
                0 <= k < i ==> (#[trigger] chosen@[k])@ == chosen_row(pairs@[indices@[k] as int]),
            forall|k: int|
                0 <= k < i ==> (#[trigger] rejected@[k])@ == rejected_row(
                    pairs@[indices@[k] as int],
                ),
        decreases indices@.len() - i,
    {
        let p = &pairs[indices[i]];
        chosen.push(TokenRow { prompt: &p.chosen_prompt_ids, response: &p.chosen_response_ids });
        rejected.push(
            TokenRow { prompt: &p.rejected_prompt_ids, response: &p.rejected_response_ids },
        );
        i = i + 1;
    }
    assert(crate::batch::row_views(chosen@) =~= chosen_rows_at(pairs@, indices@));
    assert(crate::batch::row_views(rejected@) =~= rejected_rows_at(pairs@, indices@));
    dpo_batch(&chosen, &rejected)
}

/// The Q-learning batch of the examples at some indices.
pub fn build_ilql_batch(examples: &Vec<TokenizedExample>, indices: &Vec<usize>) -> (batch:
    IlqlBatch)
    requires
        drawn(indices@, indices@.len(), examples@.len()),
        crate::batch::storable(rows_at(examples@, indices@)),
    ensures
        crate::batch::is_ilql_batch(
            batch,
            rows_at(examples@, indices@),
            numbers_at(crate::preference::example_rewards(examples@), indices@),
        ),
{
    let rows = example_rows(examples, indices);
    let mut rewards: Vec<Real> = Vec::new();
    let mut i: usize = 0;
    while i < indices.len()
        invariant
            drawn(indices@, indices@.len(), examples@.len()),
            i <= indices@.len(),
            rewards@.len() == i,
            forall|k: int|
                0 <= k < i ==> #[trigger] rewards@[k] == examples@[indices@[k] as int].reward,
        decreases indices@.len() - i,
    {
        rewards.push(examples[indices[i]].reward);
        i = i + 1;
    }
    assert(rewards@ =~= numbers_at(
        crate::preference::example_rewards(examples@),
        indices@,
    ));
    assert(rows@.len() == indices@.len()) by {
        assert(crate::batch::row_views(rows@).len() == rows@.len());
    }
    ilql_batch(&rows, &rewards)
}

/// Splitting loses no example and keeps the order.
pub proof fn law_split_keeps_examples(examples: Seq<TokenizedExample>, split_idx: int)
    requires
        0 <= split_idx <= examples.len(),
    ensures
        examples.take(split_idx) + examples.skip(split_idx) == examples,
{
    assert(examples.take(split_idx) + examples.skip(split_idx) =~= examples);
}

/// Every step whose reward is not below the smallest one that is wanted, and whose prompt and
/// response have tokens, becomes an example with its tokens, reward, numbers and technique, and
/// no other step does. The examples stand in the order of the steps: `places` are the places of
/// all such steps, in order.
pub proof fn law_every_wanted_step_is_an_example(
    steps: Seq<StepData>,
    ids: Seq<(Seq<u32>, Seq<u32>)>,
    min_reward: Real,
) -> (places: Seq<int>)
    ensures
        places.len() == examples_of(steps, ids, min_reward).len(),
        forall|k: int, m: int|
            0 <= k < m < places.len() ==> #[trigger] places[k] < #[trigger] places[m],
        forall|k: int|
            0 <= k < places.len() ==> 0 <= #[trigger] places[k] < steps.len() && {
                let e = examples_of(steps, ids, min_reward)[k];
                let step = steps[places[k]];
                &&& !step.reward.lt(min_reward)
                &&& ids[places[k]].0.len() > 0 && ids[places[k]].1.len() > 0
                &&& e.prompt == ids[places[k]].0
                &&& e.response == ids[places[k]].1
                &&& e.reward == step.reward
                &&& e.trajectory_id == step.trajectory_id
                &&& e.step_id == step.step_id
                &&& e.technique == step.technique@
            },
        forall|i: int|
            0 <= i < steps.len() && !(#[trigger] steps[i]).reward.lt(min_reward) && ids[i].0.len()
                > 0 && ids[i].1.len() > 0 ==> places.contains(i),
    decreases steps.len(),
{
    if steps.len() == 0 {
        seq![]
    } else {
        let rest = steps.drop_last();
        let had = law_every_wanted_step_is_an_example(rest, ids, min_reward);
        let last = steps.len() - 1;
        let some = examples_of(rest, ids, min_reward);
        let all = examples_of(steps, ids, min_reward);
        let places = if !steps[last].reward.lt(min_reward) && ids[last].0.len() > 0
            && ids[last].1.len() > 0 {
            had.push(last)
        } else {
            had
        };
        assert forall|k: int| 0 <= k < places.len() implies 0 <= #[trigger] places[k]
            < steps.len() && {
            let e = all[k];
            let step = steps[places[k]];
            &&& !step.reward.lt(min_reward)
            &&& ids[places[k]].0.len() > 0 && ids[places[k]].1.len() > 0
            &&& e.prompt == ids[places[k]].0
            &&& e.response == ids[places[k]].1
            &&& e.reward == step.reward
            &&& e.trajectory_id == step.trajectory_id
            &&& e.step_id == step.step_id
            &&& e.technique == step.technique@
        } by {
            if k < had.len() {
                assert(places[k] == had[k]);
                assert(rest[had[k]] == steps[had[k]]);
                assert(all[k] == some[k]);
            }
        }
        assert forall|i: int|
            0 <= i < steps.len() && !(#[trigger] steps[i]).reward.lt(min_reward) && ids[i].0.len()
                > 0 && ids[i].1.len() > 0 implies places.contains(i) by {
            if i < last {
                assert(rest[i] == steps[i]);
                assert(had.contains(i));
                let k = choose|k: int| 0 <= k < had.len() && had[k] == i;
                assert(places[k] == i);
            } else {
                assert(places[had.len() as int] == i);
            }
        }
        places
    }
}

/// A step is considered, and its texts are tokenized, unless its reward is below the smallest one
/// that is wanted; nothing else about it matters.
pub proof fn law_reward_alone_decides(a: StepData, b: StepData, min_reward: Real)
    ensures
        considered(a, min_reward) == !a.reward.lt(min_reward),
        a.reward == b.reward ==> considered(a, min_reward) == considered(b, min_reward),
{
}

/// The tokens of a step are the last ones of what the tokenizer makes of its prompt and of its
/// response, as many as each may have: `r` is what the tokenizer made of them.
pub proof fn law_tokens_of_a_step(
    t: Tokenizer,
    step: StepData,
    config: DataConfig,
    ids: (Seq<u32>, Seq<u32>),
) -> (r: (Seq<u32>, Seq<u32>))
    requires
        step_tokens(t, step, config, ids),
    ensures
        crate::tokenize::encodings(t, step.prompt_text@).contains(Ok(r.0)),
        crate::tokenize::encodings(t, step.response_text@).contains(Ok(r.1)),
        r.0.len() <= config.max_prompt_length ==> ids.0 == r.0,
        r.0.len() > config.max_prompt_length ==> ids.0 == r.0.skip(
            r.0.len() - config.max_prompt_length,
        ),
        r.1.len() <= config.max_response_length ==> ids.1 == r.1,
        r.1.len() > config.max_response_length ==> ids.1 == r.1.skip(
            r.1.len() - config.max_response_length,
        ),
{
    let a = choose|raw: Seq<u32>|
        #[trigger] crate::tokenize::encodings(t, step.prompt_text@).contains(Ok(raw)) && ids.0
            == crate::tokenize::kept_tail(raw, config.max_prompt_length as nat);
    let b = choose|raw: Seq<u32>|
        #[trigger] crate::tokenize::encodings(t, step.response_text@).contains(Ok(raw)) && ids.1
            == crate::tokenize::kept_tail(raw, config.max_response_length as nat);
    (a, b)
}

/// Examples are not collected only where the tokenizer fails on the prompt or the response of a
/// step: `r` is what it says.
pub proof fn law_failure_of_a_step(
    t: Tokenizer,
    step: StepData,
    config: DataConfig,
    message: Seq<char>,
) -> (r: Seq<char>)
    requires
        step_failure(t, step, config, message),
    ensures
        message == "tokenization error: "@ + r,
        crate::tokenize::encodings(t, step.prompt_text@).contains(Err(r))
            || crate::tokenize::encodings(t, step.response_text@).contains(Err(r)),
{
    if crate::tokenize::tokenized(
        t,
        step.prompt_text@,
        config.max_prompt_length as nat,
        Err(message),
    ) {
        choose|raw: Seq<char>|
            #[trigger] crate::tokenize::encodings(t, step.prompt_text@).contains(Err(raw))
                && message == "tokenization error: "@ + raw
    } else {
        choose|raw: Seq<char>|
            #[trigger] crate::tokenize::encodings(t, step.response_text@).contains(Err(raw))
                && message == "tokenization error: "@ + raw
    }
}

/// The examples that were collected are the views of the examples that are kept, one by one.
pub proof fn law_example_views(examples: Seq<TokenizedExample>, k: int)
    requires
        0 <= k < examples.len(),
    ensures
        example_views(examples).len() == examples.len(),
        example_views(examples)[k].prompt == examples[k].prompt_ids@,
        example_views(examples)[k].response == examples[k].response_ids@,
        example_views(examples)[k].reward == examples[k].reward,
        example_views(examples)[k].trajectory_id == examples[k].trajectory_id,
        example_views(examples)[k].step_id == examples[k].step_id,
        example_views(examples)[k].technique == examples[k].technique@,
{
}

/// The rows of a batch are the examples, or the two sides of the pairs, that were drawn, with
/// their own weights or rewards.
pub proof fn law_rows_that_were_drawn(
    examples: Seq<TokenizedExample>,
    pairs: Seq<PreferencePair>,
    numbers: Seq<Real>,
    indices: Seq<usize>,
    k: int,
)
    requires
        0 <= k < indices.len(),
    ensures
        rows_at(examples, indices).len() == indices.len(),
        rows_at(examples, indices)[k].prompt == examples[indices[k] as int].prompt_ids@,
        rows_at(examples, indices)[k].response == examples[indices[k] as int].response_ids@,
        chosen_rows_at(pairs, indices).len() == indices.len(),
        chosen_rows_at(pairs, indices)[k].prompt == pairs[indices[k] as int].chosen_prompt_ids@,
        chosen_rows_at(pairs, indices)[k].response == pairs[indices[k] as int].chosen_response_ids@,
        rejected_rows_at(pairs, indices).len() == indices.len(),
        rejected_rows_at(pairs, indices)[k].prompt == pairs[indices[k] as int].rejected_prompt_ids@,
        rejected_rows_at(pairs, indices)[k].response
            == pairs[indices[k] as int].rejected_response_ids@,
        numbers_at(numbers, indices).len() == indices.len(),
        numbers_at(numbers, indices)[k] == numbers[indices[k] as int],
        indices[k] < examples.len() ==> numbers_at(
            crate::preference::example_rewards(examples),
            indices,
        )[k] == examples[indices[k] as int].reward,
{
}

/// As many are drawn as were asked for, each of them one that is there.
pub proof fn law_drawn(indices: Seq<usize>, count: nat, len: nat)
    ensures
        drawn(indices, count, len) <==> indices.len() == count && forall|k: int|
            0 <= k < count ==> #[trigger] indices[k] < len,
{
}

/// There is room for a batch where no example is too long to be held as often as the batch is
/// large.
pub proof fn law_room(b: ReplayBuffer, count: nat)
    ensures
        b.roomy_for(count) <==> forall|k: int|
            0 <= k < b.train_examples@.len() ==> {
                let e = #[trigger] b.train_examples@[k];
                &&& e.prompt_ids@.len() + e.response_ids@.len() <= usize::MAX
                &&& count * (e.prompt_ids@.len() + e.response_ids@.len()) <= usize::MAX
            },
        b.roomy_for_evaluation() <==> forall|k: int|
            0 <= k < b.eval_examples@.len() ==> (#[trigger] b.eval_examples@[k]).prompt_ids@.len()
                + b.eval_examples@[k].response_ids@.len() <= usize::MAX,
        pair_margin().bits == 0x3FB9_9999_9999_999A,
{
    if b.roomy_for(count) {
        assert forall|k: int| 0 <= k < b.train_examples@.len() implies {
            let e = #[trigger] b.train_examples@[k];
            &&& e.prompt_ids@.len() + e.response_ids@.len() <= usize::MAX
            &&& count * (e.prompt_ids@.len() + e.response_ids@.len()) <= usize::MAX
        } by {
            assert(roomy(row_of(b.train_examples@[k]), count));
        }
    }
    if b.roomy_for_evaluation() {
        assert forall|k: int| 0 <= k < b.eval_examples@.len() implies (
        #[trigger] b.eval_examples@[k]).prompt_ids@.len() + b.eval_examples@[k].response_ids@.len()
            <= usize::MAX by {
            assert(roomy(row_of(b.eval_examples@[k]), 1));
        }
    }
}

} // verus!
