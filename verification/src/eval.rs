//! How a model is evaluated on the buffer.
use vstd::prelude::*;

use crate::batch::{
    is_sft_batch, law_sft_batch_unique, one, row_views, same_sft_batch, sft_batch, SftBatch,
    TokenRow,
};
use crate::double::{Real, ONE_BITS};
use crate::preference::TokenizedExample;
use crate::replay_buffer::{lemma_roomy_storable, roomy, row_of, ReplayBuffer};

verus! {

#[derive(Debug, Clone)]
pub struct EvalMetrics {
    pub eval_loss: Real,
    pub perplexity: Real,
    pub num_examples: usize,
}

/// One batch for each example, in order, that holds the example alone and unweighted.
pub open spec fn is_evaluation(batches: Seq<SftBatch>, examples: Seq<TokenizedExample>) -> bool {
    &&& batches.len() == examples.len()
    &&& forall|i: int|
        0 <= i < batches.len() ==> is_sft_batch(
            #[trigger] batches[i],
            seq![row_of(examples[i])],
            seq![one()],
        )
}

/// The batches that an evaluation looks at: all examples that are held back, one at a time.
pub fn evaluation_batches(buffer: &ReplayBuffer) -> (r: Vec<SftBatch>)
    requires
        buffer.roomy_for_evaluation(),
    ensures
        is_evaluation(r@, buffer.eval_examples@),
{
    let mut r: Vec<SftBatch> = Vec::new();
    let mut i: usize = 0;
    while i < buffer.eval_examples.len()
        invariant
            buffer.roomy_for_evaluation(),
            i <= buffer.eval_examples@.len(),
            is_evaluation(r@, buffer.eval_examples@.take(i as int)),
        decreases buffer.eval_examples@.len() - i,
    {
        let ghost examples = buffer.eval_examples@;
        let ghost had = r@;
        let example = &buffer.eval_examples[i];
        let mut rows: Vec<TokenRow> = Vec::new();
        rows.push(TokenRow { prompt: &example.prompt_ids, response: &example.response_ids });
        let mut weights: Vec<Real> = Vec::new();
        weights.push(Real::from_bits(ONE_BITS));
        proof {
            assert(roomy(row_of(examples[i as int]), 1));
            assert(row_views(rows@) =~= seq![row_of(examples[i as int])]);
            lemma_roomy_storable(row_views(rows@));
            assert(weights@ =~= seq![one()]);
        }
        r.push(sft_batch(&rows, weights));
        proof {
            assert forall|k: int| 0 <= k < r@.len() implies is_sft_batch(
                #[trigger] r@[k],
                seq![row_of(examples.take(i + 1)[k])],
                seq![one()],
            ) by {
                if k < i {
                    assert(r@[k] == had[k]);
                    assert(examples.take(i as int)[k] == examples.take(i + 1)[k]);
                }
            }
        }
        i = i + 1;
    }
    assert(buffer.eval_examples@.take(i as int) =~= buffer.eval_examples@);
    r
}

/// Two evaluations on the same buffer look at the same batches.
pub proof fn law_evaluations_agree(
    a: Seq<SftBatch>,
    b: Seq<SftBatch>,
    examples: Seq<TokenizedExample>,
)
    requires
        is_evaluation(a, examples),
        is_evaluation(b, examples),
    ensures
        a.len() == b.len(),
        forall|i: int| 0 <= i < a.len() ==> same_sft_batch(#[trigger] a[i], b[i]),
{
    assert forall|i: int| 0 <= i < a.len() implies same_sft_batch(#[trigger] a[i], b[i]) by {
        assert(is_sft_batch(b[i], seq![row_of(examples[i])], seq![one()]));
        law_sft_batch_unique(a[i], b[i], seq![row_of(examples[i])], seq![one()]);
    }
}

/// The outcome where nothing is held back for evaluation: loss zero, perplexity one.
pub fn metrics_without_examples() -> (m: EvalMetrics)
    ensures
        m.eval_loss.bits == 0,
        m.perplexity.bits == ONE_BITS,
        m.num_examples == 0,
{
    EvalMetrics {
        eval_loss: Real::zero(),
        perplexity: Real::from_bits(ONE_BITS),
        num_examples: 0,
    }
}

/// An evaluation has one batch for each example, in order, which holds the whole example and
/// nothing else, with weight one.
pub proof fn law_evaluation_holds_examples(
    batches: Seq<SftBatch>,
    examples: Seq<TokenizedExample>,
    i: int,
    t: int,
)
    requires
        is_evaluation(batches, examples),
        0 <= i < examples.len(),
        0 <= t < examples[i].prompt_ids@.len() + examples[i].response_ids@.len(),
    ensures
        batches.len() == examples.len(),
        batches[i].input_ids.rows == 1,
        batches[i].input_ids.cols == examples[i].prompt_ids@.len() + examples[i].response_ids@.len(),
        batches[i].weights@.len() == 1 && batches[i].weights@[0].bits == 0x3FF0_0000_0000_0000,
        batches[i].attention_mask.at(0, t),
        t < examples[i].prompt_ids@.len() ==> batches[i].input_ids.at(0, t)
            == examples[i].prompt_ids@[t] && batches[i].labels.at(0, t) == u32::MAX,
        t >= examples[i].prompt_ids@.len() ==> batches[i].input_ids.at(0, t)
            == examples[i].response_ids@[t - examples[i].prompt_ids@.len()] && batches[i].labels.at(
            0,
            t,
        ) == examples[i].response_ids@[t - examples[i].prompt_ids@.len()],
{
    let rows = seq![row_of(examples[i])];
    assert(is_sft_batch(batches[i], rows, seq![one()]));
    crate::batch::law_width(rows);
    crate::batch::law_sft_batch_cells(batches[i], rows, seq![one()], 0, t);
}

} // verus!
