//! The language model: how it is put together, and how it reads and answers.
use vstd::prelude::*;

use std::collections::HashMap;

use candle_core::{Device, Tensor};
use candle_nn::VarBuilder;
use candle_transformers::models::qwen3::{Config, ModelForCausalLM};

use crate::loader::DType;

verus! {

/// The device of the `candle_core` crate, carried through as it is.
#[verifier::external_type_specification]
#[verifier::external_body]
pub struct ExDevice(candle_core::Device);

/// The error of the `candle_core` crate, carried through as it is.
#[verifier::external_type_specification]
#[verifier::external_body]
pub struct ExCandleError(candle_core::Error);

/// The tensor of the `candle_core` crate.
#[verifier::external_type_specification]
#[verifier::external_body]
pub struct ExTensor(candle_core::Tensor);

/// The language model of the `candle_transformers` crate, carried through as it is.
#[verifier::external_type_specification]
#[verifier::external_body]
pub struct ExModelForCausalLM(candle_transformers::models::qwen3::ModelForCausalLM);

// ---------------------------------------------------------------------------
// Errors
// ---------------------------------------------------------------------------

/// What an error of `candle_core` says of itself.
pub uninterp spec fn fault_message(e: candle_core::Error) -> Seq<char>;

/// The message of an error of `candle_core`, by its `Display`.
#[verifier::external_body]
pub(crate) fn fault_text(e: candle_core::Error) -> (r: String)
    ensures
        r@ == fault_message(e),
{
    e.to_string()
}

/// What came back from `candle`: a value, or the message of an error.
pub open spec fn outcome<T>(r: Result<T, candle_core::Error>) -> Result<T, Seq<char>> {
    match r {
        Ok(x) => Ok(x),
        Err(e) => Err(fault_message(e)),
    }
}

// ---------------------------------------------------------------------------
// Sizes
// ---------------------------------------------------------------------------

/// The sizes of a model.
#[derive(Clone, Copy, Debug, PartialEq, Eq, Structural)]
pub struct ModelSizes {
    pub vocab: usize,
    pub hidden: usize,
    pub intermediate: usize,
    pub layers: usize,
    pub heads: usize,
    pub head_dim: usize,
    pub kv_heads: usize,
    pub positions: usize,
}

/// The sizes that a configuration asks for.
pub uninterp spec fn sizes(c: Config) -> ModelSizes;

/// The sizes that a model was made with.
pub uninterp spec fn model_sizes(m: ModelForCausalLM) -> ModelSizes;

/// The fields of a `Config` that hold sizes.
#[verifier::external_body]
fn sizes_of(c: &Config) -> (r: ModelSizes)
    ensures
        r == sizes(*c),
{
    ModelSizes {
        vocab: c.vocab_size,
        hidden: c.hidden_size,
        intermediate: c.intermediate_size,
        layers: c.num_hidden_layers,
        heads: c.num_attention_heads,
        head_dim: c.head_dim,
        kv_heads: c.num_key_value_heads,
        positions: c.max_position_embeddings,
    }
}

/// The bytes that a layer may take up in a list of layers.
pub const LAYER_BYTES: usize = 4096;

/// The bytes that an entry of a tensor may take up.
pub const ENTRY_BYTES: usize = 8;

impl ModelSizes {
    /// No part of the model is without width. An activation can cut the inner width in two.
    pub open spec fn has_parts(self) -> bool {
        &&& self.vocab > 0
        &&& self.hidden > 0
        &&& self.intermediate > 1
        &&& self.layers > 0
        &&& self.heads > 0
        &&& self.head_dim > 0
        &&& self.kv_heads > 0
        &&& self.positions > 0
    }

    /// The widths can be counted, and the lists of layers and of positions can be addressed.
    pub open spec fn fits(self) -> bool {
        &&& self.layers * LAYER_BYTES <= isize::MAX
        &&& self.heads * self.head_dim <= usize::MAX
        &&& self.kv_heads * self.head_dim <= usize::MAX
        &&& self.positions * self.head_dim <= isize::MAX as int / ENTRY_BYTES as int
    }

    pub open spec fn sound(self) -> bool {
        self.has_parts() && self.fits()
    }

    /// Whether a model of these sizes can be put together and run.
    pub fn is_sound(&self) -> (r: bool)
        ensures
            r == self.sound(),
    {
        let parts = self.vocab > 0 && self.hidden > 0 && self.intermediate > 1 && self.layers > 0
            && self.heads > 0 && self.head_dim > 0 && self.kv_heads > 0 && self.positions > 0;
        let limit: usize = isize::MAX as usize;
        parts && match self.layers.checked_mul(LAYER_BYTES) {
            Some(n) => n <= limit,
            None => false,
        } && self.heads.checked_mul(self.head_dim).is_some() && self.kv_heads.checked_mul(
            self.head_dim,
        ).is_some() && match self.positions.checked_mul(self.head_dim) {
            Some(n) => n <= limit / ENTRY_BYTES,
            None => false,
        }
    }
}

/// Whether a model can be put together by a configuration.
pub fn can_build(config: &Config) -> (r: bool)
    ensures
        r == sizes(*config).sound(),
{
    sizes_of(config).is_sound()
}

// ---------------------------------------------------------------------------
// Building
// ---------------------------------------------------------------------------

/// The models that `candle` can make by a configuration of some named tensors, in a number format
/// and on a device; a message for a failure.
pub uninterp spec fn assemblies(
    c: Config,
    tensors: Map<String, Tensor>,
    dtype: DType,
    d: Device,
) -> Set<Result<ModelForCausalLM, Seq<char>>>;

/// `VarBuilder::from_tensors` and `ModelForCausalLM::new`: a model of the sizes of the
/// configuration that has read nothing yet. Sizes that make it panic, then or later, are left out.
/// When it fails rests on the device as well.
#[verifier::external_body]
fn assemble(
    config: &Config,
    tensors: HashMap<String, Tensor>,
    dtype: DType,
    device: &Device,
) -> (r: Result<ModelForCausalLM, candle_core::Error>)
    requires
        sizes(*config).sound(),
    ensures
        assemblies(*config, tensors@, dtype, *device).contains(outcome(r)),
        r is Ok ==> model_sizes(r->Ok_0) == sizes(*config),
        r is Ok ==> context(r->Ok_0) == Seq::<u32>::empty(),
{
    let format = match dtype {
        DType::F32 => candle_core::DType::F32,
        DType::F16 => candle_core::DType::F16,
        DType::BF16 => candle_core::DType::BF16,
    };
    ModelForCausalLM::new(config, VarBuilder::from_tensors(tensors, format, device))
}

/// Puts a model together, or says why `candle` could not.
pub fn build_model(
    config: &Config,
    tensors: HashMap<String, Tensor>,
    dtype: DType,
    device: &Device,
) -> (r: Result<ModelForCausalLM, candle_core::Error>)
    requires
        sizes(*config).sound(),
    ensures
        assemblies(*config, tensors@, dtype, *device).contains(outcome(r)),
        r is Ok ==> can_run(r->Ok_0),
        r is Ok ==> context(r->Ok_0) == Seq::<u32>::empty(),
{
    assemble(config, tensors, dtype, device)
}

// ---------------------------------------------------------------------------
// Reading
// ---------------------------------------------------------------------------

/// The token ids that a tensor of one row holds.
pub uninterp spec fn row_ids(t: Tensor) -> Seq<u32>;

/// How many entries a tensor has.
pub uninterp spec fn entries(t: Tensor) -> nat;

/// The token ids that a model has read since its context was last cleared. Of a row that it
/// failed on, this counts the ids whose keys reached the cache of its last layer.
pub uninterp spec fn context(m: ModelForCausalLM) -> Seq<u32>;

/// The tensors that a model was made with, which running it leaves as they are.
pub uninterp spec fn parameters(m: ModelForCausalLM) -> Seq<Tensor>;

/// The logits that a model can give for the token that follows a row of ids at a position; a
/// message for a failure.
pub uninterp spec fn predictions(m: ModelForCausalLM, ids: Seq<u32>, offset: usize) -> Set<
    Result<Tensor, Seq<char>>,
>;

/// The tensors of one row that a device can make of a list of ids; a message for a failure.
pub uninterp spec fn rows(d: Device, ids: Seq<u32>) -> Set<Result<Tensor, Seq<char>>>;

/// No part of a model is without width, so that it does not panic on a row of ids.
pub open spec fn can_run(m: ModelForCausalLM) -> bool {
    model_sizes(m).has_parts()
}

/// Two models differ at most in what they have read.
pub open spec fn same_model(a: ModelForCausalLM, b: ModelForCausalLM) -> bool {
    &&& parameters(a) == parameters(b)
    &&& model_sizes(a) == model_sizes(b)
}

/// `Tensor::new` on a list of ids and `Tensor::unsqueeze` at the front: a tensor of one row
/// that holds the ids. When it fails rests on the device.
#[verifier::external_body]
pub(crate) fn row_tensor(ids: &Vec<u32>, device: &Device) -> (r: Result<Tensor, candle_core::Error>)
    ensures
        rows(*device, ids@).contains(outcome(r)),
        r is Ok ==> row_ids(r->Ok_0) == ids@,
{
    Tensor::new(ids.as_slice(), device)?.unsqueeze(0)
}

/// `ModelForCausalLM::clear_kv_cache`: what the model has read is forgotten, and nothing else.
#[verifier::external_body]
pub(crate) fn forget_context(model: &mut ModelForCausalLM)
    ensures
        context(*final(model)) == Seq::<u32>::empty(),
        parameters(*final(model)) == parameters(*old(model)),
        model_sizes(*final(model)) == model_sizes(*old(model)),
{
    model.clear_kv_cache();
}

/// `ModelForCausalLM::forward` on a row of ids at a position of the context, and
/// `Tensor::squeeze` of its two leading dimensions: logits that the model can give for the token
/// that follows, one for each token. The model adds the row to its context, whose end must be the
/// position; where it fails, the cache of its last layer holds the keys of the whole row or none
/// of it. A row without ids makes the model panic, and so does a part without width. Which logits
/// they are, and when it fails, rests on the device as well.
#[verifier::external_body]
pub(crate) fn next_logits(model: &mut ModelForCausalLM, row: &Tensor, offset: usize) -> (r: Result<
    Tensor,
    candle_core::Error,
>)
    requires
        can_run(*old(model)),
        row_ids(*row).len() > 0,
        context(*old(model)).len() <= usize::MAX ==> offset == context(*old(model)).len(),
    ensures
        parameters(*final(model)) == parameters(*old(model)),
        model_sizes(*final(model)) == model_sizes(*old(model)),
        predictions(*old(model), row_ids(*row), offset).contains(outcome(r)),
        r is Ok ==> entries(r->Ok_0) == model_sizes(*old(model)).vocab,
        r is Ok ==> context(*final(model)) == context(*old(model)) + row_ids(*row),
        r is Err ==> context(*final(model)) == context(*old(model)) || context(*final(model))
            == context(*old(model)) + row_ids(*row),
{
    model.forward(row, offset)?.squeeze(0)?.squeeze(0)
}

// ---------------------------------------------------------------------------
// Laws
// ---------------------------------------------------------------------------

/// A model can be built and run where each of its sizes is there, with two columns at least where
/// a product is cut in two, and where the tables that it allocates can be held.
pub proof fn law_sizes_to_build(s: ModelSizes)
    ensures
        s.has_parts() <==> s.vocab >= 1 && s.hidden >= 1 && s.intermediate >= 2 && s.layers >= 1
            && s.heads >= 1 && s.head_dim >= 1 && s.kv_heads >= 1 && s.positions >= 1,
        s.has_parts() && s.layers <= 1000 && s.heads <= 1000 && s.kv_heads <= 1000 && s.head_dim
            <= 1000 && s.positions <= 200_000 ==> s.sound(),
        s.sound() ==> s.has_parts(),
{
    if s.layers <= 1000 && s.heads <= 1000 && s.kv_heads <= 1000 && s.head_dim <= 1000
        && s.positions <= 200_000 {
        let d = s.head_dim as int;
        let h = s.heads as int;
        let v = s.kv_heads as int;
        let p = s.positions as int;
        assert(h * d <= 1_000_000) by (nonlinear_arith)
            requires
                0 <= h <= 1000,
                0 <= d <= 1000,
        ;
        assert(v * d <= 1_000_000) by (nonlinear_arith)
            requires
                0 <= v <= 1000,
                0 <= d <= 1000,
        ;
        assert(p * d <= 200_000_000) by (nonlinear_arith)
            requires
                0 <= p <= 200_000,
                0 <= d <= 1000,
        ;
    }
}

/// A model is the same where its parameters and its sizes are, and it can run where none of its
/// sizes is missing.
pub proof fn law_same_models(a: ModelForCausalLM, b: ModelForCausalLM)
    ensures
        same_model(a, b) <==> parameters(a) == parameters(b) && model_sizes(a) == model_sizes(b),
        same_model(a, b) && can_run(a) ==> can_run(b),
        can_run(a) <==> model_sizes(a).has_parts(),
{
}

} // verus!
