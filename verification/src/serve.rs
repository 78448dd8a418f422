//! Answering chat requests in the shape of the OpenAI completions interface.
use vstd::prelude::*;

use candle_core::{Device, Tensor};
use candle_transformers::generation::{LogitsProcessor, Sampling};
use candle_transformers::models::qwen3::ModelForCausalLM;
use tokenizers::Tokenizer;

use crate::double::Real;
use crate::model::{
    can_run, context, entries, fault_text, forget_context, next_logits, outcome, predictions,
    row_ids, row_tensor, rows, same_model,
};
use crate::text::{decimal_text, same_text};
use crate::tokenize::{decode_ids, encode_ids, vocabulary_of};

verus! {

// ---------------------------------------------------------------------------
// Requests and responses
// ---------------------------------------------------------------------------

#[derive(Debug)]
pub struct ChatCompletionRequest {
    pub model: String,
    pub messages: Vec<ChatMessage>,
    pub temperature: Option<Real>,
    pub top_p: Option<Real>,
    pub max_tokens: usize,
    pub seed: u64,
}

#[derive(Debug, Clone)]
pub struct ChatMessage {
    pub role: String,
    pub content: String,
}

#[derive(Debug)]
pub struct ChatCompletionResponse {
    pub id: String,
    pub object: String,
    pub created: u64,
    pub model: String,
    pub choices: Vec<Choice>,
    pub usage: Usage,
}

#[derive(Debug)]
pub struct Choice {
    pub index: usize,
    pub message: ChatMessage,
    pub finish_reason: String,
}

#[derive(Debug)]
pub struct Usage {
    pub prompt_tokens: usize,
    pub completion_tokens: usize,
    pub total_tokens: usize,
}

/// How many tokens are generated where a request does not say.
pub fn default_max_tokens() -> (n: usize)
    ensures
        n == 256,
{
    256
}

/// The seed of the sampler where a request does not say.
pub fn default_seed() -> (n: u64)
    ensures
        n == 42,
{
    42
}

// ---------------------------------------------------------------------------
// Chat template
// ---------------------------------------------------------------------------

/// A message between its two marks. A system message also switches thinking off.
pub open spec fn message_text(m: ChatMessage) -> Seq<char> {
    "<|im_start|>"@ + m.role@ + "\n"@ + m.content@ + (if m.role@ == "system"@ {
        "\n/no_think"@
    } else {
        ""@
    }) + "<|im_end|>\n"@
}

pub open spec fn messages_text(ms: Seq<ChatMessage>) -> Seq<char>
    decreases ms.len(),
{
    if ms.len() == 0 {
        seq![]
    } else {
        messages_text(ms.drop_last()) + message_text(ms.last())
    }
}

pub open spec fn has_system(ms: Seq<ChatMessage>) -> bool {
    exists|i: int| 0 <= i < ms.len() && (#[trigger] ms[i]).role@ == "system"@
}

/// The whole prompt: a system message of its own where the conversation has none, the
/// messages in order, and the opening of the assistant's turn.
pub open spec fn prompt_text(ms: Seq<ChatMessage>) -> Seq<char> {
    (if has_system(ms) {
        ""@
    } else {
        "<|im_start|>system\n/no_think<|im_end|>\n"@
    }) + messages_text(ms) + "<|im_start|>assistant\n"@
}

/// The prompt of a conversation.
pub fn chat_prompt(messages: &Vec<ChatMessage>) -> (r: String)
    ensures
        r@ == prompt_text(messages@),
{
    let ghost ms = messages@;
    let mut system = false;
    let mut i: usize = 0;
    while i < messages.len()
        invariant
            ms == messages@,
            i <= ms.len(),
            system == exists|k: int| 0 <= k < i && (#[trigger] ms[k]).role@ == "system"@,
        decreases ms.len() - i,
    {
        if same_text(messages[i].role.as_str(), "system") {
            system = true;
            assert(ms[i as int].role@ == "system"@);
        }
        i = i + 1;
    }
    let mut prompt = String::new();
    if !system {
        prompt.append("<|im_start|>system\n/no_think<|im_end|>\n");
    } else {
        prompt.append("");
    }
    let ghost front = prompt@;
    proof {
        assert(has_system(ms) == system);
        assert(seq![] + front =~= front);
    }
    let mut j: usize = 0;
    assert(front + messages_text(ms.take(0)) =~= front);
    while j < messages.len()
        invariant
            ms == messages@,
            j <= ms.len(),
            prompt@ == front + messages_text(ms.take(j as int)),
        decreases ms.len() - j,
    {
        let msg = &messages[j];
        let ghost had = messages_text(ms.take(j as int));
        prompt.append("<|im_start|>");
        prompt.append(msg.role.as_str());
        prompt.append("\n");
        prompt.append(msg.content.as_str());
        if same_text(msg.role.as_str(), "system") {
            prompt.append("\n/no_think");
        } else {
            prompt.append("");
        }
        prompt.append("<|im_end|>\n");
        proof {
            assert(ms.take(j + 1).drop_last() =~= ms.take(j as int));
            assert(ms.take(j + 1).last() == *msg);
            assert(prompt@ =~= front + (had + message_text(*msg)));
        }
        j = j + 1;
    }
    assert(ms.take(ms.len() as int) =~= ms);
    prompt.append("<|im_start|>assistant\n");
    prompt
}

/// The token ids of the prompt of a conversation, or the tokenizer's error message.
pub fn apply_chat_template(messages: &Vec<ChatMessage>, tokenizer: &Tokenizer) -> (r: Result<
    Vec<u32>,
    String,
>)
    requires
        crate::pipeline::encodes_soundly(*tokenizer),
    ensures
        crate::tokenize::encodings(*tokenizer, prompt_text(messages@)).contains(
            crate::tokenize::answer_of(r),
        ),
{
    let prompt = chat_prompt(messages);
    encode_ids(tokenizer, prompt.as_str())
}

// ---------------------------------------------------------------------------
// End of text
// ---------------------------------------------------------------------------

pub open spec fn one_or_none(x: Option<u32>) -> Seq<u32> {
    match x {
        Some(id) => seq![id],
        None => seq![],
    }
}

/// The ids that end a text: those of the two chat marks that are known, and the classic mark
/// only where neither is.
pub open spec fn end_ids(
    im_end: Option<u32>,
    endoftext: Option<u32>,
    classic: Option<u32>,
) -> Seq<u32> {
    if im_end is None && endoftext is None {
        one_or_none(classic)
    } else {
        one_or_none(im_end) + one_or_none(endoftext)
    }
}

/// The id of a token in a vocabulary.
pub open spec fn id_in(vocab: Map<Seq<char>, u32>, token: Seq<char>) -> Option<u32> {
    if vocab.contains_key(token) {
        Some(vocab[token])
    } else {
        None
    }
}

/// The end ids, given what the vocabulary holds.
pub fn end_tokens(im_end: Option<u32>, endoftext: Option<u32>, classic: Option<u32>) -> (r: Vec<u32>)
    ensures
        r@ == end_ids(im_end, endoftext, classic),
{
    let mut eos: Vec<u32> = Vec::new();
    if let Some(id) = im_end {
        eos.push(id);
    }
    if let Some(id) = endoftext {
        eos.push(id);
    }
    if eos.len() == 0 {
        if let Some(id) = classic {
            eos.push(id);
        }
    }
    assert(eos@ =~= end_ids(im_end, endoftext, classic));
    eos
}

fn find_id(tokenizer: &Tokenizer, known: &Vec<(String, u32)>, token: &str) -> (r: Option<u32>)
    requires
        crate::tokenize::lists(known@, crate::tokenize::vocabulary(*tokenizer)),
    ensures
        r == id_in(crate::tokenize::vocabulary(*tokenizer), token@),
{
    let mut i: usize = 0;
    while i < known.len()
        invariant
            crate::tokenize::lists(known@, crate::tokenize::vocabulary(*tokenizer)),
            i <= known@.len(),
            forall|k: int| 0 <= k < i ==> (#[trigger] known@[k]).0@ != token@,
        decreases known@.len() - i,
    {
        if same_text(known[i].0.as_str(), token) {
            assert(known@[i as int].0@ == token@);
            return Some(known[i].1);
        }
        i = i + 1;
    }
    None
}

/// The ids that end a text for a tokenizer.
pub fn resolve_eos_tokens(tokenizer: &Tokenizer) -> (r: Vec<u32>)
    ensures
        ({
            let vocab = crate::tokenize::vocabulary(*tokenizer);
            r@ == end_ids(
                id_in(vocab, "<|im_end|>"@),
                id_in(vocab, "<|endoftext|>"@),
                id_in(vocab, "</s>"@),
            )
        }),
{
    let known = vocabulary_of(tokenizer);
    let im_end = find_id(tokenizer, &known, "<|im_end|>");
    let endoftext = find_id(tokenizer, &known, "<|endoftext|>");
    let classic = find_id(tokenizer, &known, "</s>");
    end_tokens(im_end, endoftext, classic)
}

// ---------------------------------------------------------------------------
// Generation
// ---------------------------------------------------------------------------

/// The sampler of the `candle_transformers` crate, carried through as it is.
#[verifier::external_type_specification]
#[verifier::external_body]
pub struct ExLogitsProcessor(candle_transformers::generation::LogitsProcessor);

/// The way in which a sampler of the `candle_transformers` crate draws, carried through as it is.
#[verifier::external_type_specification]
#[verifier::external_body]
pub struct ExSampling(candle_transformers::generation::Sampling);

/// The way in which a sampler draws, which drawing leaves as it is.
pub uninterp spec fn strategy(s: LogitsProcessor) -> Sampling;

/// The tokens that a sampler can draw for some logits; a message for a failure.
pub uninterp spec fn draws(s: LogitsProcessor, logits: Tensor) -> Set<Result<u32, Seq<char>>>;

/// `LogitsProcessor::sample`: a token that the sampler can draw for these logits. Which one it is
/// rests on chance. A tensor without entries can make the sampler panic.
#[verifier::external_body]
fn sample_token(sampler: &mut LogitsProcessor, logits: &Tensor) -> (r: Result<
    u32,
    candle_core::Error,
>)
    requires
        entries(*logits) > 0,
    ensures
        strategy(*final(sampler)) == strategy(*old(sampler)),
        draws(*old(sampler), *logits).contains(outcome(r)),
{
    sampler.sample(logits)
}

/// What was generated for a prompt, and why it ended.
#[derive(Debug)]
pub struct GenerationOutput {
    pub output_tokens: Vec<u32>,
    pub prompt_tokens: usize,
    pub finish_reason: String,
}

/// What follows a drawn token.
#[derive(Clone, Copy, Debug, PartialEq, Eq, Structural)]
pub enum Turn {
    /// Draw another token.
    Draw,
    /// An end token was drawn.
    Stop,
    /// The limit is reached.
    Full,
}

/// What follows when `token` is drawn after `output`.
pub open spec fn turn_after(output: Seq<u32>, token: u32, eos: Seq<u32>, max_tokens: nat) -> Turn {
    if eos.contains(token) {
        Turn::Stop
    } else if output.len() + 1 < max_tokens {
        Turn::Draw
    } else {
        Turn::Full
    }
}

/// What the model reads before the next token is drawn: the prompt at first, then the token
/// drawn last, at the position after everything read before.
pub open spec fn input_after(prompt: Seq<u32>, output: Seq<u32>) -> (Seq<u32>, nat) {
    if output.len() == 0 {
        (prompt, 0)
    } else {
        (seq![output.last()], (prompt.len() + output.len() - 1) as nat)
    }
}

/// `output` ended with `finish_reason` under the limit `max_tokens`: no end token is part of
/// it, and it is shorter than the limit exactly where an end token was drawn.
pub open spec fn finished(
    output: Seq<u32>,
    finish_reason: Seq<char>,
    eos: Seq<u32>,
    max_tokens: nat,
) -> bool {
    &&& forall|i: int| 0 <= i < output.len() ==> !eos.contains(#[trigger] output[i])
    &&& {
        ||| finish_reason == "stop"@ && output.len() < max_tokens
        ||| finish_reason == "length"@ && output.len() == max_tokens
    }
}

/// What the model has read before the token after `output` is asked for.
pub open spec fn read_before(prompt: Seq<u32>, output: Seq<u32>) -> Seq<u32> {
    if output.len() == 0 {
        seq![]
    } else {
        prompt + output.drop_last()
    }
}

/// What the model has read when `output` is drawn after `prompt`: all of it where an end token
/// followed, and all but the last token where the limit was reached.
pub open spec fn read_for(prompt: Seq<u32>, output: Seq<u32>, finish_reason: Seq<char>) -> Seq<u32> {
    if finish_reason == "stop"@ {
        prompt + output
    } else {
        read_before(prompt, output)
    }
}

/// `read` is what a model has read that failed after `output` was drawn: nothing but the prompt
/// and the tokens drawn after it, the latest input with or without. None of the tokens is an end
/// token, and the limit is not reached.
pub open spec fn interrupted(
    read: Seq<u32>,
    prompt: Seq<u32>,
    output: Seq<u32>,
    eos: Seq<u32>,
    max_tokens: nat,
) -> bool {
    &&& forall|i: int| 0 <= i < output.len() ==> !eos.contains(#[trigger] output[i])
    &&& output.len() < max_tokens
    &&& read == prompt + output || read == read_before(prompt, output)
}

/// A model with the parameters of `model` that has read the prompt and all of `output` but what
/// comes next, which stands at `offset`.
pub open spec fn is_before(
    m: ModelForCausalLM,
    offset: usize,
    model: ModelForCausalLM,
    prompt: Seq<u32>,
    output: Seq<u32>,
) -> bool {
    let position = input_after(prompt, output).1;
    &&& same_model(model, m)
    &&& context(m) == read_before(prompt, output)
    &&& position <= usize::MAX ==> offset == position
}

/// A sampler that draws like `sampler` can answer with `drawn` after `output`, for logits that the
/// model can give once it has read the prompt and all of `output`. A message stands for a failure.
pub open spec fn can_draw(
    model: ModelForCausalLM,
    sampler: LogitsProcessor,
    prompt: Seq<u32>,
    output: Seq<u32>,
    drawn: Result<u32, Seq<char>>,
) -> bool {
    exists|m: ModelForCausalLM, s: LogitsProcessor, logits: Tensor, offset: usize|
        {
            &&& is_before(m, offset, model, prompt, output)
            &&& strategy(s) == strategy(sampler)
            &&& #[trigger] predictions(m, input_after(prompt, output).0, offset).contains(
                Ok(logits),
            )
            &&& #[trigger] draws(s, logits).contains(drawn)
        }
}

/// After `output` a tensor, the model or the sampler can fail with this message.
pub open spec fn can_fail(
    model: ModelForCausalLM,
    sampler: LogitsProcessor,
    device: Device,
    prompt: Seq<u32>,
    output: Seq<u32>,
    message: Seq<char>,
) -> bool {
    let input = input_after(prompt, output).0;
    ||| rows(device, input).contains(Err(message))
    ||| exists|m: ModelForCausalLM, offset: usize|
        is_before(m, offset, model, prompt, output) && #[trigger] predictions(
            m,
            input,
            offset,
        ).contains(Err(message))
    ||| can_draw(model, sampler, prompt, output, Err(message))
}

/// Each token of `output` can follow those before it.
pub open spec fn can_grow(
    model: ModelForCausalLM,
    sampler: LogitsProcessor,
    prompt: Seq<u32>,
    output: Seq<u32>,
) -> bool {
    forall|i: int|
        0 <= i < output.len() ==> can_draw(
            model,
            sampler,
            prompt,
            output.take(i),
            Ok(#[trigger] output[i]),
        )
}

/// An end token can follow `output`.
pub open spec fn can_end(
    model: ModelForCausalLM,
    sampler: LogitsProcessor,
    prompt: Seq<u32>,
    output: Seq<u32>,
    eos: Seq<u32>,
) -> bool {
    exists|token: u32| #[trigger]
        eos.contains(token) && can_draw(model, sampler, prompt, output, Ok(token))
}

/// `g` is what the model and the sampler can make of the prompt `ids`.
pub open spec fn answered(
    model: ModelForCausalLM,
    sampler: LogitsProcessor,
    ids: Seq<u32>,
    g: GenerationOutput,
    eos: Seq<u32>,
) -> bool {
    &&& g.prompt_tokens == ids.len()
    &&& can_grow(model, sampler, ids, g.output_tokens@)
    &&& g.finish_reason@ == "stop"@ ==> can_end(model, sampler, ids, g.output_tokens@, eos)
}

proof fn lemma_grown(
    model: ModelForCausalLM,
    sampler: LogitsProcessor,
    prompt: Seq<u32>,
    output: Seq<u32>,
    token: u32,
)
    requires
        can_grow(model, sampler, prompt, output),
        can_draw(model, sampler, prompt, output, Ok(token)),
    ensures
        can_grow(model, sampler, prompt, output.push(token)),
{
    let grown = output.push(token);
    assert forall|i: int| 0 <= i < grown.len() implies can_draw(
        model,
        sampler,
        prompt,
        grown.take(i),
        Ok(#[trigger] grown[i]),
    ) by {
        assert(grown.take(i) =~= output.take(i));
        if i == output.len() {
            assert(output.take(i) =~= output);
        } else {
            assert(grown[i] == output[i]);
        }
    }
}

fn is_end(eos: &Vec<u32>, token: u32) -> (r: bool)
    ensures
        r == eos@.contains(token),
{
    let mut i: usize = 0;
    while i < eos.len()
        invariant
            i <= eos@.len(),
            forall|k: int| 0 <= k < i ==> eos@[k] != token,
        decreases eos@.len() - i,
    {
        if eos[i] == token {
            return true;
        }
        i = i + 1;
    }
    false
}

/// Takes a drawn token up, unless it ends the text or the limit is reached already, and says what
/// follows.
pub fn take_token(output: &mut Vec<u32>, token: u32, eos: &Vec<u32>, max_tokens: usize) -> (r: Turn)
    ensures
        r == turn_after(old(output)@, token, eos@, max_tokens as nat),
        final(output)@ == (if r == Turn::Stop || old(output)@.len() >= max_tokens {
            old(output)@
        } else {
            old(output)@.push(token)
        }),
{
    if is_end(eos, token) {
        return Turn::Stop;
    }
    if output.len() >= max_tokens {
        return Turn::Full;
    }
    output.push(token);
    if output.len() < max_tokens {
        Turn::Draw
    } else {
        Turn::Full
    }
}

/// What the model reads next, and at which position.
pub fn next_input(prompt: &Vec<u32>, output: &Vec<u32>) -> (r: (Vec<u32>, usize))
    ensures
        r.0@ == input_after(prompt@, output@).0,
        input_after(prompt@, output@).1 <= usize::MAX ==> r.1 == input_after(prompt@, output@).1,
{
    if output.len() == 0 {
        let row = prompt.clone();
        assert(row@ =~= prompt@);
        (row, 0)
    } else {
        let last: u32 = output[output.len() - 1];
        let mut row: Vec<u32> = Vec::new();
        row.push(last);
        assert(row@ =~= seq![output@.last()]);
        (row, prompt.len().wrapping_add(output.len() - 1))
    }
}

/// Draws tokens after a prompt until an end token or the limit. The model forgets what it has
/// read before, also where the generation fails.
pub fn run_generation(
    model: &mut ModelForCausalLM,
    prompt_tokens: &Vec<u32>,
    max_tokens: usize,
    eos_tokens: &Vec<u32>,
    sampler: &mut LogitsProcessor,
    device: &Device,
) -> (r: Result<GenerationOutput, String>)
    requires
        can_run(*old(model)),
        prompt_tokens@.len() > 0,
    ensures
        same_model(*old(model), *final(model)),
        strategy(*final(sampler)) == strategy(*old(sampler)),
        max_tokens == 0 ==> r is Ok,
        match r {
            Ok(g) => {
                &&& answered(*old(model), *old(sampler), prompt_tokens@, g, eos_tokens@)
                &&& finished(
                    g.output_tokens@,
                    g.finish_reason@,
                    eos_tokens@,
                    max_tokens as nat,
                )
                &&& context(*final(model)) == read_for(
                    prompt_tokens@,
                    g.output_tokens@,
                    g.finish_reason@,
                )
            },
            Err(message) => exists|output: Seq<u32>|
                {
                    &&& #[trigger] interrupted(
                        context(*final(model)),
                        prompt_tokens@,
                        output,
                        eos_tokens@,
                        max_tokens as nat,
                    )
                    &&& can_grow(*old(model), *old(sampler), prompt_tokens@, output)
                    &&& can_fail(
                        *old(model),
                        *old(sampler),
                        *device,
                        prompt_tokens@,
                        output,
                        message@,
                    )
                },
        },
{
    let ghost model0 = *model;
    let ghost sampler0 = *sampler;
    forget_context(model);
    let prompt_len: usize = prompt_tokens.len();
    let mut output: Vec<u32> = Vec::new();
    let mut turn = if max_tokens == 0 {
        Turn::Full
    } else {
        Turn::Draw
    };
    while turn == Turn::Draw
        invariant
            model0 == *old(model),
            sampler0 == *old(sampler),
            prompt_tokens@.len() > 0,
            can_run(model0),
            same_model(model0, *model),
            strategy(*sampler) == strategy(sampler0),
            forall|i: int| 0 <= i < output@.len() ==> !eos_tokens@.contains(#[trigger] output@[i]),
            can_grow(model0, sampler0, prompt_tokens@, output@),
            turn == Turn::Full ==> output@.len() == max_tokens,
            turn != Turn::Full ==> output@.len() < max_tokens,
            turn == Turn::Stop ==> can_end(
                model0,
                sampler0,
                prompt_tokens@,
                output@,
                eos_tokens@,
            ),
            context(*model) == (if turn == Turn::Stop {
                prompt_tokens@ + output@
            } else {
                read_before(prompt_tokens@, output@)
            }),
        decreases max_tokens - output@.len(), (if turn == Turn::Draw { 1int } else { 0int }),
    {
        let (input, offset) = next_input(prompt_tokens, &output);
        let row = match row_tensor(&input, device) {
            Ok(row) => row,
            Err(e) => {
                proof {
                    assert(interrupted(
                        context(*model),
                        prompt_tokens@,
                        output@,
                        eos_tokens@,
                        max_tokens as nat,
                    ));
                }
                return Err(fault_text(e));
            },
        };
        let ghost reader = *model;
        let logits = match next_logits(model, &row, offset) {
            Ok(logits) => logits,
            Err(e) => {
                proof {
                    if context(*model) == context(reader) + row_ids(row) {
                        assert(context(*model) =~= prompt_tokens@ + output@);
                    }
                    assert(is_before(reader, offset, model0, prompt_tokens@, output@));
                    assert(predictions(reader, input@, offset).contains(
                        outcome(Err::<Tensor, candle_core::Error>(e)),
                    ));
                    assert(interrupted(
                        context(*model),
                        prompt_tokens@,
                        output@,
                        eos_tokens@,
                        max_tokens as nat,
                    ));
                }
                return Err(fault_text(e));
            },
        };
        let ghost chance = *sampler;
        let token: u32 = match sample_token(sampler, &logits) {
            Ok(token) => token,
            Err(e) => {
                proof {
                    assert(is_before(reader, offset, model0, prompt_tokens@, output@));
                    let answer = outcome(Err::<u32, candle_core::Error>(e));
                    assert(predictions(reader, input@, offset).contains(Ok(logits)));
                    assert(draws(chance, logits).contains(answer));
                    assert(can_draw(model0, sampler0, prompt_tokens@, output@, answer));
                    assert(context(*model) =~= prompt_tokens@ + output@);
                    assert(interrupted(
                        context(*model),
                        prompt_tokens@,
                        output@,
                        eos_tokens@,
                        max_tokens as nat,
                    ));
                }
                return Err(fault_text(e));
            },
        };
        let ghost had = output@;
        proof {
            assert(context(*model) =~= prompt_tokens@ + had);
            assert(is_before(reader, offset, model0, prompt_tokens@, had));
            assert(predictions(reader, input_after(prompt_tokens@, had).0, offset).contains(
                Ok(logits),
            ));
            assert(draws(chance, logits).contains(Ok(token)));
            lemma_grown(model0, sampler0, prompt_tokens@, had, token);
        }
        turn = take_token(&mut output, token, eos_tokens, max_tokens);
        assert(had.push(token).drop_last() =~= had);
    }
    proof {
        reveal_strlit("stop");
        reveal_strlit("length");
        assert("stop"@.len() != "length"@.len());
    }
    let finish_reason = if turn == Turn::Stop {
        "stop".to_owned()
    } else {
        "length".to_owned()
    };
    Ok(GenerationOutput { output_tokens: output, prompt_tokens: prompt_len, finish_reason })
}

// ---------------------------------------------------------------------------
// Answers
// ---------------------------------------------------------------------------

/// Why a request gets no answer.
#[derive(Debug)]
pub enum ServeError {
    /// The tokenizer failed on the prompt.
    Tokenization(String),
    EmptyPrompt,
    /// The model or the sampler failed.
    Generation(String),
}

impl ServeError {
    pub open spec fn status(self) -> u16 {
        match self {
            ServeError::EmptyPrompt => 400,
            _ => 500,
        }
    }

    pub open spec fn message(self) -> Seq<char> {
        match self {
            ServeError::Tokenization(e) => "tokenization failed: "@ + e@,
            ServeError::EmptyPrompt => "empty prompt after tokenization"@,
            ServeError::Generation(e) => "generation failed: "@ + e@,
        }
    }

    /// The HTTP status of the refusal.
    pub fn status_code(&self) -> (n: u16)
        ensures
            n == self.status(),
    {
        match self {
            ServeError::EmptyPrompt => 400,
            _ => 500,
        }
    }

    /// What the client is told.
    pub fn error_text(&self) -> (r: String)
        ensures
            r@ == self.message(),
    {
        match self {
            ServeError::Tokenization(e) => {
                let mut r = "tokenization failed: ".to_owned();
                r.append(e.as_str());
                r
            },
            ServeError::EmptyPrompt => "empty prompt after tokenization".to_owned(),
            ServeError::Generation(e) => {
                let mut r = "generation failed: ".to_owned();
                r.append(e.as_str());
                r
            },
        }
    }
}

/// A prompt is usable if the tokenizer made at least one token of it.
pub fn check_prompt(answer: Result<Vec<u32>, String>) -> (r: Result<Vec<u32>, ServeError>)
    ensures
        match answer {
            Ok(ids) => if ids@.len() > 0 {
                r == Ok::<Vec<u32>, ServeError>(ids)
            } else {
                r == Err::<Vec<u32>, ServeError>(ServeError::EmptyPrompt)
            },
            Err(e) => r == Err::<Vec<u32>, ServeError>(ServeError::Tokenization(e)),
        },
{
    match answer {
        Ok(ids) => if ids.len() > 0 {
            Ok(ids)
        } else {
            Err(ServeError::EmptyPrompt)
        },
        Err(e) => Err(ServeError::Tokenization(e)),
    }
}

/// The text of generated tokens; nothing where they cannot be decoded.
pub open spec fn reply_text(t: Tokenizer, ids: Seq<u32>) -> Seq<char> {
    match crate::tokenize::text_of_ids(t, ids) {
        Some(text) => text,
        None => seq![],
    }
}

/// Answers a conversation: the generated tokens and their text.
pub fn answer_chat(
    messages: &Vec<ChatMessage>,
    max_tokens: usize,
    tokenizer: &Tokenizer,
    eos_tokens: &Vec<u32>,
    model: &mut ModelForCausalLM,
    sampler: &mut LogitsProcessor,
    device: &Device,
) -> (r: Result<(GenerationOutput, String), ServeError>)
    requires
        crate::pipeline::encodes_soundly(*tokenizer),
        crate::pipeline::decodes_soundly(*tokenizer),
        can_run(*old(model)),
    ensures
        same_model(*old(model), *final(model)),
        strategy(*final(sampler)) == strategy(*old(sampler)),
        ({
            let prompts = crate::tokenize::encodings(*tokenizer, prompt_text(messages@));
            match r {
                Ok(answer) => {
                    &&& exists|ids: Seq<u32>|
                        {
                            &&& #[trigger] prompts.contains(Ok(ids))
                            &&& ids.len() > 0
                            &&& answered(*old(model), *old(sampler), ids, answer.0, eos_tokens@)
                            &&& context(*final(model)) == read_for(
                                ids,
                                answer.0.output_tokens@,
                                answer.0.finish_reason@,
                            )
                        }
                    &&& finished(
                        answer.0.output_tokens@,
                        answer.0.finish_reason@,
                        eos_tokens@,
                        max_tokens as nat,
                    )
                    &&& answer.1@ == reply_text(*tokenizer, answer.0.output_tokens@)
                },
                Err(ServeError::Tokenization(message)) => {
                    &&& prompts.contains(Err(message@))
                    &&& *final(model) == *old(model)
                    &&& *final(sampler) == *old(sampler)
                },
                Err(ServeError::EmptyPrompt) => {
                    &&& prompts.contains(Ok(seq![]))
                    &&& *final(model) == *old(model)
                    &&& *final(sampler) == *old(sampler)
                },
                Err(ServeError::Generation(message)) => exists|ids: Seq<u32>, output: Seq<u32>|
                    {
                        &&& #[trigger] prompts.contains(Ok(ids))
                        &&& ids.len() > 0
                        &&& #[trigger] interrupted(
                            context(*final(model)),
                            ids,
                            output,
                            eos_tokens@,
                            max_tokens as nat,
                        )
                        &&& can_grow(*old(model), *old(sampler), ids, output)
                        &&& can_fail(
                            *old(model),
                            *old(sampler),
                            *device,
                            ids,
                            output,
                            message@,
                        )
                    },
            }
        }),
{
    let answer = apply_chat_template(messages, tokenizer);
    let ghost given = answer;
    let prompt_tokens = match check_prompt(answer) {
        Ok(ids) => ids,
        Err(e) => {
            proof {
                if let Ok(ids) = given {
                    assert(ids@ =~= seq![]);
                }
            }
            return Err(e);
        },
    };
    let ghost prompts = crate::tokenize::encodings(*tokenizer, prompt_text(messages@));
    assert(prompts.contains(Ok(prompt_tokens@)));
    let output = match run_generation(
        model,
        &prompt_tokens,
        max_tokens,
        eos_tokens,
        sampler,
        device,
    ) {
        Ok(output) => output,
        Err(e) => {
            return Err(ServeError::Generation(e));
        },
    };
    let text = match decode_ids(tokenizer, &output.output_tokens) {
        Some(text) => text,
        None => String::new(),
    };
    Ok((output, text))
}

/// The response that carries an answer made at the time `created`.
pub fn chat_response(output: GenerationOutput, text: String, created: u64, model_name: &str) -> (r:
    ChatCompletionResponse)
    requires
        output.prompt_tokens + output.output_tokens@.len() <= usize::MAX,
    ensures
        r.id@ == "chatcmpl-"@ + crate::text::decimal(created as nat),
        r.object@ == "chat.completion"@,
        r.created == created,
        r.model@ == model_name@,
        r.choices@.len() == 1,
        r.choices@[0].index == 0,
        r.choices@[0].message.role@ == "assistant"@,
        r.choices@[0].message.content == text,
        r.choices@[0].finish_reason == output.finish_reason,
        r.usage.prompt_tokens == output.prompt_tokens,
        r.usage.completion_tokens == output.output_tokens@.len(),
        r.usage.total_tokens == r.usage.prompt_tokens + r.usage.completion_tokens,
{
    let mut id = "chatcmpl-".to_owned();
    let number = decimal_text(created);
    id.append(number.as_str());
    let completion_tokens: usize = output.output_tokens.len();
    let usage = Usage {
        prompt_tokens: output.prompt_tokens,
        completion_tokens,
        total_tokens: output.prompt_tokens + completion_tokens,
    };
    let message = ChatMessage { role: "assistant".to_owned(), content: text };
    let choice = Choice { index: 0, message, finish_reason: output.finish_reason };
    let mut choices: Vec<Choice> = Vec::new();
    choices.push(choice);
    ChatCompletionResponse {
        id,
        object: "chat.completion".to_owned(),
        created,
        model: model_name.to_owned(),
        choices,
        usage,
    }
}

// ---------------------------------------------------------------------------
// Laws
// ---------------------------------------------------------------------------

/// Every prompt opens with a system message, or the conversation brings its own.
pub proof fn law_prompt_has_system(ms: Seq<ChatMessage>)
    ensures
        has_system(ms) || crate::text::starts_with(
            prompt_text(ms),
            "<|im_start|>system\n/no_think<|im_end|>\n"@,
        ),
        crate::text::ends_with(prompt_text(ms), "<|im_start|>assistant\n"@),
{
    let head = "<|im_start|>system\n/no_think<|im_end|>\n"@;
    let tail = "<|im_start|>assistant\n"@;
    let p = prompt_text(ms);
    if !has_system(ms) {
        assert(p.subrange(0, head.len() as int) =~= head);
    }
    assert(p.subrange(p.len() - tail.len(), p.len() as int) =~= tail);
}

/// The model reads the prompt and then each token that was kept, without a gap: what it
/// reads next stands where everything read so far ends.
pub proof fn law_input_follows_context(prompt: Seq<u32>, output: Seq<u32>, token: u32)
    ensures
        input_after(prompt, seq![]) == (prompt, 0nat),
        input_after(prompt, output.push(token)) == (
            seq![token],
            input_after(prompt, output).1 + input_after(prompt, output).0.len(),
        ),
{
}

/// A conversation is told message by message: the text of two conversations, one after the other,
/// is the text of the one followed by the text of the other.
pub proof fn law_conversations_join(a: Seq<ChatMessage>, b: Seq<ChatMessage>)
    ensures
        messages_text(Seq::<ChatMessage>::empty()) == Seq::<char>::empty(),
        messages_text(a + b) == messages_text(a) + messages_text(b),
    decreases b.len(),
{
    if b.len() == 0 {
        assert(a + b =~= a);
        assert(messages_text(a) + seq![] =~= messages_text(a));
    } else {
        assert((a + b).drop_last() =~= a + b.drop_last());
        law_conversations_join(a, b.drop_last());
        assert(messages_text(a) + messages_text(b.drop_last()) + message_text(b.last())
            =~= messages_text(a) + (messages_text(b.drop_last()) + message_text(b.last())));
    }
}

/// A message stands between its two marks, with its role on the first line and its content after
/// it; a system message also switches thinking off.
pub proof fn law_message_between_marks(m: ChatMessage)
    ensures
        m.role@ != "system"@ ==> messages_text(seq![m]) == "<|im_start|>"@ + m.role@ + "\n"@
            + m.content@ + "<|im_end|>\n"@,
        m.role@ == "system"@ ==> messages_text(seq![m]) == "<|im_start|>"@ + m.role@ + "\n"@
            + m.content@ + "\n/no_think"@ + "<|im_end|>\n"@,
{
    reveal_strlit("");
    assert(seq![m].drop_last() =~= seq![]);
    assert(messages_text(seq![]) == Seq::<char>::empty());
    assert(messages_text(seq![m]) =~= message_text(m));
    let head = "<|im_start|>"@ + m.role@ + "\n"@ + m.content@;
    assert(head + ""@ =~= head);
}

/// A prompt is the text of all messages between the opening of the conversation, which switches
/// thinking off where no message is a system message, and the opening of the assistant's turn.
pub proof fn law_prompt_holds_all_messages(ms: Seq<ChatMessage>)
    ensures
        (exists|i: int| 0 <= i < ms.len() && (#[trigger] ms[i]).role@ == "system"@)
            ==> prompt_text(ms) == messages_text(ms) + "<|im_start|>assistant\n"@,
        !(exists|i: int| 0 <= i < ms.len() && (#[trigger] ms[i]).role@ == "system"@)
            ==> prompt_text(ms) == "<|im_start|>system\n/no_think<|im_end|>\n"@ + messages_text(ms)
            + "<|im_start|>assistant\n"@,
{
    reveal_strlit("");
    assert(""@ + messages_text(ms) =~= messages_text(ms));
}

/// The last message of a conversation is the last thing in its prompt before the assistant's turn.
pub proof fn law_last_message_ends_the_prompt(ms: Seq<ChatMessage>, m: ChatMessage)
    ensures
        ({
            let end = messages_text(seq![m]) + "<|im_start|>assistant\n"@;
            let p = prompt_text(ms.push(m));
            p.len() >= end.len() && p.skip(p.len() - end.len()) == end
        }),
{
    let all = ms.push(m);
    assert(all =~= ms + seq![m]);
    law_conversations_join(ms, seq![m]);
    law_prompt_holds_all_messages(all);
    let end = messages_text(seq![m]) + "<|im_start|>assistant\n"@;
    let p = prompt_text(all);
    assert(p.skip(p.len() - end.len()) =~= end);
}

/// The ids that end a text are those of the two chat marks, as far as they are known, and that of
/// the classic mark only where neither is.
pub proof fn law_end_ids(im_end: Option<u32>, endoftext: Option<u32>, classic: Option<u32>)
    ensures
        match (im_end, endoftext) {
            (Some(a), Some(b)) => end_ids(im_end, endoftext, classic) == seq![a, b],
            (Some(a), None) => end_ids(im_end, endoftext, classic) == seq![a],
            (None, Some(b)) => end_ids(im_end, endoftext, classic) == seq![b],
            (None, None) => match classic {
                Some(c) => end_ids(im_end, endoftext, classic) == seq![c],
                None => end_ids(im_end, endoftext, classic) == Seq::<u32>::empty(),
            },
        },
        forall|vocab: Map<Seq<char>, u32>, token: Seq<char>|
            vocab.contains_key(token) ==> #[trigger] id_in(vocab, token) == Some(vocab[token]),
        forall|vocab: Map<Seq<char>, u32>, token: Seq<char>|
            !vocab.contains_key(token) ==> #[trigger] id_in(vocab, token) is None,
{
    let r = end_ids(im_end, endoftext, classic);
    match (im_end, endoftext) {
        (Some(a), Some(b)) => assert(r =~= seq![a, b]),
        (Some(a), None) => assert(r =~= seq![a]),
        (None, Some(b)) => assert(r =~= seq![b]),
        (None, None) => {},
    }
}

/// A drawn token ends the text where it is an end token, and the limit ends it where the token is
/// the last that fits; otherwise another one is drawn.
pub proof fn law_turns(output: Seq<u32>, token: u32, eos: Seq<u32>, max_tokens: nat)
    ensures
        turn_after(output, token, eos, max_tokens) == Turn::Stop <==> exists|i: int|
            0 <= i < eos.len() && #[trigger] eos[i] == token,
        turn_after(output, token, eos, max_tokens) == Turn::Draw <==> (forall|i: int|
            0 <= i < eos.len() ==> #[trigger] eos[i] != token) && output.len() + 1 < max_tokens,
{
    if eos.contains(token) {
        let i = choose|i: int| 0 <= i < eos.len() && eos[i] == token;
        assert(eos[i] == token);
    }
}

/// A generation that ended holds no end token. It holds as many tokens as the limit allows where
/// the limit ended it, and fewer where an end token did.
pub proof fn law_generation_ends(
    output: Seq<u32>,
    finish_reason: Seq<char>,
    eos: Seq<u32>,
    max_tokens: nat,
)
    requires
        finished(output, finish_reason, eos, max_tokens),
    ensures
        forall|i: int, k: int|
            0 <= i < output.len() && 0 <= k < eos.len() ==> #[trigger] output[i] != #[trigger] eos[k],
        finish_reason == "length"@ <==> output.len() == max_tokens,
        finish_reason == "stop"@ <==> output.len() < max_tokens,
{
    reveal_strlit("stop");
    reveal_strlit("length");
    assert("stop"@.len() != "length"@.len());
    assert forall|i: int, k: int|
        0 <= i < output.len() && 0 <= k < eos.len() implies #[trigger] output[i]
        != #[trigger] eos[k] by {
        assert(!eos.contains(output[i]));
    }
}

/// Each token of an answer can be drawn after those before it, and where the answer stopped an
/// end token can be drawn after all of them. The prompt is counted in full.
pub proof fn law_answer_is_drawn(
    model: ModelForCausalLM,
    sampler: LogitsProcessor,
    ids: Seq<u32>,
    g: GenerationOutput,
    eos: Seq<u32>,
)
    requires
        answered(model, sampler, ids, g, eos),
    ensures
        g.prompt_tokens == ids.len(),
        forall|i: int|
            0 <= i < g.output_tokens@.len() ==> can_draw(
                model,
                sampler,
                ids,
                g.output_tokens@.take(i),
                Ok(#[trigger] g.output_tokens@[i]),
            ),
        g.finish_reason@ == "stop"@ ==> exists|k: int|
            0 <= k < eos.len() && can_draw(
                model,
                sampler,
                ids,
                g.output_tokens@,
                Ok(#[trigger] eos[k]),
            ),
{
    if g.finish_reason@ == "stop"@ {
        let token = choose|token: u32| #[trigger]
            eos.contains(token) && can_draw(model, sampler, ids, g.output_tokens@, Ok(token));
        let k = choose|k: int| 0 <= k < eos.len() && eos[k] == token;
        assert(eos[k] == token);
    }
}

/// A token is drawn for logits that the model gives when it has read the prompt and all tokens
/// drawn so far, neither more nor less.
pub proof fn law_draws_follow_all_that_was_said(
    model: ModelForCausalLM,
    sampler: LogitsProcessor,
    prompt: Seq<u32>,
    output: Seq<u32>,
    drawn: Result<u32, Seq<char>>,
) -> (r: (ModelForCausalLM, LogitsProcessor, Tensor, Seq<u32>, usize))
    requires
        can_draw(model, sampler, prompt, output, drawn),
    ensures
        context(r.0) + r.3 == prompt + output,
        r.3 == prompt || r.3.len() == 1,
        prompt.len() + output.len() <= usize::MAX ==> r.4 == context(r.0).len(),
        crate::model::parameters(r.0) == crate::model::parameters(model),
        crate::model::model_sizes(r.0) == crate::model::model_sizes(model),
        strategy(r.1) == strategy(sampler),
        predictions(r.0, r.3, r.4).contains(Ok(r.2)),
        draws(r.1, r.2).contains(drawn),
{
    let (m, s, logits, offset) = choose|
        m: ModelForCausalLM,
        s: LogitsProcessor,
        logits: Tensor,
        offset: usize,
    |
        {
            &&& is_before(m, offset, model, prompt, output)
            &&& strategy(s) == strategy(sampler)
            &&& #[trigger] predictions(m, input_after(prompt, output).0, offset).contains(
                Ok(logits),
            )
            &&& #[trigger] draws(s, logits).contains(drawn)
        };
    let input = input_after(prompt, output).0;
    assert(context(m) + input =~= prompt + output);
    (m, s, logits, input, offset)
}

/// What a model has read after an answer is the prompt and the answer, without the last token
/// where the limit was reached.
pub proof fn law_model_has_read(prompt: Seq<u32>, output: Seq<u32>, token: u32)
    ensures
        read_for(prompt, output, "stop"@) == prompt + output,
        read_for(prompt, output.push(token), "length"@) == prompt + output,
        read_for(prompt, Seq::empty(), "length"@) == Seq::<u32>::empty(),
{
    reveal_strlit("stop");
    reveal_strlit("length");
    assert("stop"@.len() != "length"@.len());
    assert(output.push(token).drop_last() =~= output);
}

/// A failed generation has read nothing but the prompt and tokens drawn after it, was below the
/// limit and had met no end token.
pub proof fn law_interrupted(
    read: Seq<u32>,
    prompt: Seq<u32>,
    output: Seq<u32>,
    eos: Seq<u32>,
    max_tokens: nat,
)
    requires
        interrupted(read, prompt, output, eos, max_tokens),
    ensures
        output.len() < max_tokens,
        forall|i: int, k: int|
            0 <= i < output.len() && 0 <= k < eos.len() ==> #[trigger] output[i] != #[trigger] eos[k],
        read == prompt + output || (output.len() == 0 && read.len() == 0) || (output.len() > 0
            && read == prompt + output.drop_last()),
{
    assert forall|i: int, k: int|
        0 <= i < output.len() && 0 <= k < eos.len() implies #[trigger] output[i]
        != #[trigger] eos[k] by {
        assert(!eos.contains(output[i]));
    }
}

/// The reply is the text that the tokenizer makes of all tokens of the answer. It is empty where
/// the tokenizer fails, or where no token is part of a text.
pub proof fn law_reply_is_whole(t: Tokenizer, ids: Seq<u32>)
    ensures
        (exists|i: int|
            0 <= i < ids.len() && (crate::tokenize::token_at(t, #[trigger] ids[i]) matches Some(
                token,
            ) && !crate::tokenize::is_special(t, token))) ==> reply_text(t, ids) == (
        match crate::tokenize::decoded(t, ids) {
            Some(text) => text,
            None => Seq::empty(),
        }),
        !(exists|i: int|
            0 <= i < ids.len() && (crate::tokenize::token_at(t, #[trigger] ids[i]) matches Some(
                token,
            ) && !crate::tokenize::is_special(t, token))) ==> reply_text(t, ids)
            == Seq::<char>::empty(),
{
    if crate::tokenize::says_something(t, ids) {
        let i = choose|i: int| 0 <= i < ids.len() && crate::tokenize::speaks(t, #[trigger] ids[i]);
        assert(crate::tokenize::token_at(t, ids[i]) matches Some(token)
            && !crate::tokenize::is_special(t, token));
    } else {
        assert forall|i: int|
            0 <= i < ids.len() && (crate::tokenize::token_at(t, #[trigger] ids[i]) matches Some(
                token,
            ) && !crate::tokenize::is_special(t, token)) implies false by {
            assert(crate::tokenize::speaks(t, ids[i]));
        }
    }
}

/// What a refused client is told: that its prompt is empty is its own fault, anything else is the
/// server's.
pub proof fn law_refusals(e: String)
    ensures
        ServeError::EmptyPrompt.status() == 400,
        ServeError::EmptyPrompt.message() == "empty prompt after tokenization"@,
        ServeError::Tokenization(e).status() == 500,
        ServeError::Tokenization(e).message() == "tokenization failed: "@ + e@,
        ServeError::Generation(e).status() == 500,
        ServeError::Generation(e).message() == "generation failed: "@ + e@,
{
}

/// A failed generation says what failed: the row of ids that was to be read, the model that read
/// it after all that was said before, or the draw.
pub proof fn law_failures_are_reported(
    model: ModelForCausalLM,
    sampler: LogitsProcessor,
    device: Device,
    prompt: Seq<u32>,
    output: Seq<u32>,
    message: Seq<char>,
) -> (r: (ModelForCausalLM, Seq<u32>, usize))
    requires
        can_fail(model, sampler, device, prompt, output, message),
    ensures
        rows(device, r.1).contains(Err(message)) || (context(r.0) + r.1 == prompt + output
            && predictions(r.0, r.1, r.2).contains(Err(message)) && crate::model::parameters(r.0)
            == crate::model::parameters(model)) || can_draw(
            model,
            sampler,
            prompt,
            output,
            Err(message),
        ),
        r.1 == prompt || r.1 == seq![output.last()],
        r.1 == prompt || output.len() > 0,
{
    let input = input_after(prompt, output).0;
    if rows(device, input).contains(Err(message)) || can_draw(
        model,
        sampler,
        prompt,
        output,
        Err(message),
    ) {
        (model, input, 0)
    } else {
        let (m, offset) = choose|m: ModelForCausalLM, offset: usize|
            is_before(m, offset, model, prompt, output) && #[trigger] predictions(
                m,
                input,
                offset,
            ).contains(Err(message));
        assert(context(m) + input =~= prompt + output);
        (m, input, offset)
    }
}

} // verus!
