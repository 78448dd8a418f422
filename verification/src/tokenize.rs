//! Turning text into token ids and back.
use vstd::prelude::*;

use tokenizers::Tokenizer;

use crate::pipeline::{decodes_soundly, encodes_soundly};

verus! {

/// What `Tokenizer::encode` can answer for a text when no special tokens are added: a list
/// of ids, or the message of a failure. There is one possible answer unless the tokenizer drops
/// merges at random, which its file can ask for.
pub uninterp spec fn encodings(t: Tokenizer, text: Seq<char>) -> Set<Result<Seq<u32>, Seq<char>>>;

/// What `Tokenizer::decode` makes of a list of ids when special tokens are skipped; `None`
/// for a failure.
pub uninterp spec fn decoded(t: Tokenizer, ids: Seq<u32>) -> Option<Seq<char>>;

/// The token that an id stands for, if any.
pub uninterp spec fn token_at(t: Tokenizer, id: u32) -> Option<Seq<char>>;

/// A token is a special one, which is left out of a text.
pub uninterp spec fn is_special(t: Tokenizer, token: Seq<char>) -> bool;

/// The tokens that a tokenizer knows, added tokens included, with their ids.
pub uninterp spec fn vocabulary(t: Tokenizer) -> Map<Seq<char>, u32>;

/// Why a text could not be turned into tokens.
#[derive(Debug)]
pub struct TokenizeError {
    pub message: String,
}

/// The last `max_length` items of `ids`, or all of them where there are no more.
pub open spec fn kept_tail(ids: Seq<u32>, max_length: nat) -> Seq<u32> {
    if ids.len() > max_length {
        ids.skip(ids.len() - max_length)
    } else {
        ids
    }
}

/// What a list of ids or a failure says of the answer of the tokenizer.
pub open spec fn answer_of(r: Result<Vec<u32>, String>) -> Result<Seq<u32>, Seq<char>> {
    match r {
        Ok(ids) => Ok(ids@),
        Err(e) => Err(e@),
    }
}

/// An id stands for a token that is part of a text.
pub open spec fn speaks(t: Tokenizer, id: u32) -> bool {
    match token_at(t, id) {
        Some(token) => !is_special(t, token),
        None => false,
    }
}

/// Some id stands for a token that is part of a text.
pub open spec fn says_something(t: Tokenizer, ids: Seq<u32>) -> bool {
    exists|i: int| 0 <= i < ids.len() && speaks(t, #[trigger] ids[i])
}

/// The text of a list of ids: nothing where no token of it is part of a text; `None` where it
/// cannot be decoded.
pub open spec fn text_of_ids(t: Tokenizer, ids: Seq<u32>) -> Option<Seq<char>> {
    if says_something(t, ids) {
        decoded(t, ids)
    } else {
        Some(seq![])
    }
}

/// `Tokenizer::encode` without special tokens, and the ids of the encoding that it returns;
/// of an error, its message. The answer is one of those that the tokenizer can give for
/// this text. A tokenizer with a step that can panic instead of answering is left out.
#[verifier::external_body]
pub(crate) fn encode_ids(t: &Tokenizer, text: &str) -> (r: Result<Vec<u32>, String>)
    requires
        encodes_soundly(*t),
    ensures
        encodings(*t, text@).contains(answer_of(r)),
{
    match t.encode(text, false) {
        Ok(encoding) => Ok(encoding.get_ids().to_vec()),
        Err(e) => Err(e.to_string()),
    }
}

/// `Tokenizer::decode` with special tokens skipped. The text depends on the tokenizer and
/// the ids alone. A tokenizer whose decoder can panic instead of answering is left out, and so is
/// a list of ids of which no token is left.
#[verifier::external_body]
fn decode_tokens(t: &Tokenizer, ids: &Vec<u32>) -> (r: Option<String>)
    requires
        decodes_soundly(*t),
        says_something(*t, ids@),
    ensures
        match r {
            Some(text) => decoded(*t, ids@) == Some(text@),
            None => decoded(*t, ids@) is None,
        },
{
    t.decode(ids, true).ok()
}

/// `Tokenizer::id_to_token`. The token depends on the tokenizer and the id alone.
#[verifier::external_body]
fn token_of(t: &Tokenizer, id: u32) -> (r: Option<String>)
    ensures
        crate::ingest::files::optional_text(r) == token_at(*t, id),
{
    t.id_to_token(id)
}

/// `Tokenizer::get_added_vocabulary` and `AddedVocabulary::is_special_token`.
#[verifier::external_body]
fn special_token(t: &Tokenizer, token: &str) -> (r: bool)
    ensures
        r == is_special(*t, token@),
{
    t.get_added_vocabulary().is_special_token(token)
}

/// Whether an id stands for a token that is part of a text.
fn has_voice(t: &Tokenizer, id: u32) -> (r: bool)
    ensures
        r == speaks(*t, id),
{
    match token_of(t, id) {
        Some(token) => !special_token(t, token.as_str()),
        None => false,
    }
}

/// The text of a list of ids, without special tokens; `None` where it cannot be decoded.
pub fn decode_ids(t: &Tokenizer, ids: &Vec<u32>) -> (r: Option<String>)
    requires
        decodes_soundly(*t),
    ensures
        crate::ingest::files::optional_text(r) == text_of_ids(*t, ids@),
{
    let mut i: usize = 0;
    while i < ids.len()
        invariant
            decodes_soundly(*t),
            i <= ids@.len(),
            forall|k: int| 0 <= k < i ==> !speaks(*t, #[trigger] ids@[k]),
        decreases ids@.len() - i,
    {
        if has_voice(t, ids[i]) {
            assert(speaks(*t, ids@[i as int]));
            return decode_tokens(t, ids);
        }
        i = i + 1;
    }
    let r = String::new();
    assert(r@ =~= seq![]);
    Some(r)
}

/// A list of tokens with their ids holds what a vocabulary holds, and no more.
pub open spec fn lists(v: Seq<(String, u32)>, vocab: Map<Seq<char>, u32>) -> bool {
    &&& forall|i: int|
        0 <= i < v.len() ==> vocab.contains_key((#[trigger] v[i]).0@) && vocab[v[i].0@] == v[i].1
    &&& forall|token: Seq<char>| #[trigger]
        vocab.contains_key(token) ==> exists|i: int|
            0 <= i < v.len() && (#[trigger] v[i]).0@ == token
}

/// `Tokenizer::get_vocab` with the added tokens: the tokens that it holds with their ids, in no
/// order.
#[verifier::external_body]
pub(crate) fn vocabulary_of(t: &Tokenizer) -> (r: Vec<(String, u32)>)
    ensures
        lists(r@, vocabulary(*t)),
{
    t.get_vocab(true).into_iter().collect()
}

/// Keeps the last `max_length` ids.
pub fn keep_tail(ids: Vec<u32>, max_length: usize) -> (r: Vec<u32>)
    ensures
        r@ == kept_tail(ids@, max_length as nat),
{
    if ids.len() <= max_length {
        return ids;
    }
    let mut r: Vec<u32> = Vec::new();
    let start: usize = ids.len() - max_length;
    let mut i: usize = start;
    while i < ids.len()
        invariant
            start <= i <= ids@.len(),
            r@ == ids@.subrange(start as int, i as int),
        decreases ids@.len() - i,
    {
        r.push(ids[i]);
        assert(r@ =~= ids@.subrange(start as int, i + 1));
        i = i + 1;
    }
    assert(r@ =~= ids@.skip(start as int));
    r
}

/// The ids that are kept of a text, or why it has none, once the tokenizer has answered.
pub fn accept_encoding(answer: Result<Vec<u32>, String>, max_length: usize) -> (r: Result<
    Vec<u32>,
    TokenizeError,
>)
    ensures
        match answer {
            Ok(ids) => r is Ok && r->Ok_0@ == kept_tail(ids@, max_length as nat),
            Err(e) => r is Err && r->Err_0.message@ == "tokenization error: "@ + e@,
        },
{
    match answer {
        Ok(ids) => Ok(keep_tail(ids, max_length)),
        Err(e) => {
            let mut message = "tokenization error: ".to_owned();
            message.append(e.as_str());
            Err(TokenizeError { message })
        },
    }
}

/// `r` is what is kept of an answer that the tokenizer can give for `text`.
pub open spec fn tokenized(
    t: Tokenizer,
    text: Seq<char>,
    max_length: nat,
    r: Result<Seq<u32>, Seq<char>>,
) -> bool {
    match r {
        Ok(ids) => exists|raw: Seq<u32>|
            #[trigger] encodings(t, text).contains(Ok(raw)) && ids == kept_tail(raw, max_length),
        Err(message) => exists|raw: Seq<char>|
            #[trigger] encodings(t, text).contains(Err(raw)) && message == "tokenization error: "@
                + raw,
    }
}

/// The views of a result of `tokenize_text`.
pub open spec fn tokenize_view(r: Result<Vec<u32>, TokenizeError>) -> Result<
    Seq<u32>,
    Seq<char>,
> {
    match r {
        Ok(ids) => Ok(ids@),
        Err(e) => Err(e.message@),
    }
}

/// The token ids of a text, without special tokens; of a long text the last `max_length`.
pub fn tokenize_text(t: &Tokenizer, text: &str, max_length: usize) -> (r: Result<
    Vec<u32>,
    TokenizeError,
>)
    requires
        encodes_soundly(*t),
    ensures
        tokenized(*t, text@, max_length as nat, tokenize_view(r)),
{
    let answer = encode_ids(t, text);
    let ghost given = answer;
    let r = accept_encoding(answer, max_length);
    proof {
        match given {
            Ok(raw) => {
                assert(encodings(*t, text@).contains(Ok(raw@)));
            },
            Err(e) => {
                assert(encodings(*t, text@).contains(Err(e@)));
            },
        }
    }
    r
}

// ---------------------------------------------------------------------------
// Laws
// ---------------------------------------------------------------------------

/// A list that is too long is cut down to its last ids, as many as it may have; any other stays as
/// it is.
pub proof fn law_tail_is_kept(ids: Seq<u32>, max_length: nat)
    ensures
        kept_tail(ids, max_length).len() == (if ids.len() < max_length {
            ids.len()
        } else {
            max_length
        }),
        ids == ids.take(ids.len() - kept_tail(ids, max_length).len()) + kept_tail(ids, max_length),
{
    assert(ids =~= ids.take(ids.len() - kept_tail(ids, max_length).len()) + kept_tail(
        ids,
        max_length,
    ));
}

/// The ids of a text are the last ones of what the tokenizer makes of all of it, and a failure is
/// the tokenizer's own: `r` is what it answered.
pub proof fn law_tokenized(
    t: Tokenizer,
    text: Seq<char>,
    max_length: nat,
    outcome: Result<Seq<u32>, Seq<char>>,
) -> (r: Result<Seq<u32>, Seq<char>>)
    requires
        tokenized(t, text, max_length, outcome),
    ensures
        encodings(t, text).contains(r),
        match (r, outcome) {
            (Ok(raw), Ok(ids)) => (raw.len() <= max_length ==> ids == raw) && (raw.len()
                > max_length ==> ids == raw.skip(raw.len() - max_length)),
            (Err(raw), Err(message)) => message == "tokenization error: "@ + raw,
            _ => false,
        },
{
    match outcome {
        Ok(ids) => {
            let raw = choose|raw: Seq<u32>|
                #[trigger] encodings(t, text).contains(Ok(raw)) && ids == kept_tail(
                    raw,
                    max_length,
                );
            Ok(raw)
        },
        Err(message) => {
            let raw = choose|raw: Seq<char>|
                #[trigger] encodings(t, text).contains(Err(raw)) && message
                    == "tokenization error: "@ + raw;
            Err(raw)
        },
    }
}

/// Ids of which none is a known token without a special meaning make an empty text; otherwise the
/// text is what the tokenizer makes of all of them.
pub proof fn law_text_of_ids(t: Tokenizer, ids: Seq<u32>, i: int)
    ensures
        0 <= i < ids.len() && (token_at(t, ids[i]) matches Some(token) && !is_special(t, token))
            ==> text_of_ids(t, ids) == decoded(t, ids),
        (forall|k: int|
            0 <= k < ids.len() ==> (token_at(t, #[trigger] ids[k]) matches Some(token)
                ==> is_special(t, token))) ==> text_of_ids(t, ids) == Some(Seq::<char>::empty()),
{
    if 0 <= i < ids.len() && (token_at(t, ids[i]) matches Some(token) && !is_special(t, token)) {
        assert(speaks(t, ids[i]));
    }
}

/// An answer of the tokenizer is spoken of as it is.
pub proof fn law_answers_as_they_are(ids: Vec<u32>, message: String)
    ensures
        answer_of(Ok(ids)) == Ok::<Seq<u32>, Seq<char>>(ids@),
        answer_of(Err(message)) == Err::<Seq<u32>, Seq<char>>(message@),
        tokenize_view(Ok(ids)) == Ok::<Seq<u32>, Seq<char>>(ids@),
        tokenize_view(Err(TokenizeError { message })) == Err::<Seq<u32>, Seq<char>>(message@),
{
}

} // verus!
