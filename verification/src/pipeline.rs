//! The steps that a tokenizer is made of, and which of them can always answer.
use vstd::prelude::*;

use tokenizers::normalizers::replace::ReplacePattern;
use tokenizers::processors::template::{Piece, Sequence, Template};
use tokenizers::{
    DecoderWrapper, NormalizedString, Normalizer, NormalizerWrapper, PaddingStrategy,
    PostProcessorWrapper, PreTokenizerWrapper, Tokenizer,
};

use crate::text::{chars_of, is_space, is_white_space, owned_texts};
use crate::tokenize::vocabulary_of;

verus! {

/// The tokenizer of the `tokenizers` crate, carried through as it is.
#[verifier::external_type_specification]
#[verifier::external_body]
pub struct ExTokenizer(tokenizers::Tokenizer);

/// A normalizer of the `tokenizers` crate, carried through as it is.
#[verifier::external_type_specification]
#[verifier::external_body]
pub struct ExNormalizerWrapper(tokenizers::NormalizerWrapper);

/// A pre-tokenizer of the `tokenizers` crate, carried through as it is.
#[verifier::external_type_specification]
#[verifier::external_body]
pub struct ExPreTokenizerWrapper(tokenizers::PreTokenizerWrapper);

/// A post-processor of the `tokenizers` crate, carried through as it is.
#[verifier::external_type_specification]
#[verifier::external_body]
pub struct ExPostProcessorWrapper(tokenizers::PostProcessorWrapper);

/// A template of a post-processor of the `tokenizers` crate, carried through as it is.
#[verifier::external_type_specification]
#[verifier::external_body]
pub struct ExTemplate(tokenizers::processors::template::Template);

/// A decoder of the `tokenizers` crate, carried through as it is.
#[verifier::external_type_specification]
#[verifier::external_body]
pub struct ExDecoderWrapper(tokenizers::DecoderWrapper);

// ---------------------------------------------------------------------------
// Steps and sequences of steps
// ---------------------------------------------------------------------------

/// A step, or a sequence of steps, which can be sequences themselves.
pub enum Tree<T> {
    Leaf(T),
    Branch(Vec<Tree<T>>),
}

/// The steps of a tree, in the order in which they are done.
pub open spec fn leaves<T>(t: Tree<T>) -> Seq<T>
    decreases t, 0nat,
{
    match t {
        Tree::Leaf(x) => seq![x],
        Tree::Branch(v) => leaves_upto(v@, v@.len()),
    }
}

/// The steps of the first `n` of some trees.
pub open spec fn leaves_upto<T>(s: Seq<Tree<T>>, n: nat) -> Seq<T>
    decreases s, n,
{
    if n == 0 || n > s.len() {
        seq![]
    } else {
        leaves_upto(s, (n - 1) as nat) + leaves(s[n - 1])
    }
}

/// What some borrowed steps refer to.
pub open spec fn behind<T>(v: Seq<&T>) -> Seq<T> {
    v.map_values(|x: &T| *x)
}

fn gather<'a, T>(t: &'a Tree<T>, found: &mut Vec<&'a T>)
    ensures
        behind(final(found)@) == behind(old(found)@) + leaves(*t),
    decreases t,
{
    let ghost had = behind(found@);
    match t {
        Tree::Leaf(x) => {
            found.push(x);
            assert(behind(found@) =~= had + seq![*x]);
        },
        Tree::Branch(v) => {
            let mut i: usize = 0;
            assert(had + leaves_upto(v@, 0) =~= had);
            while i < v.len()
                invariant
                    *t == Tree::Branch(*v),
                    i <= v@.len(),
                    behind(found@) == had + leaves_upto(v@, i as nat),
                decreases v@.len() - i,
            {
                let ghost so_far = leaves_upto(v@, i as nat);
                assert(decreases_to!(*t => v@[i as int])) by {
                    assert(decreases_to!(*t => t->Branch_0));
                    assert(decreases_to!(t->Branch_0 => t->Branch_0@));
                    assert(decreases_to!(v@ => v@[i as int]));
                }
                gather(&v[i], found);
                proof {
                    assert(had + so_far + leaves(v@[i as int]) =~= had + (so_far + leaves(
                        v@[i as int],
                    )));
                }
                i = i + 1;
            }
        },
    }
}

/// The steps of a tree, in order.
pub fn steps_of<T>(t: &Tree<T>) -> (r: Vec<&T>)
    ensures
        behind(r@) == leaves(*t),
{
    let mut found: Vec<&T> = Vec::new();
    gather(t, &mut found);
    assert(behind(found@) =~= leaves(*t));
    found
}

// ---------------------------------------------------------------------------
// Truncation and padding
// ---------------------------------------------------------------------------

/// The stride and the length of the truncation that a tokenizer's own settings ask for.
pub uninterp spec fn truncation(t: Tokenizer) -> Option<(usize, usize)>;

/// The padding that a tokenizer's own settings ask for: the fixed length, where there is one, and
/// the number that the length is rounded up to a multiple of, where there is one.
pub uninterp spec fn padding(t: Tokenizer) -> Option<(Option<usize>, Option<usize>)>;

/// `Tokenizer::get_truncation`, as the stride and the length that it holds.
#[verifier::external_body]
fn truncation_of(t: &Tokenizer) -> (r: Option<(usize, usize)>)
    ensures
        r == truncation(*t),
{
    t.get_truncation().map(|p| (p.stride, p.max_length))
}

/// `Tokenizer::get_padding`, as the two lengths that it holds.
#[verifier::external_body]
fn padding_of(t: &Tokenizer) -> (r: Option<(Option<usize>, Option<usize>)>)
    ensures
        r == padding(*t),
{
    let p = t.get_padding()?;
    let fixed = match p.strategy {
        PaddingStrategy::Fixed(size) => Some(size),
        PaddingStrategy::BatchLongest => None,
    };
    Some((fixed, p.pad_to_multiple_of))
}

/// The settings of the truncation fit together: pieces of a text that overlap by the stride are
/// longer than the stride.
pub open spec fn truncates_soundly(t: Tokenizer) -> bool {
    match truncation(t) {
        Some((stride, max_length)) => max_length == 0 || stride < max_length,
        None => true,
    }
}

/// A length that may be missing.
pub open spec fn length_or_zero(x: Option<usize>) -> nat {
    match x {
        Some(n) => n as nat,
        None => 0,
    }
}

/// What the padding adds fits into the memory that a program can address, at 32 bytes a token.
pub open spec fn pads_soundly(t: Tokenizer) -> bool {
    match padding(t) {
        Some((fixed, multiple)) => length_or_zero(fixed) + length_or_zero(multiple) <= isize::MAX
            / 32,
        None => true,
    }
}

fn can_truncate(t: &Tokenizer) -> (r: bool)
    ensures
        r == truncates_soundly(*t),
{
    match truncation_of(t) {
        Some((stride, max_length)) => max_length == 0 || stride < max_length,
        None => true,
    }
}

fn can_pad(t: &Tokenizer) -> (r: bool)
    ensures
        r == pads_soundly(*t),
{
    match padding_of(t) {
        Some((fixed, multiple)) => {
            let limit: usize = (isize::MAX / 32) as usize;
            let a: usize = match fixed {
                Some(n) => n,
                None => 0,
            };
            let b: usize = match multiple {
                Some(n) => n,
                None => 0,
            };
            a <= limit && b <= limit - a
        },
        None => true,
    }
}

// ---------------------------------------------------------------------------
// Normalizer
// ---------------------------------------------------------------------------

/// The kinds of normalizers.
#[derive(Clone, Copy, Debug, PartialEq, Eq, Structural)]
pub enum NormalizerKind {
    Bert,
    Strip,
    StripAccents,
    Nfc,
    Nfd,
    Nfkc,
    Nfkd,
    Sequence,
    Lowercase,
    Nmt,
    Precompiled,
    Replace,
    Prepend,
    ByteLevel,
}

/// The normalizer of a tokenizer.
pub uninterp spec fn normalizer(t: Tokenizer) -> Option<NormalizerWrapper>;

/// The steps of a normalizer, in order.
pub uninterp spec fn normalizer_steps(n: NormalizerWrapper) -> Seq<NormalizerWrapper>;

/// The kind of a normalizer.
pub uninterp spec fn normalizer_kind(n: NormalizerWrapper) -> NormalizerKind;

/// The text that a normalizer puts in front, where it puts one.
pub uninterp spec fn front_text(n: NormalizerWrapper) -> Option<Seq<char>>;

/// The text that a normalizer replaces, where it replaces one.
pub uninterp spec fn sought_text(n: NormalizerWrapper) -> Option<Seq<char>>;

/// The text that a normalizer puts in the place of another, where it does.
pub uninterp spec fn new_text(n: NormalizerWrapper) -> Option<Seq<char>>;

/// What a normalizer makes of a text; `None` for a failure.
pub uninterp spec fn normal_form(n: NormalizerWrapper, text: Seq<char>) -> Option<Seq<char>>;

/// `Tokenizer::get_normalizer`.
#[verifier::external_body]
fn normalizer_of(t: &Tokenizer) -> (r: Option<&NormalizerWrapper>)
    ensures
        match r {
            Some(n) => normalizer(*t) == Some(*n),
            None => normalizer(*t) is None,
        },
{
    t.get_normalizer()
}

/// `NormalizerWrapper`: the normalizers of a sequence, or the one that it is.
#[verifier::external_body]
fn normalizer_tree(n: &NormalizerWrapper) -> (r: Tree<NormalizerWrapper>)
    ensures
        leaves(r) == normalizer_steps(*n),
{
    match n {
        NormalizerWrapper::Sequence(s) => {
            Tree::Branch(s.as_ref().iter().map(normalizer_tree).collect())
        },
        step => Tree::Leaf(step.clone()),
    }
}

/// `NormalizerWrapper`: which of its variants it is.
#[verifier::external_body]
fn kind_of_normalizer(n: &NormalizerWrapper) -> (r: NormalizerKind)
    ensures
        r == normalizer_kind(*n),
{
    match n {
        NormalizerWrapper::BertNormalizer(_) => NormalizerKind::Bert,
        NormalizerWrapper::StripNormalizer(_) => NormalizerKind::Strip,
        NormalizerWrapper::StripAccents(_) => NormalizerKind::StripAccents,
        NormalizerWrapper::NFC(_) => NormalizerKind::Nfc, NormalizerWrapper::NFD(_) => NormalizerKind::Nfd,
        NormalizerWrapper::NFKC(_) => NormalizerKind::Nfkc,
        NormalizerWrapper::NFKD(_) => NormalizerKind::Nfkd,
        NormalizerWrapper::Sequence(_) => NormalizerKind::Sequence,
        NormalizerWrapper::Lowercase(_) => NormalizerKind::Lowercase,
        NormalizerWrapper::Nmt(_) => NormalizerKind::Nmt,
        NormalizerWrapper::Precompiled(_) => NormalizerKind::Precompiled,
        NormalizerWrapper::Replace(_) => NormalizerKind::Replace,
        NormalizerWrapper::Prepend(_) => NormalizerKind::Prepend,
        NormalizerWrapper::ByteLevel(_) => NormalizerKind::ByteLevel,
    }
}

/// The field `prepend` of a `Prepend`.
#[verifier::external_body]
fn front_of(n: &NormalizerWrapper) -> (r: Option<String>)
    ensures
        crate::ingest::files::optional_text(r) == front_text(*n),
{
    match n {
        NormalizerWrapper::Prepend(p) => Some(p.prepend.clone()),
        _ => None,
    }
}

/// The field `pattern` of a `Replace`, where it is a text and not a regular expression. The field
/// is private: it is read off the serialized form.
#[verifier::external_body]
fn sought_by(n: &NormalizerWrapper) -> (r: Option<String>)
    ensures
        crate::ingest::files::optional_text(r) == sought_text(*n),
{
    let shown = match n {
        NormalizerWrapper::Replace(p) => serde_json::to_value(p).ok()?,
        _ => return None,
    };
    match serde_json::from_value(shown["pattern"].clone()).ok()? {
        ReplacePattern::String(s) => Some(s),
        ReplacePattern::Regex(_) => None,
    }
}

/// The field `content` of a `Replace`.
#[verifier::external_body]
fn put_by(n: &NormalizerWrapper) -> (r: Option<String>)
    ensures
        crate::ingest::files::optional_text(r) == new_text(*n),
{
    match n {
        NormalizerWrapper::Replace(p) => Some(p.content.clone()),
        _ => None,
    }
}

/// `NormalizedString::from` and `Normalizer::normalize`, and the normalized text. The text depends
/// on the normalizer and the text that it is given alone.
#[verifier::external_body]
fn normalize(n: &NormalizerWrapper, text: &str) -> (r: Option<String>)
    requires
        after_steps(normalizer_steps(*n), false) is Some,
    ensures
        match r {
            Some(s) => normal_form(*n, text@) == Some(s@),
            None => normal_form(*n, text@) is None,
        },
{
    let mut s = NormalizedString::from(text);
    n.normalize(&mut s).ok()?;
    Some(s.get().to_string())
}

/// A text that is there and not empty.
pub open spec fn filled(text: Option<Seq<char>>) -> bool {
    text is Some && text->Some_0.len() > 0
}

/// Whether a text may begin with characters that stand for nothing in the original text after a
/// step, given whether it may before; `None` where the step may panic. An insertion in front of
/// the first character makes such a text, and a step that goes over the whole of it then counts
/// more characters than it finds. A precompiled table is used unchecked.
pub open spec fn after_step(step: NormalizerWrapper, unmoored: bool) -> Option<bool> {
    match normalizer_kind(step) {
        NormalizerKind::Prepend => Some(unmoored || !filled(front_text(step))),
        NormalizerKind::Replace => Some(
            unmoored || (filled(new_text(step)) && !filled(sought_text(step))),
        ),
        NormalizerKind::Precompiled | NormalizerKind::Sequence => None,
        NormalizerKind::Bert
        | NormalizerKind::Strip
        | NormalizerKind::StripAccents
        | NormalizerKind::Nfc
        | NormalizerKind::Nfd
        | NormalizerKind::Nfkc
        | NormalizerKind::Nfkd
        | NormalizerKind::Lowercase
        | NormalizerKind::Nmt
        | NormalizerKind::ByteLevel => if unmoored {
            None
        } else {
            Some(false)
        },
    }
}

/// The same after several steps.
pub open spec fn after_steps(steps: Seq<NormalizerWrapper>, unmoored: bool) -> Option<bool>
    decreases steps.len(),
{
    if steps.len() == 0 {
        Some(unmoored)
    } else {
        match after_step(steps[0], unmoored) {
            Some(next) => after_steps(steps.skip(1), next),
            None => None,
        }
    }
}

/// The same after the whole normalizer of a tokenizer.
pub open spec fn after_normalizer(t: Tokenizer) -> Option<bool> {
    match normalizer(t) {
        Some(n) => after_steps(normalizer_steps(n), false),
        None => Some(false),
    }
}

fn is_filled(text: &Option<String>) -> (r: bool)
    ensures
        r == filled(crate::ingest::files::optional_text(*text)),
{
    match text {
        Some(s) => s.as_str().unicode_len() > 0,
        None => false,
    }
}

fn follow_step(step: &NormalizerWrapper, unmoored: bool) -> (r: Option<bool>)
    ensures
        r == after_step(*step, unmoored),
{
    match kind_of_normalizer(step) {
        NormalizerKind::Prepend => Some(unmoored || !is_filled(&front_of(step))),
        NormalizerKind::Replace => Some(
            unmoored || (is_filled(&put_by(step)) && !is_filled(&sought_by(step))),
        ),
        NormalizerKind::Precompiled | NormalizerKind::Sequence => None,
        NormalizerKind::Bert
        | NormalizerKind::Strip
        | NormalizerKind::StripAccents
        | NormalizerKind::Nfc
        | NormalizerKind::Nfd
        | NormalizerKind::Nfkc
        | NormalizerKind::Nfkd
        | NormalizerKind::Lowercase
        | NormalizerKind::Nmt
        | NormalizerKind::ByteLevel => if unmoored {
            None
        } else {
            Some(false)
        },
    }
}

fn follow_normalizer(t: &Tokenizer) -> (r: Option<bool>)
    ensures
        r == after_normalizer(*t),
{
    let n = match normalizer_of(t) {
        Some(n) => n,
        None => {
            return Some(false);
        },
    };
    let tree = normalizer_tree(n);
    let steps = steps_of(&tree);
    let ghost all = behind(steps@);
    let mut unmoored = false;
    let mut i: usize = 0;
    assert(all.skip(0) =~= all);
    while i < steps.len()
        invariant
            normalizer(*t) == Some(*n),
            all == behind(steps@),
            all == normalizer_steps(*n),
            i <= all.len(),
            after_steps(all, false) == after_steps(all.skip(i as int), unmoored),
        decreases all.len() - i,
    {
        assert(all.skip(i as int)[0] == *steps@[i as int]);
        assert(all.skip(i as int).skip(1) =~= all.skip(i + 1));
        match follow_step(steps[i], unmoored) {
            Some(next) => {
                unmoored = next;
            },
            None => {
                return None;
            },
        }
        i = i + 1;
    }
    Some(unmoored)
}

// ---------------------------------------------------------------------------
// Pre-tokenizer
// ---------------------------------------------------------------------------

/// The kinds of pre-tokenizers.
#[derive(Clone, Copy, Debug, PartialEq, Eq, Structural)]
pub enum PreTokenizerKind {
    Bert,
    ByteLevel,
    Delimiter,
    Metaspace,
    Whitespace,
    Sequence,
    Split,
    Punctuation,
    WhitespaceSplit,
    Digits,
    UnicodeScripts,
    /// Cuts pieces of this many characters.
    FixedLength { length: usize },
}

/// The pre-tokenizer of a tokenizer.
pub uninterp spec fn pre_tokenizer(t: Tokenizer) -> Option<PreTokenizerWrapper>;

/// The steps of a pre-tokenizer, in order.
pub uninterp spec fn pre_tokenizer_steps(p: PreTokenizerWrapper) -> Seq<PreTokenizerWrapper>;

/// The kind of a pre-tokenizer.
pub uninterp spec fn pre_tokenizer_kind(p: PreTokenizerWrapper) -> PreTokenizerKind;

/// `Tokenizer::get_pre_tokenizer`.
#[verifier::external_body]
fn pre_tokenizer_of(t: &Tokenizer) -> (r: Option<&PreTokenizerWrapper>)
    ensures
        match r {
            Some(p) => pre_tokenizer(*t) == Some(*p),
            None => pre_tokenizer(*t) is None,
        },
{
    t.get_pre_tokenizer()
}

/// `PreTokenizerWrapper`: the pre-tokenizers of a sequence, or the one that it is.
#[verifier::external_body]
fn pre_tokenizer_tree(p: &PreTokenizerWrapper) -> (r: Tree<PreTokenizerWrapper>)
    ensures
        leaves(r) == pre_tokenizer_steps(*p),
{
    match p {
        PreTokenizerWrapper::Sequence(s) => {
            Tree::Branch(s.as_ref().iter().map(pre_tokenizer_tree).collect())
        },
        step => Tree::Leaf(step.clone()),
    }
}

/// `PreTokenizerWrapper`: which of its variants it is, with the length of the pieces where it is
/// fixed.
#[verifier::external_body]
fn kind_of_pre_tokenizer(p: &PreTokenizerWrapper) -> (r: PreTokenizerKind)
    ensures
        r == pre_tokenizer_kind(*p),
{
    match p {
        PreTokenizerWrapper::BertPreTokenizer(_) => PreTokenizerKind::Bert,
        PreTokenizerWrapper::ByteLevel(_) => PreTokenizerKind::ByteLevel,
        PreTokenizerWrapper::Delimiter(_) => PreTokenizerKind::Delimiter,
        PreTokenizerWrapper::Metaspace(_) => PreTokenizerKind::Metaspace,
        PreTokenizerWrapper::Whitespace(_) => PreTokenizerKind::Whitespace,
        PreTokenizerWrapper::Sequence(_) => PreTokenizerKind::Sequence,
        PreTokenizerWrapper::Split(_) => PreTokenizerKind::Split,
        PreTokenizerWrapper::Punctuation(_) => PreTokenizerKind::Punctuation,
        PreTokenizerWrapper::WhitespaceSplit(_) => PreTokenizerKind::WhitespaceSplit,
        PreTokenizerWrapper::Digits(_) => PreTokenizerKind::Digits,
        PreTokenizerWrapper::UnicodeScripts(_) => PreTokenizerKind::UnicodeScripts,
        PreTokenizerWrapper::FixedLength(f) => PreTokenizerKind::FixedLength { length: f.length },
    }
}

/// A step answers on a text that may begin with characters that stand for nothing. The one that
/// writes bytes as characters goes over the whole text, the others cut it.
pub open spec fn cuts_soundly(step: PreTokenizerWrapper, unmoored: bool) -> bool {
    match pre_tokenizer_kind(step) {
        PreTokenizerKind::FixedLength { length } => length > 0,
        PreTokenizerKind::ByteLevel => !unmoored,
        PreTokenizerKind::Sequence => false,
        PreTokenizerKind::Bert
        | PreTokenizerKind::Delimiter
        | PreTokenizerKind::Metaspace
        | PreTokenizerKind::Whitespace
        | PreTokenizerKind::Split
        | PreTokenizerKind::Punctuation
        | PreTokenizerKind::WhitespaceSplit
        | PreTokenizerKind::Digits
        | PreTokenizerKind::UnicodeScripts => true,
    }
}

/// The normalizer of a tokenizer answers on every text, and so does its pre-tokenizer on what
/// comes out.
pub open spec fn splits_soundly(t: Tokenizer) -> bool {
    match after_normalizer(t) {
        Some(unmoored) => match pre_tokenizer(t) {
            Some(p) => forall|i: int|
                0 <= i < pre_tokenizer_steps(p).len() ==> cuts_soundly(
                    #[trigger] pre_tokenizer_steps(p)[i],
                    unmoored,
                ),
            None => true,
        },
        None => false,
    }
}

fn can_cut(step: &PreTokenizerWrapper, unmoored: bool) -> (r: bool)
    ensures
        r == cuts_soundly(*step, unmoored),
{
    match kind_of_pre_tokenizer(step) {
        PreTokenizerKind::FixedLength { length } => length > 0,
        PreTokenizerKind::ByteLevel => !unmoored,
        PreTokenizerKind::Sequence => false,
        PreTokenizerKind::Bert
        | PreTokenizerKind::Delimiter
        | PreTokenizerKind::Metaspace
        | PreTokenizerKind::Whitespace
        | PreTokenizerKind::Split
        | PreTokenizerKind::Punctuation
        | PreTokenizerKind::WhitespaceSplit
        | PreTokenizerKind::Digits
        | PreTokenizerKind::UnicodeScripts => true,
    }
}

fn can_split(t: &Tokenizer) -> (r: bool)
    ensures
        r == splits_soundly(*t),
{
    let unmoored = match follow_normalizer(t) {
        Some(unmoored) => unmoored,
        None => {
            return false;
        },
    };
    let p = match pre_tokenizer_of(t) {
        Some(p) => p,
        None => {
            return true;
        },
    };
    let tree = pre_tokenizer_tree(p);
    let steps = steps_of(&tree);
    let ghost all = behind(steps@);
    let mut i: usize = 0;
    while i < steps.len()
        invariant
            after_normalizer(*t) == Some(unmoored),
            pre_tokenizer(*t) == Some(*p),
            all == behind(steps@),
            all == pre_tokenizer_steps(*p),
            i <= all.len(),
            forall|k: int| 0 <= k < i ==> cuts_soundly(#[trigger] all[k], unmoored),
        decreases all.len() - i,
    {
        assert(all[i as int] == *steps@[i as int]);
        if !can_cut(steps[i], unmoored) {
            assert(!cuts_soundly(
                pre_tokenizer_steps(pre_tokenizer(*t)->Some_0)[i as int],
                unmoored,
            ));
            return false;
        }
        i = i + 1;
    }
    true
}

// ---------------------------------------------------------------------------
// Added tokens
// ---------------------------------------------------------------------------

/// The texts of the tokens that were added to a tokenizer's vocabulary.
pub uninterp spec fn added_texts(t: Tokenizer) -> Set<Seq<char>>;

/// Of each token that was added, whether it takes the white space on its left along, and that on
/// its right.
pub uninterp spec fn added_strips(t: Tokenizer) -> Set<(bool, bool)>;

/// Added tokens are looked for by what the normalizer that the tokenizer has makes of them, and
/// not by what another made of them that it had before.
pub uninterp spec fn fresh(t: Tokenizer) -> bool;

/// `Tokenizer::get_added_vocabulary` and `AddedVocabulary::get_vocab`: the texts that it holds, in
/// no order.
#[verifier::external_body]
fn added_texts_of(t: &Tokenizer) -> (r: Vec<String>)
    ensures
        owned_texts(r@).to_set() == added_texts(*t),
{
    t.get_added_vocabulary().get_vocab().keys().cloned().collect()
}

/// `Tokenizer::get_added_tokens_decoder`: two settings of each token that it holds, in no order.
#[verifier::external_body]
fn added_strips_of(t: &Tokenizer) -> (r: Vec<(bool, bool)>)
    ensures
        r@.to_set() == added_strips(*t),
{
    t.get_added_tokens_decoder().values().map(|a| (a.lstrip, a.rstrip)).collect()
}

/// Two tokenizers have the same settings and the same tokens.
pub open spec fn same_settings(a: Tokenizer, b: Tokenizer) -> bool {
    &&& normalizer(a) == normalizer(b)
    &&& pre_tokenizer(a) == pre_tokenizer(b)
    &&& added_texts(a) == added_texts(b)
    &&& added_strips(a) == added_strips(b)
    &&& truncation(a) == truncation(b)
    &&& post_processor(a) == post_processor(b)
    &&& padding(a) == padding(b)
    &&& decoder(a) == decoder(b)
    &&& crate::tokenize::vocabulary(a) == crate::tokenize::vocabulary(b)
}

/// `Tokenizer::add_tokens` with no tokens: none is added, and what the others are looked for by is
/// made anew. It normalizes their texts, so that a normalizer that can panic is left out.
#[verifier::external_body]
fn refresh(t: &mut Tokenizer)
    requires
        after_normalizer(*old(t)) is Some,
    ensures
        fresh(*final(t)),
        same_settings(*old(t), *final(t)),
{
    t.add_tokens(&[]);
}

/// Some character is not white space.
pub open spec fn has_ink(s: Seq<char>) -> bool {
    exists|i: int| 0 <= i < s.len() && !is_space(#[trigger] s[i])
}

/// One token takes the white space on its right along and another only that on its left, so that
/// both can claim the same.
pub open spec fn contests_spaces(strips: Set<(bool, bool)>) -> bool {
    (strips.contains((true, true)) || strips.contains((false, true))) && strips.contains(
        (true, false),
    )
}

/// What the normalizer of a tokenizer makes of a text.
pub open spec fn normal_text(t: Tokenizer, text: Seq<char>) -> Option<Seq<char>> {
    match normalizer(t) {
        Some(n) => normal_form(n, text),
        None => Some(text),
    }
}

/// An added token can be cut out of every text: something of it is left in a normalized text,
/// and, where white space is contested, something that is no white space.
pub open spec fn found_soundly(t: Tokenizer, text: Seq<char>) -> bool {
    match normal_text(t, text) {
        Some(form) => form.len() > 0 && (contests_spaces(added_strips(t)) ==> has_ink(text)
            && has_ink(form)),
        None => false,
    }
}

/// Every added token can be cut out of every text.
pub open spec fn finds_soundly(t: Tokenizer) -> bool {
    forall|text: Seq<char>| #[trigger]
        added_texts(t).contains(text) ==> found_soundly(t, text)
}

fn inked(s: &str) -> (r: bool)
    ensures
        r == has_ink(s@),
{
    let cs = chars_of(s);
    let mut i: usize = 0;
    while i < cs.len()
        invariant
            cs@ == s@,
            i <= cs@.len(),
            forall|k: int| 0 <= k < i ==> is_space(#[trigger] s@[k]),
        decreases cs@.len() - i,
    {
        if !is_white_space(cs[i]) {
            assert(!is_space(s@[i as int]));
            return true;
        }
        i = i + 1;
    }
    false
}

fn contested(strips: &Vec<(bool, bool)>) -> (r: bool)
    ensures
        r == contests_spaces(strips@.to_set()),
{
    let mut right = false;
    let mut left_only = false;
    let mut i: usize = 0;
    while i < strips.len()
        invariant
            i <= strips@.len(),
            right == exists|k: int| 0 <= k < i && (#[trigger] strips@[k]).1,
            left_only == exists|k: int| 0 <= k < i && #[trigger] strips@[k] == (true, false),
        decreases strips@.len() - i,
    {
        let (l, r) = strips[i];
        assert(strips@[i as int] == (l, r));
        right = right || r;
        left_only = left_only || (l && !r);
        i = i + 1;
    }
    proof {
        let set = strips@.to_set();
        if right {
            let k = choose|k: int| 0 <= k < strips@.len() && (#[trigger] strips@[k]).1;
            assert(set.contains(strips@[k]));
            assert(strips@[k] == (true, true) || strips@[k] == (false, true));
        }
        if left_only {
            let k = choose|k: int|
                0 <= k < strips@.len() && #[trigger] strips@[k] == (true, false);
            assert(set.contains(strips@[k]));
        }
    }
    right && left_only
}

fn can_find(t: &Tokenizer) -> (r: bool)
    requires
        splits_soundly(*t),
    ensures
        r == finds_soundly(*t),
{
    let texts = added_texts_of(t);
    let contest = contested(&added_strips_of(t));
    let ghost all = owned_texts(texts@);
    let mut i: usize = 0;
    while i < texts.len()
        invariant
            splits_soundly(*t),
            all == owned_texts(texts@),
            all.to_set() == added_texts(*t),
            contest == contests_spaces(added_strips(*t)),
            i <= texts@.len(),
            forall|k: int| 0 <= k < i ==> found_soundly(*t, #[trigger] all[k]),
        decreases texts@.len() - i,
    {
        let text = texts[i].as_str();
        assert(all[i as int] == text@);
        let form = match normalizer_of(t) {
            Some(n) => normalize(n, text),
            None => Some(text.to_owned()),
        };
        let found = match &form {
            Some(form) => {
                let left = form.as_str().unicode_len() > 0;
                left && (!contest || (inked(text) && inked(form.as_str())))
            },
            None => false,
        };
        if !found {
            assert(added_texts(*t).contains(all[i as int]));
            assert(!found_soundly(*t, all[i as int]));
            return false;
        }
        i = i + 1;
    }
    proof {
        assert forall|text: Seq<char>| #[trigger]
            added_texts(*t).contains(text) implies found_soundly(*t, text) by {
            let k = choose|k: int| 0 <= k < all.len() && all[k] == text;
            assert(found_soundly(*t, all[k]));
        }
    }
    true
}

// ---------------------------------------------------------------------------
// Post-processor
// ---------------------------------------------------------------------------

/// A piece of a template.
#[derive(Clone, Copy, Debug, PartialEq, Eq, Structural)]
pub enum TemplatePiece {
    /// The first sequence.
    First,
    /// The second sequence.
    Second,
    /// A special token.
    Special,
}

/// The kinds of post-processors.
pub enum PostProcessorKind {
    Roberta,
    Bert,
    ByteLevel,
    /// Lays the sequences out by a template, one for a single sequence and one for a pair.
    Template { single: Template, pair: Template },
    Sequence,
}

/// The post-processor of a tokenizer.
pub uninterp spec fn post_processor(t: Tokenizer) -> Option<PostProcessorWrapper>;

/// The steps of a post-processor, in order.
pub uninterp spec fn post_processor_steps(p: PostProcessorWrapper) -> Seq<PostProcessorWrapper>;

/// The kind of a post-processor.
pub uninterp spec fn post_processor_kind(p: PostProcessorWrapper) -> PostProcessorKind;

/// The pieces of a template, in order.
pub uninterp spec fn template_pieces(template: Template) -> Seq<TemplatePiece>;

/// `Tokenizer::get_post_processor`.
#[verifier::external_body]
fn post_processor_of(t: &Tokenizer) -> (r: Option<&PostProcessorWrapper>)
    ensures
        match r {
            Some(p) => post_processor(*t) == Some(*p),
            None => post_processor(*t) is None,
        },
{
    t.get_post_processor()
}

/// `PostProcessorWrapper`: the post-processors of a sequence, or the one that it is.
#[verifier::external_body]
fn post_processor_tree(p: &PostProcessorWrapper) -> (r: Tree<PostProcessorWrapper>)
    ensures
        leaves(r) == post_processor_steps(*p),
{
    match p {
        PostProcessorWrapper::Sequence(s) => {
            Tree::Branch(s.as_ref().iter().map(post_processor_tree).collect())
        },
        step => Tree::Leaf(step.clone()),
    }
}

/// `PostProcessorWrapper`: which of its variants it is, with the two templates where it has them.
#[verifier::external_body]
fn kind_of_post_processor(p: &PostProcessorWrapper) -> (r: PostProcessorKind)
    ensures
        r == post_processor_kind(*p),
{
    match p {
        PostProcessorWrapper::Roberta(_) => PostProcessorKind::Roberta,
        PostProcessorWrapper::Bert(_) => PostProcessorKind::Bert,
        PostProcessorWrapper::ByteLevel(_) => PostProcessorKind::ByteLevel,
        PostProcessorWrapper::Template(l) => {
            PostProcessorKind::Template { single: l.single.clone(), pair: l.get_pair().clone() }
        },
        PostProcessorWrapper::Sequence(_) => PostProcessorKind::Sequence,
    }
}

/// The variants of the `Piece`s of a `Template`, which it keeps private: they are read off its
/// serialized form.
#[verifier::external_body]
fn pieces_of(template: &Template) -> (r: Vec<TemplatePiece>)
    ensures
        r@ == template_pieces(*template),
{
    let shown = serde_json::to_value(template).unwrap_or_default();
    let pieces: Vec<Piece> = serde_json::from_value(shown).unwrap_or_default();
    pieces.iter().map(|p| match p {
        Piece::Sequence { id: Sequence::A, .. } => TemplatePiece::First,
        Piece::Sequence { id: Sequence::B, .. } => TemplatePiece::Second,
        Piece::SpecialToken { .. } => TemplatePiece::Special,
    }).collect()
}

/// How many pieces are sequences. Special tokens are left out.
pub open spec fn sequences_in(pieces: Seq<TemplatePiece>) -> nat
    decreases pieces.len(),
{
    if pieces.len() == 0 {
        0
    } else {
        sequences_in(pieces.drop_last()) + (if pieces.last() == TemplatePiece::Special {
            0nat
        } else {
            1nat
        })
    }
}

/// How many sequences come out of a step that `n` go into; `None` where the step panics: a
/// template takes one sequence or two, and one is not laid out where a second is asked for.
pub open spec fn laid_out(step: PostProcessorWrapper, n: nat) -> Option<nat> {
    match post_processor_kind(step) {
        PostProcessorKind::Roberta | PostProcessorKind::Bert | PostProcessorKind::ByteLevel => Some(
            n,
        ),
        PostProcessorKind::Template { single, pair } => if n == 1 && !template_pieces(
            single,
        ).contains(TemplatePiece::Second) {
            Some(sequences_in(template_pieces(single)))
        } else if n == 2 {
            Some(sequences_in(template_pieces(pair)))
        } else {
            None
        },
        PostProcessorKind::Sequence => None,
    }
}

/// How many sequences come out of several steps that `n` go into.
pub open spec fn laid_out_by(steps: Seq<PostProcessorWrapper>, n: nat) -> Option<nat>
    decreases steps.len(),
{
    if steps.len() == 0 {
        Some(n)
    } else {
        match laid_out(steps[0], n) {
            Some(m) => laid_out_by(steps.skip(1), m),
            None => None,
        }
    }
}

/// The post-processor of a tokenizer answers on a single sequence.
pub open spec fn finishes_soundly(t: Tokenizer) -> bool {
    match post_processor(t) {
        Some(p) => laid_out_by(post_processor_steps(p), 1) is Some,
        None => true,
    }
}

fn count_sequences(pieces: &Vec<TemplatePiece>) -> (r: usize)
    ensures
        r == sequences_in(pieces@),
{
    let ghost all = pieces@;
    let mut n: usize = 0;
    let mut i: usize = 0;
    assert(all.take(0) =~= seq![]);
    while i < pieces.len()
        invariant
            all == pieces@,
            i <= all.len(),
            n <= i,
            n == sequences_in(all.take(i as int)),
        decreases all.len() - i,
    {
        assert(all.take(i + 1).drop_last() =~= all.take(i as int));
        if pieces[i] != TemplatePiece::Special {
            n = n + 1;
        }
        i = i + 1;
    }
    assert(all.take(all.len() as int) =~= all);
    n
}

fn asks_for_second(pieces: &Vec<TemplatePiece>) -> (r: bool)
    ensures
        r == pieces@.contains(TemplatePiece::Second),
{
    let mut i: usize = 0;
    while i < pieces.len()
        invariant
            i <= pieces@.len(),
            forall|k: int| 0 <= k < i ==> pieces@[k] != TemplatePiece::Second,
        decreases pieces@.len() - i,
    {
        if pieces[i] == TemplatePiece::Second {
            return true;
        }
        i = i + 1;
    }
    false
}

fn lay_out(step: &PostProcessorWrapper, n: usize) -> (r: Option<usize>)
    ensures
        match r {
            Some(m) => laid_out(*step, n as nat) == Some(m as nat),
            None => laid_out(*step, n as nat) is None,
        },
{
    match kind_of_post_processor(step) {
        PostProcessorKind::Roberta | PostProcessorKind::Bert | PostProcessorKind::ByteLevel => Some(
            n,
        ),
        PostProcessorKind::Template { single, pair } => if n == 1 {
            let pieces = pieces_of(&single);
            if asks_for_second(&pieces) {
                None
            } else {
                Some(count_sequences(&pieces))
            }
        } else if n == 2 {
            Some(count_sequences(&pieces_of(&pair)))
        } else {
            None
        },
        PostProcessorKind::Sequence => None,
    }
}

fn can_finish(t: &Tokenizer) -> (r: bool)
    ensures
        r == finishes_soundly(*t),
{
    let p = match post_processor_of(t) {
        Some(p) => p,
        None => {
            return true;
        },
    };
    let tree = post_processor_tree(p);
    let steps = steps_of(&tree);
    let ghost all = behind(steps@);
    let mut n: usize = 1;
    let mut i: usize = 0;
    assert(all.skip(0) =~= all);
    while i < steps.len()
        invariant
            post_processor(*t) == Some(*p),
            all == post_processor_steps(*p),
            all == behind(steps@),
            i <= all.len(),
            laid_out_by(all, 1) == laid_out_by(all.skip(i as int), n as nat),
        decreases all.len() - i,
    {
        assert(all.skip(i as int)[0] == *steps@[i as int]);
        assert(all.skip(i as int).skip(1) =~= all.skip(i + 1));
        match lay_out(steps[i], n) {
            Some(m) => {
                n = m;
            },
            None => {
                return false;
            },
        }
        i = i + 1;
    }
    true
}

// ---------------------------------------------------------------------------
// Decoder
// ---------------------------------------------------------------------------

/// The kinds of decoders.
#[derive(Clone, Copy, Debug, PartialEq, Eq, Structural)]
pub enum DecoderKind {
    Bpe,
    ByteLevel,
    WordPiece,
    Metaspace,
    Ctc,
    Sequence,
    Replace,
    Fuse,
    /// Takes a character off the two ends of each token, up to `start` and `stop` times.
    Strip { content: char, start: usize, stop: usize },
    ByteFallback,
}

/// What is known of the tokens that a decoder is given.
#[derive(Clone, Copy, Debug, PartialEq, Eq, Structural)]
pub enum Given {
    /// There are some, and all are tokens of the vocabulary.
    Known,
    /// There are some.
    Filled,
    /// There may be none.
    Open,
}

/// The decoder of a tokenizer.
pub uninterp spec fn decoder(t: Tokenizer) -> Option<DecoderWrapper>;

/// The steps of a decoder, in order.
pub uninterp spec fn decoder_steps(d: DecoderWrapper) -> Seq<DecoderWrapper>;

/// The kind of a decoder.
pub uninterp spec fn decoder_kind(d: DecoderWrapper) -> DecoderKind;

/// `Tokenizer::get_decoder`.
#[verifier::external_body]
fn decoder_of(t: &Tokenizer) -> (r: Option<&DecoderWrapper>)
    ensures
        match r {
            Some(d) => decoder(*t) == Some(*d),
            None => decoder(*t) is None,
        },
{
    t.get_decoder()
}

/// `DecoderWrapper`: the decoders of a sequence, or the one that it is.
#[verifier::external_body]
fn decoder_tree(d: &DecoderWrapper) -> (r: Tree<DecoderWrapper>)
    ensures
        leaves(r) == decoder_steps(*d),
{
    match d {
        DecoderWrapper::Sequence(s) => {
            Tree::Branch(s.get_decoders().iter().map(decoder_tree).collect())
        },
        step => Tree::Leaf(step.clone()),
    }
}

/// `DecoderWrapper`: which of its variants it is, with what it takes off where it does.
#[verifier::external_body]
fn kind_of_decoder(d: &DecoderWrapper) -> (r: DecoderKind)
    ensures
        r == decoder_kind(*d),
{
    match d {
        DecoderWrapper::BPE(_) => DecoderKind::Bpe,
        DecoderWrapper::ByteLevel(_) => DecoderKind::ByteLevel,
        DecoderWrapper::WordPiece(_) => DecoderKind::WordPiece,
        DecoderWrapper::Metaspace(_) => DecoderKind::Metaspace,
        DecoderWrapper::CTC(_) => DecoderKind::Ctc,
        DecoderWrapper::Sequence(_) => DecoderKind::Sequence,
        DecoderWrapper::Replace(_) => DecoderKind::Replace,
        DecoderWrapper::Fuse(_) => DecoderKind::Fuse,
        DecoderWrapper::Strip(s) => {
            DecoderKind::Strip { content: s.content, start: s.start, stop: s.stop }
        },
        DecoderWrapper::ByteFallback(_) => DecoderKind::ByteFallback,
    }
}

/// A character can be taken off the two ends of a token: the ends do not meet.
pub open spec fn strips_soundly(token: Seq<char>, content: char, start: nat, stop: nat) -> bool {
    stop == 0 || start + stop <= token.len() || exists|i: int|
        0 <= i < token.len() && #[trigger] token[i] != content
}

/// What is known of the tokens after a step, given what is known before; `None` where the step may
/// panic. One that takes characters off the ends of a token does where the ends meet, and one that
/// counts its tokens down where there are none.
pub open spec fn after_decoding(
    step: DecoderWrapper,
    given: Given,
    known: Set<Seq<char>>,
) -> Option<Given> {
    match decoder_kind(step) {
        DecoderKind::Bpe => if given == Given::Open {
            None
        } else {
            Some(Given::Filled)
        },
        DecoderKind::ByteLevel | DecoderKind::Fuse => Some(Given::Filled),
        DecoderKind::Ctc => Some(Given::Open),
        DecoderKind::WordPiece
        | DecoderKind::Metaspace
        | DecoderKind::Replace
        | DecoderKind::ByteFallback => if given == Given::Open {
            Some(Given::Open)
        } else {
            Some(Given::Filled)
        },
        DecoderKind::Strip { content, start, stop } => if stop == 0 || (given == Given::Known
            && forall|token: Seq<char>| #[trigger]
            known.contains(token) ==> strips_soundly(token, content, start as nat, stop as nat)) {
            if given == Given::Open {
                Some(Given::Open)
            } else {
                Some(Given::Filled)
            }
        } else {
            None
        },
        DecoderKind::Sequence => None,
    }
}

/// The same after several steps.
pub open spec fn after_all_decoding(
    steps: Seq<DecoderWrapper>,
    given: Given,
    known: Set<Seq<char>>,
) -> Option<Given>
    decreases steps.len(),
{
    if steps.len() == 0 {
        Some(given)
    } else {
        match after_decoding(steps[0], given, known) {
            Some(next) => after_all_decoding(steps.skip(1), next, known),
            None => None,
        }
    }
}

/// The decoder of a tokenizer answers on all lists of its tokens that are not empty.
pub open spec fn decodes_soundly(t: Tokenizer) -> bool {
    match decoder(t) {
        Some(d) => after_all_decoding(
            decoder_steps(d),
            Given::Known,
            crate::tokenize::vocabulary(t).dom(),
        ) is Some,
        None => true,
    }
}

fn can_strip(token: &str, content: char, start: usize, stop: usize) -> (r: bool)
    ensures
        r == strips_soundly(token@, content, start as nat, stop as nat),
{
    let cs = chars_of(token);
    if stop == 0 || (start <= cs.len() && stop <= cs.len() - start) {
        return true;
    }
    let mut i: usize = 0;
    while i < cs.len()
        invariant
            cs@ == token@,
            i <= cs@.len(),
            forall|k: int| 0 <= k < i ==> #[trigger] token@[k] == content,
        decreases cs@.len() - i,
    {
        if cs[i] != content {
            assert(token@[i as int] != content);
            return true;
        }
        i = i + 1;
    }
    false
}

fn can_strip_all(t: &Tokenizer, content: char, start: usize, stop: usize) -> (r: bool)
    ensures
        r == forall|token: Seq<char>| #[trigger]
            crate::tokenize::vocabulary(*t).dom().contains(token) ==> strips_soundly(
                token,
                content,
                start as nat,
                stop as nat,
            ),
{
    let tokens = vocabulary_of(t);
    let ghost known = crate::tokenize::vocabulary(*t);
    let mut i: usize = 0;
    while i < tokens.len()
        invariant
            crate::tokenize::lists(tokens@, known),
            known == crate::tokenize::vocabulary(*t),
            i <= tokens@.len(),
            forall|k: int|
                0 <= k < i ==> strips_soundly(
                    (#[trigger] tokens@[k]).0@,
                    content,
                    start as nat,
                    stop as nat,
                ),
        decreases tokens@.len() - i,
    {
        if !can_strip(tokens[i].0.as_str(), content, start, stop) {
            assert(known.contains_key(tokens@[i as int].0@));
            assert(known.dom().contains(tokens@[i as int].0@));
            return false;
        }
        i = i + 1;
    }
    proof {
        assert forall|token: Seq<char>| #[trigger]
            known.dom().contains(token) implies strips_soundly(
            token,
            content,
            start as nat,
            stop as nat,
        ) by {
            assert(known.contains_key(token));
            let k = choose|k: int| 0 <= k < tokens@.len() && (#[trigger] tokens@[k]).0@ == token;
            assert(strips_soundly(tokens@[k].0@, content, start as nat, stop as nat));
        }
    }
    true
}

fn follow_decoding(t: &Tokenizer, step: &DecoderWrapper, given: Given) -> (r: Option<Given>)
    ensures
        r == after_decoding(*step, given, crate::tokenize::vocabulary(*t).dom()),
{
    match kind_of_decoder(step) {
        DecoderKind::Bpe => if given == Given::Open {
            None
        } else {
            Some(Given::Filled)
        },
        DecoderKind::ByteLevel | DecoderKind::Fuse => Some(Given::Filled),
        DecoderKind::Ctc => Some(Given::Open),
        DecoderKind::WordPiece
        | DecoderKind::Metaspace
        | DecoderKind::Replace
        | DecoderKind::ByteFallback => if given == Given::Open {
            Some(Given::Open)
        } else {
            Some(Given::Filled)
        },
        DecoderKind::Strip { content, start, stop } => if stop == 0 || (given == Given::Known
            && can_strip_all(t, content, start, stop)) {
            if given == Given::Open {
                Some(Given::Open)
            } else {
                Some(Given::Filled)
            }
        } else {
            None
        },
        DecoderKind::Sequence => None,
    }
}

/// Whether a tokenizer can decode all lists of its tokens that are not empty.
pub fn can_decode(t: &Tokenizer) -> (r: bool)
    ensures
        r == decodes_soundly(*t),
{
    let d = match decoder_of(t) {
        Some(d) => d,
        None => {
            return true;
        },
    };
    let tree = decoder_tree(d);
    let steps = steps_of(&tree);
    let ghost all = behind(steps@);
    let ghost known = crate::tokenize::vocabulary(*t).dom();
    let mut given = Given::Known;
    let mut i: usize = 0;
    assert(all.skip(0) =~= all);
    while i < steps.len()
        invariant
            decoder(*t) == Some(*d),
            known == crate::tokenize::vocabulary(*t).dom(),
            all == decoder_steps(*d),
            all == behind(steps@),
            i <= all.len(),
            after_all_decoding(all, Given::Known, known) == after_all_decoding(
                all.skip(i as int),
                given,
                known,
            ),
        decreases all.len() - i,
    {
        assert(all.skip(i as int)[0] == *steps@[i as int]);
        assert(all.skip(i as int).skip(1) =~= all.skip(i + 1));
        match follow_decoding(t, steps[i], given) {
            Some(next) => {
                given = next;
            },
            None => {
                return false;
            },
        }
        i = i + 1;
    }
    true
}

// ---------------------------------------------------------------------------
// Encoding
// ---------------------------------------------------------------------------

/// All steps of a tokenizer from a text to its ids answer on every text.
pub open spec fn encodes_soundly(t: Tokenizer) -> bool {
    &&& splits_soundly(t)
    &&& finds_soundly(t)
    &&& fresh(t)
    &&& truncates_soundly(t)
    &&& finishes_soundly(t)
    &&& pads_soundly(t)
}

/// Whether a tokenizer can encode every text. Where its normalizer allows, what its added tokens
/// are looked for by is made anew; its settings and its tokens stay.
pub fn can_encode(t: &mut Tokenizer) -> (r: bool)
    ensures
        r == encodes_soundly(*final(t)),
        same_settings(*old(t), *final(t)),
{
    if !can_split(t) {
        return false;
    }
    refresh(t);
    can_find(t) && can_truncate(t) && can_finish(t) && can_pad(t)
}

// ---------------------------------------------------------------------------
// Laws
// ---------------------------------------------------------------------------

/// The steps of a tree are its leaves, from the first branch to the last.
pub proof fn law_leaves_in_order<T>(x: T, v: Vec<Tree<T>>, n: nat)
    requires
        n < v@.len(),
    ensures
        leaves(Tree::Leaf(x)) == seq![x],
        leaves(Tree::Branch(v)) == leaves_upto(v@, v@.len()),
        leaves_upto(v@, 0) == Seq::<T>::empty(),
        leaves_upto(v@, n + 1) == leaves_upto(v@, n) + leaves(v@[n as int]),
{
}

/// Normalizers work one after the other: where the first ones end, the others begin.
pub proof fn law_normalizers_join(
    a: Seq<NormalizerWrapper>,
    b: Seq<NormalizerWrapper>,
    unmoored: bool,
)
    ensures
        after_steps(a + b, unmoored) == (match after_steps(a, unmoored) {
            Some(next) => after_steps(b, next),
            None => None,
        }),
        a.len() == 0 ==> after_steps(a, unmoored) == Some(unmoored),
        a.len() == 1 ==> after_steps(a, unmoored) == after_step(a[0], unmoored),
    decreases a.len(),
{
    if a.len() == 0 {
        assert(a + b =~= b);
    } else {
        assert((a + b).skip(1) =~= a.skip(1) + b);
        if let Some(next) = after_step(a[0], unmoored) {
            law_normalizers_join(a.skip(1), b, next);
        }
        if a.len() == 1 {
            assert(a.skip(1) =~= seq![]);
        }
    }
}

/// A text loses its hold on the original only by an empty text put before it or by a text put in
/// the place of nothing; once it has, only normalizers that look at no original can follow.
pub proof fn law_normalizers_hold_the_original(step: NormalizerWrapper, unmoored: bool)
    ensures
        normalizer_kind(step) == NormalizerKind::Prepend && (front_text(step) matches Some(s)
            && s.len() > 0) ==> after_step(step, unmoored) == Some(unmoored),
        normalizer_kind(step) == NormalizerKind::Prepend && !(front_text(step) matches Some(s)
            && s.len() > 0) ==> after_step(step, unmoored) == Some(true),
        normalizer_kind(step) == NormalizerKind::Replace && ((sought_text(step) matches Some(s)
            && s.len() > 0) || !(new_text(step) matches Some(s) && s.len() > 0)) ==> after_step(
            step,
            unmoored,
        ) == Some(unmoored),
        normalizer_kind(step) == NormalizerKind::Replace && !(sought_text(step) matches Some(s)
            && s.len() > 0) && (new_text(step) matches Some(s) && s.len() > 0) ==> after_step(
            step,
            unmoored,
        ) == Some(true),
        normalizer_kind(step) == NormalizerKind::Precompiled ==> after_step(step, unmoored) is None,
        normalizer_kind(step) != NormalizerKind::Prepend && normalizer_kind(step)
            != NormalizerKind::Replace && normalizer_kind(step) != NormalizerKind::Precompiled
            && normalizer_kind(step) != NormalizerKind::Sequence ==> after_step(step, false)
            == Some(false) && after_step(step, true) is None,
{
}

/// A chain of normalizers that put nothing before a text or into it, and none of which is
/// precompiled, keeps its hold on the original, however long it is.
pub proof fn law_plain_normalizers(steps: Seq<NormalizerWrapper>)
    requires
        forall|i: int|
            0 <= i < steps.len() ==> {
                let kind = normalizer_kind(#[trigger] steps[i]);
                &&& kind != NormalizerKind::Prepend
                &&& kind != NormalizerKind::Replace
                &&& kind != NormalizerKind::Precompiled
                &&& kind != NormalizerKind::Sequence
            },
    ensures
        after_steps(steps, false) == Some(false),
    decreases steps.len(),
{
    if steps.len() > 0 {
        let rest = steps.skip(1);
        assert(normalizer_kind(steps[0]) != NormalizerKind::Sequence);
        assert forall|i: int| 0 <= i < rest.len() implies {
            let kind = normalizer_kind(#[trigger] rest[i]);
            &&& kind != NormalizerKind::Prepend
            &&& kind != NormalizerKind::Replace
            &&& kind != NormalizerKind::Precompiled
            &&& kind != NormalizerKind::Sequence
        } by {
            assert(rest[i] == steps[i + 1]);
        }
        law_plain_normalizers(rest);
    }
}

/// A piece can be cut out of a text unless the pieces would have no length, or unless its bytes
/// would be looked for in an original that it has lost.
pub proof fn law_cuts(step: PreTokenizerWrapper, unmoored: bool)
    ensures
        pre_tokenizer_kind(step) matches PreTokenizerKind::FixedLength { length } ==> (
        cuts_soundly(step, unmoored) <==> length > 0),
        pre_tokenizer_kind(step) == PreTokenizerKind::ByteLevel ==> (cuts_soundly(step, unmoored)
            <==> !unmoored),
        !(pre_tokenizer_kind(step) is FixedLength) && pre_tokenizer_kind(step)
            != PreTokenizerKind::ByteLevel && pre_tokenizer_kind(step)
            != PreTokenizerKind::Sequence ==> cuts_soundly(step, unmoored),
{
}

/// Post-processors work one after the other, and each of them finds as many sequences as the one
/// before it left.
pub proof fn law_layouts_join(a: Seq<PostProcessorWrapper>, b: Seq<PostProcessorWrapper>, n: nat)
    ensures
        laid_out_by(a + b, n) == (match laid_out_by(a, n) {
            Some(m) => laid_out_by(b, m),
            None => None,
        }),
        a.len() == 0 ==> laid_out_by(a, n) == Some(n),
        a.len() == 1 ==> laid_out_by(a, n) == laid_out(a[0], n),
    decreases a.len(),
{
    if a.len() == 0 {
        assert(a + b =~= b);
    } else {
        assert((a + b).skip(1) =~= a.skip(1) + b);
        if let Some(m) = laid_out(a[0], n) {
            law_layouts_join(a.skip(1), b, m);
        }
        if a.len() == 1 {
            assert(a.skip(1) =~= seq![]);
        }
    }
}

/// A template lays out one sequence unless it asks for a second one, and a pair in any case; what
/// it leaves is one sequence for each piece that is no special token. The other post-processors
/// leave as many as they find.
pub proof fn law_layouts(step: PostProcessorWrapper, n: nat)
    ensures
        post_processor_kind(step) == PostProcessorKind::Roberta || post_processor_kind(step)
            == PostProcessorKind::Bert || post_processor_kind(step) == PostProcessorKind::ByteLevel
            ==> laid_out(step, n) == Some(n),
        post_processor_kind(step) matches PostProcessorKind::Template { single, pair } ==> {
            &&& template_pieces(single).contains(TemplatePiece::Second) ==> laid_out(step, 1) is None
            &&& !template_pieces(single).contains(TemplatePiece::Second) ==> laid_out(step, 1)
                == Some(sequences_in(template_pieces(single)))
            &&& laid_out(step, 2) == Some(sequences_in(template_pieces(pair)))
            &&& n != 1 && n != 2 ==> laid_out(step, n) is None
        },
{
}

/// Each piece of a template that is no special token counts as one sequence.
pub proof fn law_sequences_add_up(a: Seq<TemplatePiece>, b: Seq<TemplatePiece>)
    ensures
        sequences_in(a + b) == sequences_in(a) + sequences_in(b),
        a.len() == 0 ==> sequences_in(a) == 0,
        a.len() == 1 && a[0] == TemplatePiece::Special ==> sequences_in(a) == 0,
        a.len() == 1 && a[0] != TemplatePiece::Special ==> sequences_in(a) == 1,
    decreases b.len(),
{
    if a.len() == 1 {
        assert(a.drop_last() =~= seq![]);
        assert(sequences_in(seq![]) == 0);
    }
    if b.len() == 0 {
        assert(a + b =~= a);
    } else {
        assert((a + b).drop_last() =~= a + b.drop_last());
        law_sequences_add_up(a, b.drop_last());
    }
}

/// Decoders work one after the other: what the first ones leave, the others are given.
pub proof fn law_decoders_join(
    a: Seq<DecoderWrapper>,
    b: Seq<DecoderWrapper>,
    given: Given,
    known: Set<Seq<char>>,
)
    ensures
        after_all_decoding(a + b, given, known) == (match after_all_decoding(a, given, known) {
            Some(next) => after_all_decoding(b, next, known),
            None => None,
        }),
        a.len() == 0 ==> after_all_decoding(a, given, known) == Some(given),
        a.len() == 1 ==> after_all_decoding(a, given, known) == after_decoding(a[0], given, known),
    decreases a.len(),
{
    if a.len() == 0 {
        assert(a + b =~= b);
    } else {
        assert((a + b).skip(1) =~= a.skip(1) + b);
        if let Some(next) = after_decoding(a[0], given, known) {
            law_decoders_join(a.skip(1), b, next, known);
        }
        if a.len() == 1 {
            assert(a.skip(1) =~= seq![]);
        }
    }
}

/// A decoder that takes nothing off the end of a token can decode any tokens, but for one that
/// needs a last token where there may be none.
pub proof fn law_decoders(step: DecoderWrapper, given: Given, known: Set<Seq<char>>)
    ensures
        decoder_kind(step) == DecoderKind::Bpe ==> (after_decoding(step, given, known) is None <==>
            given == Given::Open),
        decoder_kind(step) == DecoderKind::ByteLevel || decoder_kind(step) == DecoderKind::Fuse
            || decoder_kind(step) == DecoderKind::Ctc || decoder_kind(step)
            == DecoderKind::WordPiece || decoder_kind(step) == DecoderKind::Metaspace
            || decoder_kind(step) == DecoderKind::Replace || decoder_kind(step)
            == DecoderKind::ByteFallback ==> after_decoding(step, given, known) is Some,
        decoder_kind(step) matches DecoderKind::Strip { content, start, stop } ==> {
            &&& stop == 0 ==> after_decoding(step, given, known) is Some
            &&& stop > 0 && given != Given::Known ==> after_decoding(step, given, known) is None
            &&& stop > 0 && given == Given::Known ==> (after_decoding(step, given, known) is Some
                <==> forall|token: Seq<char>| #[trigger]
                known.contains(token) ==> start + stop <= token.len() || exists|i: int|
                    0 <= i < token.len() && #[trigger] token[i] != content)
        },
        after_decoding(step, given, known) matches Some(next) ==> next != Given::Known,
        given != Given::Open && decoder_kind(step) != DecoderKind::Ctc && after_decoding(
            step,
            given,
            known,
        ) is Some ==> after_decoding(step, given, known) == Some(Given::Filled),
{
    if let DecoderKind::Strip { content, start, stop } = decoder_kind(step) {
        if stop > 0 && given == Given::Known {
            if after_decoding(step, given, known) is Some {
                assert forall|token: Seq<char>| #[trigger] known.contains(token) implies start
                    + stop <= token.len() || exists|i: int|
                    0 <= i < token.len() && #[trigger] token[i] != content by {
                    assert(strips_soundly(token, content, start as nat, stop as nat));
                }
            }
            if forall|token: Seq<char>| #[trigger]
                known.contains(token) ==> start + stop <= token.len() || exists|i: int|
                    0 <= i < token.len() && #[trigger] token[i] != content {
                assert forall|token: Seq<char>| #[trigger] known.contains(token) implies
                    strips_soundly(token, content, start as nat, stop as nat) by {}
            }
        }
    }
}

/// Where a text may be cut short and how far it may be filled up.
pub proof fn law_lengths(t: Tokenizer)
    ensures
        truncation(t) is None ==> truncates_soundly(t),
        truncation(t) matches Some((stride, max_length)) ==> (truncates_soundly(t) <==> max_length
            == 0 || stride < max_length),
        padding(t) is None ==> pads_soundly(t),
        padding(t) matches Some((fixed, multiple)) ==> {
            &&& fixed is None && multiple is None ==> pads_soundly(t)
            &&& (fixed matches Some(n) && n <= 60_000_000) && (multiple is None || (
            multiple matches Some(m) && m <= 4096)) ==> pads_soundly(t)
        },
{
}

/// A fresh tokenizer without truncation, padding or a layout can encode any text where its
/// normalizers keep hold of the original, its pieces have a length, its added tokens are not
/// normalized away and no two of them contest the spaces between them.
pub proof fn law_plain_tokenizers_encode(t: Tokenizer)
    requires
        fresh(t),
        normalizer(t) matches Some(n) ==> forall|i: int|
            0 <= i < normalizer_steps(n).len() ==> {
                let kind = normalizer_kind(#[trigger] normalizer_steps(n)[i]);
                &&& kind != NormalizerKind::Prepend
                &&& kind != NormalizerKind::Replace
                &&& kind != NormalizerKind::Precompiled
                &&& kind != NormalizerKind::Sequence
            },
        pre_tokenizer(t) matches Some(p) ==> forall|i: int|
            0 <= i < pre_tokenizer_steps(p).len() ==> {
                let kind = pre_tokenizer_kind(#[trigger] pre_tokenizer_steps(p)[i]);
                &&& kind != PreTokenizerKind::Sequence
                &&& kind matches PreTokenizerKind::FixedLength { length } ==> length > 0
            },
        truncation(t) is None,
        padding(t) is None,
        post_processor(t) is None,
        forall|text: Seq<char>| #[trigger]
            added_texts(t).contains(text) ==> (normal_text(t, text) matches Some(form) && form.len()
                > 0),
        !added_strips(t).contains((true, false)) || !(added_strips(t).contains((true, true))
            || added_strips(t).contains((false, true))),
    ensures
        encodes_soundly(t),
{
    if let Some(n) = normalizer(t) {
        law_plain_normalizers(normalizer_steps(n));
    }
    assert(after_normalizer(t) == Some(false));
    if let Some(p) = pre_tokenizer(t) {
        assert forall|i: int| 0 <= i < pre_tokenizer_steps(p).len() implies cuts_soundly(
            #[trigger] pre_tokenizer_steps(p)[i],
            false,
        ) by {
            law_cuts(pre_tokenizer_steps(p)[i], false);
        }
    }
}

/// A tokenizer without a decoder can decode anything, and so can one whose only decoder works on
/// bytes.
pub proof fn law_plain_tokenizers_decode(t: Tokenizer)
    ensures
        decoder(t) is None ==> decodes_soundly(t),
        (decoder(t) matches Some(d) && decoder_steps(d).len() == 1 && decoder_kind(
            decoder_steps(d)[0],
        ) == DecoderKind::ByteLevel) ==> decodes_soundly(t),
{
    if let Some(d) = decoder(t) {
        let known = crate::tokenize::vocabulary(t).dom();
        law_decoders_join(decoder_steps(d), seq![], Given::Known, known);
    }
}

/// Texts are split where the normalizers can follow one another and each of the pre-tokenizers can
/// cut what they leave; a tokenizer without normalizers keeps hold of the original.
pub proof fn law_splits(t: Tokenizer)
    ensures
        normalizer(t) is None ==> after_normalizer(t) == Some(false),
        normalizer(t) matches Some(n) ==> after_normalizer(t) == after_steps(
            normalizer_steps(n),
            false,
        ),
        after_normalizer(t) is None ==> !splits_soundly(t),
        after_normalizer(t) is Some && pre_tokenizer(t) is None ==> splits_soundly(t),
        (after_normalizer(t) matches Some(unmoored) && pre_tokenizer(t) matches Some(p)) ==> (
        splits_soundly(t) <==> forall|i: int|
            0 <= i < pre_tokenizer_steps(pre_tokenizer(t)->0).len() ==> cuts_soundly(
                #[trigger] pre_tokenizer_steps(pre_tokenizer(t)->0)[i],
                after_normalizer(t)->0,
            )),
{
}

/// An added token is found where normalizing leaves something of it, and where it and what is left
/// of it are more than white space if the spaces between two added tokens are contested.
pub proof fn law_added_tokens(t: Tokenizer, text: Seq<char>, form: Seq<char>, i: int, j: int)
    requires
        normal_text(t, text) == Some(form),
    ensures
        form.len() == 0 ==> !found_soundly(t, text),
        0 <= i < text.len() && !is_space(text[i]) && 0 <= j < form.len() && !is_space(form[j])
            ==> found_soundly(t, text),
        form.len() > 0 && !added_strips(t).contains((true, false)) ==> found_soundly(t, text),
        form.len() > 0 && !added_strips(t).contains((true, true)) && !added_strips(t).contains(
            (false, true),
        ) ==> found_soundly(t, text),
        finds_soundly(t) && added_texts(t).contains(text) ==> form.len() > 0,
        normalizer(t) is None ==> form == text,
        normalizer(t) matches Some(n) ==> normal_form(n, text) == Some(form),
{
}

/// A tokenizer can encode where it can split texts, find its added tokens, cut short, lay out and
/// fill up, and is fresh.
pub proof fn law_what_encoding_takes(t: Tokenizer)
    ensures
        encodes_soundly(t) <==> splits_soundly(t) && finds_soundly(t) && fresh(t)
            && truncates_soundly(t) && finishes_soundly(t) && pads_soundly(t),
        post_processor(t) is None ==> finishes_soundly(t),
        post_processor(t) matches Some(p) ==> (finishes_soundly(t) <==> laid_out_by(
            post_processor_steps(p),
            1,
        ) is Some),
        (forall|text: Seq<char>| #[trigger]
            added_texts(t).contains(text) ==> found_soundly(t, text)) ==> finds_soundly(t),
{
}

} // verus!
