//! Checkpoints: what they record, how their files are named, and which one is the latest.
use vstd::prelude::*;

use crate::double::Real;
use crate::text::{
    decimal_text, has_prefix, has_suffix, parse_usize, same_text, trim_end_text, trim_start_text,
};

verus! {

broadcast use vstd::string::group_string_axioms;

/// How far a training run has come.
#[derive(Debug, Clone)]
pub struct TrainState {
    pub global_step: usize,
    pub epoch: usize,
    pub best_eval_loss: Real,
    pub algorithm: String,
}

// ---------------------------------------------------------------------------
// File names
// ---------------------------------------------------------------------------

/// The name of a file of the checkpoint at a step.
pub open spec fn checkpoint_file(step: nat, ending: Seq<char>) -> Seq<char> {
    "checkpoint-"@ + crate::text::decimal(step) + ending
}

/// The step whose weights a file holds, by its name.
pub open spec fn weights_step(name: Seq<char>) -> Option<nat> {
    if crate::text::starts_with(name, "checkpoint-"@) && crate::text::ends_with(
        name,
        ".safetensors"@,
    ) {
        crate::text::bounded_decimal(
            crate::text::without_suffixes(
                crate::text::without_prefixes(name, "checkpoint-"@),
                ".safetensors"@,
            ),
            usize::MAX as nat,
        )
    } else {
        None
    }
}

fn name_with(step: usize, ending: &str) -> (r: String)
    ensures
        r@ == checkpoint_file(step as nat, ending@),
{
    let mut r = "checkpoint-".to_owned();
    r.append(decimal_text(step as u64).as_str());
    r.append(ending);
    r
}

/// The file that holds the weights of the model.
pub fn weights_file(step: usize) -> (r: String)
    ensures
        r@ == checkpoint_file(step as nat, ".safetensors"@),
{
    name_with(step, ".safetensors")
}

/// The file that holds the training state.
pub fn state_file(step: usize) -> (r: String)
    ensures
        r@ == checkpoint_file(step as nat, "-state.json"@),
{
    name_with(step, "-state.json")
}

/// The file that holds the value heads.
pub fn auxiliary_file(step: usize) -> (r: String)
    ensures
        r@ == checkpoint_file(step as nat, "-value-heads.safetensors"@),
{
    name_with(step, "-value-heads.safetensors")
}

/// Whether a listing holds the value heads of a step.
pub fn has_auxiliary_checkpoint(names: &Vec<String>, step: usize) -> (r: bool)
    ensures
        r == (exists|i: int|
            0 <= i < names@.len() && (#[trigger] names@[i])@ == checkpoint_file(
                step as nat,
                "-value-heads.safetensors"@,
            )),
{
    let wanted = auxiliary_file(step);
    let mut i: usize = 0;
    while i < names.len()
        invariant
            wanted@ == checkpoint_file(step as nat, "-value-heads.safetensors"@),
            i <= names@.len(),
            forall|k: int| 0 <= k < i ==> (#[trigger] names@[k])@ != wanted@,
        decreases names@.len() - i,
    {
        if same_text(names[i].as_str(), wanted.as_str()) {
            return true;
        }
        i = i + 1;
    }
    false
}

// ---------------------------------------------------------------------------
// The latest checkpoint
// ---------------------------------------------------------------------------

/// `r` is the latest checkpoint of a listing, with its place: no checkpoint has a later step, and
/// none before it has the same.
pub open spec fn is_latest(names: Seq<String>, r: Option<(usize, usize)>) -> bool {
    match r {
        Some((step, at)) => {
            &&& at < names.len()
            &&& weights_step(names[at as int]@) == Some(step as nat)
            &&& forall|i: int|
                0 <= i < names.len() ==> (weights_step((#[trigger] names[i])@) matches Some(s)
                    ==> s < step || (s == step && at <= i))
        },
        None => forall|i: int|
            0 <= i < names.len() ==> weights_step((#[trigger] names[i])@) is None,
    }
}

fn parse_weights_name(name: &str) -> (r: Option<usize>)
    ensures
        match r {
            Some(n) => weights_step(name@) == Some(n as nat),
            None => weights_step(name@) is None,
        },
{
    if has_prefix(name, "checkpoint-") && has_suffix(name, ".safetensors") {
        parse_usize(trim_end_text(trim_start_text(name, "checkpoint-"), ".safetensors"))
    } else {
        None
    }
}

/// The latest checkpoint of a listing: its step and its place.
pub fn find_latest_checkpoint(names: &Vec<String>) -> (r: Option<(usize, usize)>)
    ensures
        is_latest(names@, r),
{
    let mut latest: Option<(usize, usize)> = None;
    let mut i: usize = 0;
    while i < names.len()
        invariant
            i <= names@.len(),
            is_latest(names@.take(i as int), latest),
        decreases names@.len() - i,
    {
        let ghost had = names@.take(i as int);
        let ghost more = names@.take(i + 1);
        assert(more =~= had.push(names@[i as int]));
        assert(forall|k: int| 0 <= k < i ==> #[trigger] more[k] == had[k]);
        if let Some(step) = parse_weights_name(names[i].as_str()) {
            let later = match latest {
                Some((s, _)) => step > s,
                None => true,
            };
            if later {
                latest = Some((step, i));
            }
        }
        i = i + 1;
    }
    assert(names@.take(names@.len() as int) =~= names@);
    latest
}

// ---------------------------------------------------------------------------
// Laws
// ---------------------------------------------------------------------------

proof fn lemma_number_between(step: nat, ending: Seq<char>)
    ensures
        crate::text::starts_with(checkpoint_file(step, ending), "checkpoint-"@),
        crate::text::without_prefixes(checkpoint_file(step, ending), "checkpoint-"@)
            == crate::text::decimal(step) + ending,
{
    reveal_strlit("checkpoint-");
    let p = "checkpoint-"@;
    let d = crate::text::decimal(step);
    let name = checkpoint_file(step, ending);
    crate::text::law_decimal_round_trip(step);
    assert(d.len() > 0 && crate::text::is_digit(d[0])) by {
        assert(crate::text::decimal_value(d) is Some);
        assert(crate::text::is_digit(crate::text::without_plus(d)[0]));
    }
    assert(name.subrange(0, p.len() as int) =~= p);
    assert(name.skip(p.len() as int) =~= d + ending);
    assert((d + ending)[0] == d[0]);
    if crate::text::starts_with(d + ending, p) {
        assert((d + ending).subrange(0, p.len() as int)[0] == 'c');
    }
    assert(crate::text::without_prefixes(d + ending, p) == d + ending);
}

/// The weights saved at a step are found again as the weights of that step.
pub proof fn law_weights_name_read_back(step: nat)
    requires
        step <= usize::MAX,
    ensures
        weights_step(checkpoint_file(step, ".safetensors"@)) == Some(step),
{
    reveal_strlit(".safetensors");
    let q = ".safetensors"@;
    let d = crate::text::decimal(step);
    let name = checkpoint_file(step, q);
    lemma_number_between(step, q);
    crate::text::law_decimal_round_trip(step);
    assert(name.subrange(name.len() - q.len(), name.len() as int) =~= q);
    let rest = d + q;
    assert(rest.subrange(rest.len() - q.len(), rest.len() as int) =~= q);
    assert(rest.take(rest.len() - q.len()) =~= d);
    if crate::text::ends_with(d, q) {
        let k = d.len() - q.len();
        assert(d.subrange(k, d.len() as int)[0] == '.');
        assert(crate::text::without_plus(d)[k] == '.');
        assert(crate::text::is_digit(crate::text::without_plus(d)[k]));
    }
    assert(crate::text::without_suffixes(d, q) == d);
    assert(crate::text::without_suffixes(rest, q) == d);
}

/// Neither the state nor the value heads of a step are taken for the weights of a model.
pub proof fn law_other_files_are_no_weights(step: nat)
    ensures
        weights_step(checkpoint_file(step, "-state.json"@)) is None,
        weights_step(checkpoint_file(step, "-value-heads.safetensors"@)) is None,
{
    reveal_strlit(".safetensors");
    reveal_strlit("-state.json");
    reveal_strlit("-value-heads.safetensors");
    let q = ".safetensors"@;
    let state = checkpoint_file(step, "-state.json"@);
    if crate::text::ends_with(state, q) {
        assert(state.subrange(state.len() - q.len(), state.len() as int)[q.len() - 1] == 's');
        assert(state.last() == 'n');
    }
    let h = "-value-heads.safetensors"@;
    let d = crate::text::decimal(step);
    lemma_number_between(step, h);
    let rest = d + h;
    let body = d + h.take(12);
    assert(rest.subrange(rest.len() - q.len(), rest.len() as int) =~= q);
    assert(rest.take(rest.len() - q.len()) =~= body);
    if crate::text::ends_with(body, q) {
        assert(body.subrange(body.len() - q.len(), body.len() as int)[0] == '.');
        assert(body[body.len() - q.len()] == h[0]);
    }
    assert(crate::text::without_suffixes(body, q) == body);
    assert(crate::text::without_suffixes(rest, q) == body);
    crate::text::law_decimal_round_trip(step);
    assert(body.last() == 's');
    let digits = crate::text::without_plus(body);
    assert(d.len() > 0 && d[0] != '+') by {
        assert(crate::text::decimal_value(d) is Some);
        assert(crate::text::is_digit(crate::text::without_plus(d)[0]));
    }
    assert(body[0] == d[0]);
    assert(digits == body);
    assert(!crate::text::is_digit(digits[digits.len() - 1]));
}

/// Which checkpoint is the latest is determined by the listing.
pub proof fn law_latest_unique(
    names: Seq<String>,
    a: Option<(usize, usize)>,
    b: Option<(usize, usize)>,
)
    requires
        is_latest(names, a),
        is_latest(names, b),
    ensures
        a == b,
{
    if let Some((step, at)) = a {
        assert(weights_step(names[at as int]@) == Some(step as nat));
    }
    if let Some((step, at)) = b {
        assert(weights_step(names[at as int]@) == Some(step as nat));
    }
}

/// After a save at a step that no other checkpoint exceeds, that step is the latest.
pub proof fn law_saved_step_is_latest(
    names: Seq<String>,
    r: Option<(usize, usize)>,
    step: usize,
    at: int,
)
    requires
        is_latest(names, r),
        0 <= at < names.len(),
        names[at]@ == checkpoint_file(step as nat, ".safetensors"@),
        forall|i: int|
            0 <= i < names.len() ==> (weights_step((#[trigger] names[i])@) matches Some(s) ==> s
                <= step),
    ensures
        r matches Some((s, _)) && s == step,
{
    law_weights_name_read_back(step as nat);
    assert(weights_step(names[at]@) == Some(step as nat));
}

/// The files of a step are named by the step, in decimal digits, and by what they hold.
pub proof fn law_checkpoint_names(step: nat, ending: Seq<char>)
    ensures
        checkpoint_file(step, ending) == "checkpoint-"@ + crate::text::decimal(step) + ending,
        forall|other: nat| #[trigger]
            checkpoint_file(other, ending) == checkpoint_file(step, ending) ==> other == step,
{
    assert forall|other: nat| #[trigger]
        checkpoint_file(other, ending) == checkpoint_file(step, ending) implies other == step by {
        let a = crate::text::decimal(other);
        let b = crate::text::decimal(step);
        let p = "checkpoint-"@;
        let x = checkpoint_file(other, ending);
        assert(x.len() == p.len() + a.len() + ending.len());
        assert(x.len() == p.len() + b.len() + ending.len());
        assert(x.subrange(p.len() as int, p.len() as int + a.len()) =~= a);
        assert(x.subrange(p.len() as int, p.len() as int + b.len()) =~= b);
        crate::text::law_decimal_injective(other, step);
    }
}

/// The weights of a step are what is named by that step between the two parts of their name; a
/// file whose name lacks one of these is none.
pub proof fn law_weights_by_name(name: Seq<char>, number: Seq<char>)
    ensures
        name == "checkpoint-"@ + (number + ".safetensors"@) && !crate::text::starts_with(
            number + ".safetensors"@,
            "checkpoint-"@,
        ) && !crate::text::ends_with(number, ".safetensors"@) ==> weights_step(name)
            == crate::text::bounded_decimal(number, usize::MAX as nat),
        !crate::text::starts_with(name, "checkpoint-"@) ==> weights_step(name) is None,
        !crate::text::ends_with(name, ".safetensors"@) ==> weights_step(name) is None,
{
    reveal_strlit("checkpoint-");
    reveal_strlit(".safetensors");
    let p = "checkpoint-"@;
    let q = ".safetensors"@;
    let rest = number + q;
    if name == p + rest && !crate::text::starts_with(rest, p) && !crate::text::ends_with(number, q) {
        crate::text::law_affixes(seq![], p, rest);
        assert(name =~= (p + number) + q);
        crate::text::law_affixes(p + number, q, seq![]);
        crate::text::law_affixes_taken_away(rest, p);
        assert(crate::text::without_prefixes(rest, p) == rest);
        crate::text::law_affixes_taken_away(number, q);
        assert(crate::text::without_suffixes(number, q) == number);
    }
}

/// The latest weights are those of the greatest step that any file is named by, and the first of
/// them; there are none only where no file holds weights.
pub proof fn law_latest_is_greatest(names: Seq<String>, r: Option<(usize, usize)>, i: int, s: nat)
    requires
        is_latest(names, r),
        0 <= i < names.len(),
        weights_step(names[i]@) == Some(s),
    ensures
        r is Some,
        s <= (r->Some_0).0,
        s == (r->Some_0).0 ==> (r->Some_0).1 <= i,
        (r->Some_0).1 < names.len(),
        weights_step(names[(r->Some_0).1 as int]@) == Some((r->Some_0).0 as nat),
{
}

} // verus!
