//! The files of a model: number formats, the configuration, and the shards that an index names.
use vstd::prelude::*;

use candle_transformers::models::qwen3::Config;

use crate::text::{increasing, owned_texts, same_text, sorted_unique, to_lower};

verus! {

/// The files of a downloaded model, by their paths.
pub struct ModelFiles<P> {
    pub config_path: P,
    pub tokenizer_path: P,
    pub weight_paths: Vec<P>,
}

// ---------------------------------------------------------------------------
// Number formats
// ---------------------------------------------------------------------------

/// The number format of a model's weights.
#[derive(Clone, Copy, Debug, PartialEq, Eq, Structural)]
pub enum DType {
    F32,
    F16,
    BF16,
}

/// The format with a name in lower case; `bf16` where the name is not known.
pub open spec fn dtype_named(name: Seq<char>) -> DType {
    if name == "f32"@ || name == "float32"@ {
        DType::F32
    } else if name == "f16"@ || name == "float16"@ {
        DType::F16
    } else {
        DType::BF16
    }
}

/// The format with a name in lower case.
pub fn find_dtype(lowered: &str) -> (r: DType)
    ensures
        r == dtype_named(lowered@),
{
    if same_text(lowered, "f32") || same_text(lowered, "float32") {
        DType::F32
    } else if same_text(lowered, "f16") || same_text(lowered, "float16") {
        DType::F16
    } else {
        DType::BF16
    }
}

/// The format with a name, in upper or lower case.
pub fn parse_dtype(dtype_str: &str) -> (r: DType)
    ensures
        r == dtype_named(crate::text::lowercase(dtype_str@)),
        dtype_str.is_ascii() ==> r == dtype_named(
            dtype_str@.map_values(|c: char| crate::text::ascii_lower(c)),
        ),
{
    find_dtype(to_lower(dtype_str).as_str())
}

// ---------------------------------------------------------------------------
// Errors
// ---------------------------------------------------------------------------

/// An error of `serde_json`.
#[verifier::external_type_specification]
#[verifier::external_body]
pub struct ExJsonError(serde_json::Error);

/// Why a file of a model could not be read.
#[derive(Debug)]
pub enum LoadError {
    /// It is not JSON, or not what it should be.
    Json(serde_json::Error),
}

/// What an error of `serde_json` says of itself.
pub uninterp spec fn json_message(e: serde_json::Error) -> Seq<char>;

/// `serde_json::Error::io` on an error of no particular kind that carries a message: an error
/// that says just the message.
#[verifier::external_body]
fn json_error(message: &str) -> (r: serde_json::Error)
    ensures
        json_message(r) == message@,
{
    serde_json::Error::io(std::io::Error::new(std::io::ErrorKind::Other, message))
}

// ---------------------------------------------------------------------------
// Configuration
// ---------------------------------------------------------------------------

/// The configuration of a model of the `candle_transformers` crate, carried through as it is.
#[verifier::external_type_specification]
#[verifier::external_body]
pub struct ExConfig(candle_transformers::models::qwen3::Config);

/// The configuration that `serde_json::from_str` reads in a text, or the message of its error.
pub uninterp spec fn settings_in(text: Seq<char>) -> Result<Config, Seq<char>>;

/// `serde_json::from_str` into the configuration of a model. The result depends on the text alone.
#[verifier::external_body]
fn read_settings(text: &str) -> (r: Result<Config, serde_json::Error>)
    ensures
        match r {
            Ok(c) => settings_in(text@) == Ok::<Config, Seq<char>>(c),
            Err(e) => settings_in(text@) == Err::<Config, Seq<char>>(json_message(e)),
        },
{
    serde_json::from_str(text)
}

/// The configuration of a model, read from the text of its file.
pub fn load_config(content: &str) -> (r: Result<Config, LoadError>)
    ensures
        match r {
            Ok(c) => settings_in(content@) == Ok::<Config, Seq<char>>(c),
            Err(LoadError::Json(e)) => settings_in(content@) == Err::<Config, Seq<char>>(
                json_message(e),
            ),
        },
{
    match read_settings(content) {
        Ok(c) => Ok(c),
        Err(e) => Err(LoadError::Json(e)),
    }
}

// ---------------------------------------------------------------------------
// Shards
// ---------------------------------------------------------------------------

/// What `serde_json::from_str` reads in a text: the message of its error where it is not JSON, and
/// otherwise the values of the object under `key`, where there is one. A value that is not a string
/// has no text.
pub uninterp spec fn values_under(text: Seq<char>, key: Seq<char>) -> Result<
    Option<Seq<Option<Seq<char>>>>,
    Seq<char>,
>;

/// Texts that may be missing.
pub open spec fn optional_texts(v: Seq<Option<String>>) -> Seq<Option<Seq<char>>> {
    v.map_values(|t: Option<String>| crate::ingest::files::optional_text(t))
}

/// The views of what was read.
pub open spec fn values_view(
    r: Result<Option<Vec<Option<String>>>, serde_json::Error>,
) -> Result<Option<Seq<Option<Seq<char>>>>, Seq<char>> {
    match r {
        Ok(Some(v)) => Ok(Some(optional_texts(v@))),
        Ok(None) => Ok(None),
        Err(e) => Err(json_message(e)),
    }
}

/// `serde_json::from_str`, and of what it read the values of the object under `key`. The result
/// depends on the text and the key alone. Which texts are JSON, what the values are, in which
/// order they come and how an error is worded is what the name says and no more.
#[verifier::external_body]
fn read_values(text: &str, key: &str) -> (r: Result<Option<Vec<Option<String>>>, serde_json::Error>)
    ensures
        values_view(r) == values_under(text@, key@),
{
    let parsed: serde_json::Value = serde_json::from_str(text)?;
    let object = parsed[key].as_object();
    Ok(object.map(|m| m.values().map(|v| v.as_str().map(|s| s.to_string())).collect()))
}

/// The weight map of an index: which shard holds which tensor.
pub open spec fn weight_map(index: Seq<char>) -> Result<
    Option<Seq<Option<Seq<char>>>>,
    Seq<char>,
> {
    values_under(index, "weight_map"@)
}

/// The texts that are there, in order.
pub open spec fn present(v: Seq<Option<Seq<char>>>) -> Seq<Seq<char>>
    decreases v.len(),
{
    if v.len() == 0 {
        seq![]
    } else {
        match v.last() {
            Some(t) => present(v.drop_last()).push(t),
            None => present(v.drop_last()),
        }
    }
}

/// `files` are the shards that some values name, in order and each once.
pub open spec fn is_shards(files: Seq<Seq<char>>, values: Seq<Option<Seq<char>>>) -> bool {
    &&& increasing(files)
    &&& forall|x: Seq<char>| #[trigger] files.contains(x) <==> values.contains(Some(x))
}

proof fn lemma_present(v: Seq<Option<Seq<char>>>, x: Seq<char>)
    ensures
        present(v).contains(x) <==> v.contains(Some(x)),
    decreases v.len(),
{
    if v.len() > 0 {
        let rest = v.drop_last();
        lemma_present(rest, x);
        if v.contains(Some(x)) {
            let k = choose|k: int| 0 <= k < v.len() && v[k] == Some(x);
            if k < rest.len() {
                assert(rest[k] == Some(x));
                let m = choose|m: int| 0 <= m < present(rest).len() && present(rest)[m] == x;
                assert(present(v)[m] == x);
            } else {
                assert(present(v)[present(rest).len() as int] == x);
            }
        }
        if present(v).contains(x) {
            let m = choose|m: int| 0 <= m < present(v).len() && present(v)[m] == x;
            if m < present(rest).len() {
                assert(present(rest)[m] == x);
                let k = choose|k: int| 0 <= k < rest.len() && rest[k] == Some(x);
                assert(v[k] == Some(x));
            } else {
                assert(v[v.len() - 1] == Some(x));
            }
        }
    }
}

/// The shards that the values of a weight map name, in order and each once.
pub fn shards_of(values: &Vec<Option<String>>) -> (r: Vec<String>)
    ensures
        is_shards(owned_texts(r@), optional_texts(values@)),
{
    let ghost all = optional_texts(values@);
    let mut names: Vec<String> = Vec::new();
    let mut i: usize = 0;
    assert(all.take(0) =~= seq![]);
    assert(owned_texts(names@) =~= seq![]);
    while i < values.len()
        invariant
            all == optional_texts(values@),
            i <= values@.len(),
            owned_texts(names@) == present(all.take(i as int)),
        decreases values@.len() - i,
    {
        assert(all.take(i + 1).drop_last() =~= all.take(i as int));
        let ghost had = owned_texts(names@);
        if let Some(t) = &values[i] {
            names.push(t.clone());
            assert(owned_texts(names@) =~= had.push(t@));
        }
        i = i + 1;
    }
    assert(all.take(values@.len() as int) =~= all);
    let r = sorted_unique(&names);
    proof {
        assert forall|x: Seq<char>| #[trigger] owned_texts(r@).contains(x) <==> all.contains(
            Some(x),
        ) by {
            lemma_present(all, x);
        }
    }
    r
}

/// The shards that an index names, in order and each once. An index without a weight map is
/// refused like one that is not JSON.
pub fn shard_files(index: &str) -> (r: Result<Vec<String>, LoadError>)
    ensures
        match weight_map(index@) {
            Ok(Some(values)) => r is Ok && is_shards(owned_texts(r->Ok_0@), values),
            Ok(None) => r is Err && json_message(r->Err_0->Json_0) == "no weight_map in index"@,
            Err(message) => r is Err && json_message(r->Err_0->Json_0) == message,
        },
{
    match read_values(index, "weight_map") {
        Ok(Some(values)) => Ok(shards_of(&values)),
        Ok(None) => Err(LoadError::Json(json_error("no weight_map in index"))),
        Err(e) => Err(LoadError::Json(e)),
    }
}

// ---------------------------------------------------------------------------
// Laws
// ---------------------------------------------------------------------------

/// Which shards a model has, and in what order, is determined by what its index names.
pub proof fn law_shards_unique(
    a: Seq<Seq<char>>,
    b: Seq<Seq<char>>,
    values: Seq<Option<Seq<char>>>,
)
    requires
        is_shards(a, values),
        is_shards(b, values),
    ensures
        a == b,
{
    assert forall|x: Seq<char>| a.contains(x) <==> b.contains(x) by {
        assert(a.contains(x) <==> values.contains(Some(x)));
        assert(b.contains(x) <==> values.contains(Some(x)));
    }
    crate::text::law_increasing_unique(a, b);
}

/// A data type is named in a short and in a long way; any other name stands for the default.
pub proof fn law_dtype_names(name: Seq<char>)
    ensures
        dtype_named("f32"@) == DType::F32,
        dtype_named("float32"@) == DType::F32,
        dtype_named("f16"@) == DType::F16,
        dtype_named("float16"@) == DType::F16,
        name != "f32"@ && name != "float32"@ && name != "f16"@ && name != "float16"@
            ==> dtype_named(name) == DType::BF16,
{
    reveal_strlit("f32");
    reveal_strlit("float32");
    reveal_strlit("f16");
    reveal_strlit("float16");
    assert("f16"@[1] != "f32"@[1]);
    assert("float16"@[5] != "float32"@[5]);
    assert("f16"@.len() != "float32"@.len());
}

/// The shards of a model are all files that its index names, each once and by name.
pub proof fn law_shards_are_named(files: Seq<Seq<char>>, values: Seq<Option<Seq<char>>>)
    requires
        is_shards(files, values),
    ensures
        forall|i: int|
            0 <= i < values.len() && (#[trigger] values[i]) is Some ==> files.contains(
                values[i]->0,
            ),
        forall|k: int| 0 <= k < files.len() ==> values.contains(Some(#[trigger] files[k])),
        forall|k: int, m: int|
            0 <= k < m < files.len() ==> crate::text::before(
                #[trigger] files[k],
                #[trigger] files[m],
            ) && files[k] != files[m],
{
    assert forall|i: int| 0 <= i < values.len() && (#[trigger] values[i]) is Some implies
        files.contains(values[i]->0) by {
        assert(values.contains(Some(values[i]->0)));
    }
    assert forall|k: int| 0 <= k < files.len() implies values.contains(
        Some(#[trigger] files[k]),
    ) by {
        assert(files.contains(files[k]));
    }
    assert forall|k: int, m: int| 0 <= k < m < files.len() implies crate::text::before(
        #[trigger] files[k],
        #[trigger] files[m],
    ) && files[k] != files[m] by {
        crate::text::lemma_before_total(files[k], files[m]);
    }
}

/// What an index holds is read under one name, and spoken of one by one.
pub proof fn law_index_of_weights(index: Seq<char>, v: Seq<Option<String>>, i: int)
    ensures
        weight_map(index) == values_under(index, "weight_map"@),
        optional_texts(v).len() == v.len(),
        0 <= i < v.len() ==> (match v[i] {
            Some(t) => optional_texts(v)[i] == Some(t@),
            None => optional_texts(v)[i] is None,
        }),
{
}

} // verus!
