use orl::pipeline::{can_decode, can_encode};
use orl::tokenize::{decode_ids, tokenize_text};
use tokenizers::{AddedToken, NormalizerWrapper, Tokenizer};

struct Parts {
    normalizer: &'static str,
    pre_tokenizer: &'static str,
    post_processor: &'static str,
    decoder: &'static str,
    added_tokens: &'static str,
    padding: &'static str,
}

fn plain() -> Parts {
    Parts {
        normalizer: "null",
        pre_tokenizer: r#"{"type": "WhitespaceSplit"}"#,
        post_processor: "null",
        decoder: "null",
        added_tokens: "[]",
        padding: "null",
    }
}

fn build(p: Parts) -> Tokenizer {
    let json = format!(
        r#"{{"version": "1.0", "truncation": null, "padding": {}, "added_tokens": {},
        "normalizer": {}, "pre_tokenizer": {}, "post_processor": {}, "decoder": {},
        "model": {{"type": "WordLevel", "vocab": {{"[UNK]": 0, "one": 1, "two": 2, "xone": 3}},
        "unk_token": "[UNK]"}}}}"#,
        p.padding, p.added_tokens, p.normalizer, p.pre_tokenizer, p.post_processor, p.decoder
    );
    Tokenizer::from_bytes(json.as_bytes()).unwrap()
}

fn encodes(p: Parts, text: &str) -> Option<Vec<u32>> {
    let mut t = build(p);
    if can_encode(&mut t) {
        Some(tokenize_text(&t, text, 100).unwrap())
    } else {
        None
    }
}

fn normalized(normalizer: &'static str, text: &str) -> Option<Vec<u32>> {
    encodes(
        Parts {
            normalizer,
            ..plain()
        },
        text,
    )
}

fn cut(pre_tokenizer: &'static str, text: &str) -> Option<Vec<u32>> {
    encodes(
        Parts {
            pre_tokenizer,
            ..plain()
        },
        text,
    )
}

fn processed(post_processor: &'static str, text: &str) -> Option<Vec<u32>> {
    encodes(
        Parts {
            post_processor,
            ..plain()
        },
        text,
    )
}

fn added(added_tokens: &'static str, normalizer: &'static str, text: &str) -> Option<Vec<u32>> {
    encodes(
        Parts {
            added_tokens,
            normalizer,
            ..plain()
        },
        text,
    )
}

fn decodes(decoder: &'static str) -> bool {
    can_decode(&build(Parts { decoder, ..plain() }))
}

#[test]
fn plain_steps_answer() {
    assert_eq!(encodes(plain(), "one two"), Some(vec![1, 2]));
    assert!(can_decode(&build(plain())));
}

#[test]
fn pieces_have_a_length() {
    assert_eq!(cut(r#"{"type": "FixedLength", "length": 3}"#, "onetwo"), Some(vec![1, 2]));
    assert_eq!(cut(r#"{"type": "FixedLength", "length": 0}"#, "one"), None);
    let nested = r#"{"type": "Sequence", "pretokenizers": [{"type": "WhitespaceSplit"},
        {"type": "Sequence", "pretokenizers": [{"type": "FixedLength", "length": 0}]}]}"#;
    assert_eq!(cut(nested, "one"), None);
}

#[test]
fn a_template_lays_out_what_it_has() {
    let same = r#"{"type": "TemplateProcessing", "single": [{"SpecialToken": {"id": "x", "type_id": 0}},
        {"Sequence": {"id": "A", "type_id": 0}}], "pair": [], "special_tokens": {}}"#;
    assert_eq!(processed(same, "one two"), Some(vec![1, 2]));
    let twice = r#"{"type": "TemplateProcessing", "single": [{"Sequence": {"id": "A", "type_id": 0}},
        {"Sequence": {"id": "A", "type_id": 0}}], "pair": [], "special_tokens": {}}"#;
    assert_eq!(processed(twice, "one two"), Some(vec![1, 2, 1, 2]));
    let second = r#"{"type": "TemplateProcessing", "single": [{"Sequence": {"id": "A", "type_id": 0}},
        {"Sequence": {"id": "B", "type_id": 0}}], "pair": [], "special_tokens": {}}"#;
    assert_eq!(processed(second, "one two"), None);
}

#[test]
fn templates_pass_their_sequences_on() {
    let pair = r#"{"type": "Sequence", "processors": [
        {"type": "TemplateProcessing", "single": [{"Sequence": {"id": "A", "type_id": 0}},
        {"Sequence": {"id": "A", "type_id": 0}}], "pair": [], "special_tokens": {}},
        {"type": "TemplateProcessing", "single": [],
        "pair": [{"Sequence": {"id": "B", "type_id": 0}}], "special_tokens": {}}]}"#;
    assert_eq!(processed(pair, "one two"), Some(vec![1, 2]));
    let nothing = r#"{"type": "Sequence", "processors": [
        {"type": "TemplateProcessing", "single": [], "pair": [], "special_tokens": {}},
        {"type": "ByteLevel", "add_prefix_space": true, "trim_offsets": true, "use_regex": true},
        {"type": "TemplateProcessing", "single": [], "pair": [], "special_tokens": {}}]}"#;
    assert_eq!(processed(nothing, "one two"), None);
    let empty = r#"{"type": "TemplateProcessing", "single": [], "pair": [], "special_tokens": {}}"#;
    assert_eq!(processed(empty, "one two"), Some(vec![]));
}

#[test]
fn normalizers_change_the_text() {
    assert_eq!(normalized(r#"{"type": "Lowercase"}"#, "ONE two"), Some(vec![1, 2]));
    assert_eq!(normalized(r#"{"type": "Prepend", "prepend": "x"}"#, "one two"), Some(vec![3, 2]));
    let replace = r#"{"type": "Replace", "pattern": {"String": "three"}, "content": "one"}"#;
    assert_eq!(normalized(replace, "three two"), Some(vec![1, 2]));
}

#[test]
fn an_insertion_in_front_is_not_swept_over() {
    let swept = r#"{"type": "Sequence", "normalizers": [
        {"type": "Replace", "pattern": {"Regex": "^"}, "content": "x"}, {"type": "Lowercase"}]}"#;
    assert_eq!(normalized(swept, "one two"), None);
    let last = r#"{"type": "Sequence", "normalizers": [{"type": "Lowercase"},
        {"type": "Replace", "pattern": {"Regex": "^"}, "content": "x"}]}"#;
    assert_eq!(normalized(last, "one two"), Some(vec![3, 2]));
    let removed = r#"{"type": "Sequence", "normalizers": [
        {"type": "Replace", "pattern": {"Regex": "x?"}, "content": ""}, {"type": "Lowercase"}]}"#;
    assert_eq!(normalized(removed, "oxne two"), Some(vec![1, 2]));
    let found = r#"{"type": "Sequence", "normalizers": [
        {"type": "Replace", "pattern": {"String": "x"}, "content": "o"}, {"type": "Lowercase"}]}"#;
    assert_eq!(normalized(found, "xne two"), Some(vec![1, 2]));
    let empty = r#"{"type": "Sequence", "normalizers": [
        {"type": "Replace", "pattern": {"String": ""}, "content": "x"}, {"type": "Lowercase"}]}"#;
    assert_eq!(normalized(empty, "one"), None);
    let nothing = r#"{"type": "Sequence", "normalizers": [
        {"type": "Prepend", "prepend": ""}, {"type": "Lowercase"}]}"#;
    assert_eq!(normalized(nothing, "one"), None);
    let bytes = Parts {
        normalizer: r#"{"type": "Prepend", "prepend": ""}"#,
        pre_tokenizer: r#"{"type": "ByteLevel", "add_prefix_space": false, "trim_offsets": true,
            "use_regex": true}"#,
        ..plain()
    };
    assert_eq!(encodes(bytes, "one"), None);
    let bytes = Parts {
        normalizer: r#"{"type": "Prepend", "prepend": "x"}"#,
        pre_tokenizer: r#"{"type": "ByteLevel", "add_prefix_space": false, "trim_offsets": true,
            "use_regex": true}"#,
        ..plain()
    };
    assert_eq!(encodes(bytes, "one"), Some(vec![3]));
}

#[test]
fn added_tokens_leave_a_mark() {
    let accent = r#"[{"id": 4, "content": "́", "single_word": false, "lstrip": false,
        "rstrip": false, "normalized": true, "special": false}]"#;
    assert_eq!(added(accent, r#"{"type": "StripAccents"}"#, "one"), None);
    assert_eq!(added(accent, "null", "\u{301}one"), Some(vec![4, 1]));
    let word = r#"[{"id": 4, "content": "<Mark>", "single_word": false, "lstrip": false,
        "rstrip": false, "normalized": true, "special": false}]"#;
    assert_eq!(added(word, r#"{"type": "Lowercase"}"#, "one<MARK>two"), Some(vec![1, 4, 2]));
}

#[test]
fn added_tokens_do_not_contest_spaces() {
    let contest = r#"[{"id": 4, "content": "<a>", "single_word": false, "lstrip": false,
        "rstrip": true, "normalized": false, "special": false},
        {"id": 5, "content": " ", "single_word": false, "lstrip": true,
        "rstrip": false, "normalized": false, "special": false}]"#;
    assert_eq!(added(contest, "null", "one"), None);
    let words = r#"[{"id": 4, "content": "<a>", "single_word": false, "lstrip": false,
        "rstrip": true, "normalized": false, "special": false},
        {"id": 5, "content": "<b>", "single_word": false, "lstrip": true,
        "rstrip": false, "normalized": false, "special": false}]"#;
    assert_eq!(added(words, "null", "one<a>   <b>two"), Some(vec![1, 4, 5, 2]));
    let both = r#"[{"id": 4, "content": "<a>", "single_word": false, "lstrip": false,
        "rstrip": true, "normalized": false, "special": false},
        {"id": 5, "content": " ", "single_word": false, "lstrip": true,
        "rstrip": true, "normalized": false, "special": false}]"#;
    assert_eq!(added(both, "null", "one<a>   two"), Some(vec![1, 4, 2]));
}

#[test]
fn padding_fits_into_memory() {
    let short = Parts {
        padding: r#"{"strategy": {"Fixed": 3}, "direction": "Right", "pad_to_multiple_of": 4,
            "pad_id": 9, "pad_type_id": 0, "pad_token": "[PAD]"}"#,
        ..plain()
    };
    assert_eq!(encodes(short, "one two"), Some(vec![1, 2, 9, 9]));
    let long = Parts {
        padding: r#"{"strategy": {"Fixed": 1000000000000000000}, "direction": "Right",
            "pad_to_multiple_of": null, "pad_id": 9, "pad_type_id": 0, "pad_token": "[PAD]"}"#,
        ..plain()
    };
    assert_eq!(encodes(long, "one two"), None);
    let coarse = Parts {
        padding: r#"{"strategy": "BatchLongest", "direction": "Right",
            "pad_to_multiple_of": 1000000000000000000, "pad_id": 9, "pad_type_id": 0,
            "pad_token": "[PAD]"}"#,
        ..plain()
    };
    assert_eq!(encodes(coarse, "one two"), None);
}

#[test]
fn decoders_have_something_to_take_off() {
    assert!(decodes(r#"{"type": "Strip", "content": " ", "start": 1, "stop": 0}"#));
    let ends = r#"{"type": "Strip", "content": " ", "start": 1, "stop": 1}"#;
    assert!(decodes(ends));
    let blank = |count: usize| {
        let mut t = build(Parts { decoder: ends, ..plain() });
        t.add_tokens(&[AddedToken::from(" ".repeat(count), false)]);
        t
    };
    assert!(!can_decode(&blank(1)));
    assert!(can_decode(&blank(2)));
    assert_eq!(decode_ids(&blank(2), &vec![4, 1, 4]).unwrap(), "one");
    let llama = r#"{"type": "Sequence", "decoders": [
        {"type": "Replace", "pattern": {"String": "x"}, "content": " "},
        {"type": "ByteFallback"}, {"type": "Fuse"},
        {"type": "Strip", "content": " ", "start": 1, "stop": 0}]}"#;
    assert!(decodes(llama));
    assert_eq!(build(Parts { decoder: llama, ..plain() }).decode(&[3, 3], true).unwrap(), "one one");
    let nested = r#"{"type": "Sequence", "decoders": [{"type": "Fuse"}, {"type": "Sequence",
        "decoders": [{"type": "Strip", "content": " ", "start": 0, "stop": 2}]}]}"#;
    assert!(!decodes(nested));
}

#[test]
fn decoders_have_something_to_count() {
    let bpe = r#"{"type": "BPEDecoder", "suffix": "</w>"}"#;
    assert!(decodes(bpe));
    let t = build(Parts { decoder: bpe, ..plain() });
    assert_eq!(decode_ids(&t, &vec![1, 2]).unwrap(), "onetwo");
    assert_eq!(decode_ids(&t, &vec![]).unwrap(), "");
    assert_eq!(decode_ids(&t, &vec![77]).unwrap(), "");
    let ctc = r#"{"type": "CTC", "pad_token": "one", "word_delimiter_token": "|", "cleanup": true}"#;
    assert!(decodes(ctc));
    let emptied = r#"{"type": "Sequence", "decoders": [
        {"type": "CTC", "pad_token": "one", "word_delimiter_token": "|", "cleanup": true},
        {"type": "BPEDecoder", "suffix": "</w>"}]}"#;
    assert!(!decodes(emptied));
    let fused = r#"{"type": "Sequence", "decoders": [
        {"type": "CTC", "pad_token": "one", "word_delimiter_token": "|", "cleanup": true},
        {"type": "Fuse"}, {"type": "BPEDecoder", "suffix": "</w>"}]}"#;
    assert!(decodes(fused));
}

#[test]
fn special_tokens_are_no_part_of_a_text() {
    let special = r#"[{"id": 4, "content": "<s>", "single_word": false, "lstrip": false,
        "rstrip": false, "normalized": false, "special": true}]"#;
    let t = build(Parts { added_tokens: special, ..plain() });
    assert_eq!(decode_ids(&t, &vec![4, 1, 4, 2]).unwrap(), "one two");
    assert_eq!(decode_ids(&t, &vec![4, 4]).unwrap(), "");
    let bpe = r#"{"type": "BPEDecoder", "suffix": "</w>"}"#;
    let t = build(Parts { added_tokens: special, decoder: bpe, ..plain() });
    assert_eq!(decode_ids(&t, &vec![4]).unwrap(), "");
}

#[test]
fn added_tokens_are_found_by_the_normalizer_of_now() {
    let space = r#"[{"id": 4, "content": " ", "single_word": false, "lstrip": false,
        "rstrip": false, "normalized": true, "special": false}]"#;
    let strip = r#"{"type": "Strip", "strip_left": true, "strip_right": true}"#;
    let mut t = build(Parts { added_tokens: space, normalizer: strip, ..plain() });
    assert!(!can_encode(&mut t));
    t.with_normalizer(None::<NormalizerWrapper>);
    assert!(can_encode(&mut t));
    assert_eq!(tokenize_text(&t, "one two", 10).unwrap(), vec![1, 4, 2]);
    assert_eq!(t.get_vocab_size(true), 5);
}
