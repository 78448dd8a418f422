use std::collections::HashMap;

use candle_core::{Device, Tensor};
use candle_nn::Activation;
use candle_transformers::generation::LogitsProcessor;
use candle_transformers::models::qwen3::{Config, ModelForCausalLM};
use orl::loader::DType;
use orl::model::{build_model, can_build};
use orl::pipeline::{can_decode, can_encode};
use orl::serve::{
    answer_chat, apply_chat_template, chat_prompt, chat_response, check_prompt, default_max_tokens,
    default_seed, end_tokens, next_input, resolve_eos_tokens, run_generation, take_token,
    ChatMessage, GenerationOutput, ServeError, Turn,
};
use tokenizers::Tokenizer;

fn message(role: &str, content: &str) -> ChatMessage {
    ChatMessage {
        role: role.to_string(),
        content: content.to_string(),
    }
}

fn tokenizer(vocab: &str, unk: &str) -> Tokenizer {
    let json = format!(
        r#"{{"version": "1.0", "truncation": null, "padding": null, "added_tokens": [],
        "normalizer": null, "pre_tokenizer": {{"type": "WhitespaceSplit"}},
        "post_processor": null, "decoder": null,
        "model": {{"type": "WordLevel", "vocab": {}, "unk_token": "{}"}}}}"#,
        vocab, unk
    );
    Tokenizer::from_bytes(json.as_bytes()).unwrap()
}

fn words() -> Tokenizer {
    tokenizer(r#"{"zero": 0, "hello": 1, "[UNK]": 2}"#, "[UNK]")
}

fn config() -> Config {
    Config {
        vocab_size: 8,
        hidden_size: 4,
        intermediate_size: 8,
        num_hidden_layers: 1,
        num_attention_heads: 2,
        head_dim: 2,
        attention_bias: false,
        num_key_value_heads: 1,
        max_position_embeddings: 64,
        sliding_window: None,
        max_window_layers: 0,
        tie_word_embeddings: true,
        rope_theta: 10000.0,
        rms_norm_eps: 1e-6,
        use_sliding_window: false,
        hidden_act: Activation::Silu,
    }
}

/// Tensors of zeros for a model of one layer.
fn tensors() -> HashMap<String, Tensor> {
    let shapes: [(&str, Vec<usize>); 14] = [
        ("model.embed_tokens", vec![8, 4]),
        ("model.norm", vec![4]),
        ("model.layers.0.input_layernorm", vec![4]),
        ("model.layers.0.post_attention_layernorm", vec![4]),
        ("model.layers.0.self_attn.q_proj", vec![4, 4]),
        ("model.layers.0.self_attn.k_proj", vec![2, 4]),
        ("model.layers.0.self_attn.v_proj", vec![2, 4]),
        ("model.layers.0.self_attn.o_proj", vec![4, 4]),
        ("model.layers.0.self_attn.q_norm", vec![2]),
        ("model.layers.0.self_attn.k_norm", vec![2]),
        ("model.layers.0.mlp.gate_proj", vec![8, 4]),
        ("model.layers.0.mlp.up_proj", vec![8, 4]),
        ("model.layers.0.mlp.down_proj", vec![4, 8]),
        ("lm_head", vec![8, 4]),
    ];
    shapes
        .into_iter()
        .map(|(name, shape)| {
            let zeros = Tensor::zeros(shape, candle_core::DType::F32, &Device::Cpu).unwrap();
            (format!("{}.weight", name), zeros)
        })
        .collect()
}

fn model() -> ModelForCausalLM {
    build_model(&config(), tensors(), DType::F32, &Device::Cpu).unwrap()
}

fn greedy() -> LogitsProcessor {
    LogitsProcessor::new(42, None, None)
}

#[test]
fn a_model_has_parts_of_some_width() {
    assert!(can_build(&config()));
    for k in 0..8 {
        let mut c = config();
        let size = match k {
            0 => &mut c.vocab_size,
            1 => &mut c.hidden_size,
            2 => &mut c.intermediate_size,
            3 => &mut c.num_hidden_layers,
            4 => &mut c.num_attention_heads,
            5 => &mut c.head_dim,
            6 => &mut c.num_key_value_heads,
            _ => &mut c.max_position_embeddings,
        };
        *size = 0;
        assert!(!can_build(&c), "size {}", k);
    }
    let mut deep = config();
    deep.num_hidden_layers = usize::MAX / 4096;
    assert!(!can_build(&deep));
    let mut wide = config();
    wide.num_attention_heads = usize::MAX;
    assert!(!can_build(&wide));
    let mut long = config();
    long.max_position_embeddings = usize::MAX / 8;
    assert!(!can_build(&long));
}

#[test]
fn a_model_is_made_of_its_tensors() {
    let mut few = tensors();
    few.remove("model.norm.weight");
    let e = build_model(&config(), few, DType::F32, &Device::Cpu).err().unwrap();
    assert!(e.to_string().contains("cannot find tensor model.norm.weight"));
    let mut odd = config();
    odd.hidden_size = 6;
    let e = build_model(&odd, tensors(), DType::F32, &Device::Cpu).err().unwrap();
    assert!(e.to_string().contains("shape mismatch for model.embed_tokens.weight"));
    // Token 3 is the only one whose weight in the last layer is not zero.
    let mut biased = tensors();
    let mut head = vec![0f32; 32];
    head[12..16].fill(1.0);
    let head = Tensor::from_vec(head, (8, 4), &Device::Cpu).unwrap();
    let ones = |n: usize| Tensor::ones(n, candle_core::DType::F32, &Device::Cpu).unwrap();
    biased.insert("lm_head.weight".to_string(), head.clone());
    biased.insert("model.embed_tokens.weight".to_string(), head.ones_like().unwrap());
    biased.insert("model.norm.weight".to_string(), ones(4));
    let mut untied = config();
    untied.tie_word_embeddings = false;
    let mut m = build_model(&untied, biased, DType::F32, &Device::Cpu).unwrap();
    let output =
        run_generation(&mut m, &vec![1], 2, &Vec::new(), &mut greedy(), &Device::Cpu).unwrap();
    assert_eq!(output.output_tokens, vec![3, 3]);
}

#[test]
fn a_prompt_opens_and_closes_each_message() {
    let prompt = chat_prompt(&vec![message("user", "hi"), message("assistant", "yes")]);
    assert_eq!(
        prompt,
        "<|im_start|>system\n/no_think<|im_end|>\n\
         <|im_start|>user\nhi<|im_end|>\n\
         <|im_start|>assistant\nyes<|im_end|>\n\
         <|im_start|>assistant\n"
    );
}

#[test]
fn a_system_message_switches_thinking_off() {
    let prompt = chat_prompt(&vec![message("system", "Be brief."), message("user", "hi")]);
    assert_eq!(
        prompt,
        "<|im_start|>system\nBe brief.\n/no_think<|im_end|>\n\
         <|im_start|>user\nhi<|im_end|>\n\
         <|im_start|>assistant\n"
    );
    assert_eq!(
        chat_prompt(&Vec::new()),
        "<|im_start|>system\n/no_think<|im_end|>\n<|im_start|>assistant\n"
    );
}

#[test]
fn the_prompt_is_tokenized() {
    let ids = apply_chat_template(&vec![message("user", "hello zero")], &words()).unwrap();
    assert_eq!(ids, vec![2, 2, 2, 1, 2, 2]);
}

#[test]
fn end_tokens_are_looked_up() {
    assert_eq!(end_tokens(Some(1), Some(2), Some(3)), vec![1, 2]);
    assert_eq!(end_tokens(None, Some(2), Some(3)), vec![2]);
    assert_eq!(end_tokens(None, None, Some(3)), vec![3]);
    assert_eq!(end_tokens(None, None, None), Vec::<u32>::new());
    let t = tokenizer(r#"{"<|im_end|>": 5, "</s>": 6, "[UNK]": 0}"#, "[UNK]");
    assert_eq!(resolve_eos_tokens(&t), vec![5]);
    let t = tokenizer(r#"{"</s>": 6, "[UNK]": 0}"#, "[UNK]");
    assert_eq!(resolve_eos_tokens(&t), vec![6]);
    assert!(resolve_eos_tokens(&words()).is_empty());
}

#[test]
fn tokens_are_taken_until_the_end() {
    let mut output = Vec::new();
    let eos = vec![9];
    assert_eq!(take_token(&mut output, 1, &eos, 3), Turn::Draw);
    assert_eq!(take_token(&mut output, 2, &eos, 3), Turn::Draw);
    assert_eq!(take_token(&mut output, 9, &eos, 3), Turn::Stop);
    assert_eq!(output, vec![1, 2]);
    assert_eq!(take_token(&mut output, 3, &eos, 3), Turn::Full);
    assert_eq!(output, vec![1, 2, 3]);
    let mut one = Vec::new();
    assert_eq!(take_token(&mut one, 1, &eos, 0), Turn::Full);
    assert!(one.is_empty());
    assert_eq!(take_token(&mut one, 9, &eos, 0), Turn::Stop);
    assert_eq!(take_token(&mut output, 4, &eos, 3), Turn::Full);
    assert_eq!(output, vec![1, 2, 3]);
}

#[test]
fn the_model_reads_what_it_has_not_seen() {
    let prompt = vec![4, 5, 6];
    assert_eq!(next_input(&prompt, &vec![]), (vec![4, 5, 6], 0));
    assert_eq!(next_input(&prompt, &vec![7]), (vec![7], 3));
    assert_eq!(next_input(&prompt, &vec![7, 8]), (vec![8], 4));
}

#[test]
fn generation_ends_at_its_limit() {
    let output = run_generation(
        &mut model(),
        &vec![1, 2, 3],
        4,
        &vec![5],
        &mut greedy(),
        &Device::Cpu,
    )
    .unwrap();
    assert_eq!(output.output_tokens, vec![0, 0, 0, 0]);
    assert_eq!(output.prompt_tokens, 3);
    assert_eq!(output.finish_reason, "length");
}

#[test]
fn a_limit_of_nothing_generates_nothing() {
    let output = run_generation(
        &mut model(),
        &vec![1, 2, 3],
        0,
        &vec![5],
        &mut greedy(),
        &Device::Cpu,
    )
    .unwrap();
    assert!(output.output_tokens.is_empty());
    assert_eq!(output.prompt_tokens, 3);
    assert_eq!(output.finish_reason, "length");
}

#[test]
fn generation_stops_at_an_end_token() {
    let output = run_generation(
        &mut model(),
        &vec![1],
        4,
        &vec![0],
        &mut greedy(),
        &Device::Cpu,
    )
    .unwrap();
    assert!(output.output_tokens.is_empty());
    assert_eq!(output.finish_reason, "stop");
}

#[test]
fn generation_forgets_the_last_conversation() {
    let mut m = model();
    for _ in 0..3 {
        let output = run_generation(
            &mut m,
            &vec![1; 40],
            20,
            &Vec::new(),
            &mut greedy(),
            &Device::Cpu,
        )
        .unwrap();
        assert_eq!(output.output_tokens.len(), 20);
    }
}

#[test]
fn a_model_that_fails_is_reported() {
    let result = run_generation(
        &mut model(),
        &vec![1; 60],
        20,
        &Vec::new(),
        &mut greedy(),
        &Device::Cpu,
    );
    let text = result.err().unwrap();
    let mut full = model();
    let mut past_the_end = || -> candle_core::Result<Tensor> {
        full.forward(&Tensor::new(&[1u32; 60], &Device::Cpu)?.unsqueeze(0)?, 0)?;
        for position in 60..65 {
            full.forward(&Tensor::new(&[0u32], &Device::Cpu)?.unsqueeze(0)?, position)?;
        }
        panic!("expected a failure")
    };
    assert_eq!(text, past_the_end().err().unwrap().to_string());
    match answer_chat(
        &vec![message("user", &"hello ".repeat(70))],
        1,
        &words(),
        &Vec::new(),
        &mut model(),
        &mut greedy(),
        &Device::Cpu,
    ) {
        Err(e @ ServeError::Generation(_)) => {
            assert_eq!(e.status_code(), 500);
            assert!(e.error_text().starts_with("generation failed: "));
        }
        _ => panic!("expected a failure"),
    }
}

#[test]
fn a_chat_is_answered() {
    let (output, text) = answer_chat(
        &vec![message("user", "hello")],
        3,
        &words(),
        &vec![7],
        &mut model(),
        &mut greedy(),
        &Device::Cpu,
    )
    .unwrap();
    assert_eq!(output.prompt_tokens, 5);
    assert_eq!(output.output_tokens, vec![0, 0, 0]);
    assert_eq!(text, "zero zero zero");
    let response = chat_response(output, text, 1751452800, "Qwen/Qwen3-0.6B");
    assert_eq!(response.id, "chatcmpl-1751452800");
    assert_eq!(response.object, "chat.completion");
    assert_eq!(response.created, 1751452800);
    assert_eq!(response.model, "Qwen/Qwen3-0.6B");
    assert_eq!(response.choices.len(), 1);
    assert_eq!(response.choices[0].index, 0);
    assert_eq!(response.choices[0].message.role, "assistant");
    assert_eq!(response.choices[0].message.content, "zero zero zero");
    assert_eq!(response.choices[0].finish_reason, "length");
    assert_eq!(response.usage.prompt_tokens, 5);
    assert_eq!(response.usage.completion_tokens, 3);
    assert_eq!(response.usage.total_tokens, 8);
}

#[test]
fn usage_adds_up() {
    let output = GenerationOutput {
        output_tokens: vec![1; 48],
        prompt_tokens: 32,
        finish_reason: "stop".to_string(),
    };
    let response = chat_response(output, String::new(), 0, "m");
    assert_eq!(response.id, "chatcmpl-0");
    assert_eq!(response.usage.total_tokens, 80);
    assert_eq!(response.choices[0].finish_reason, "stop");
}

#[test]
fn an_empty_prompt_is_refused() {
    let e = check_prompt(Ok(vec![])).err().unwrap();
    assert_eq!(e.status_code(), 400);
    assert_eq!(e.error_text(), "empty prompt after tokenization");
    assert_eq!(check_prompt(Ok(vec![3])).unwrap(), vec![3]);
}

#[test]
fn a_failing_tokenizer_is_an_error() {
    let mut broken = tokenizer(r#"{"zero": 0}"#, "[NONE]");
    assert!(can_encode(&mut broken) && can_decode(&broken));
    let prompt = chat_prompt(&vec![message("user", "hello")]);
    let cause = broken.encode(prompt, false).err().unwrap();
    match answer_chat(
        &vec![message("user", "hello")],
        3,
        &broken,
        &Vec::new(),
        &mut model(),
        &mut greedy(),
        &Device::Cpu,
    ) {
        Err(e @ ServeError::Tokenization(_)) => {
            assert_eq!(e.status_code(), 500);
            assert_eq!(e.error_text(), format!("tokenization failed: {}", cause));
        }
        _ => panic!("expected a failure"),
    }
}

#[test]
fn requests_have_defaults() {
    assert_eq!(default_max_tokens(), 256);
    assert_eq!(default_seed(), 42);
}
