use orl::loader::{find_dtype, load_config, parse_dtype, shard_files, shards_of, DType, LoadError};

#[test]
fn number_formats_have_two_names() {
    assert_eq!(parse_dtype("f32"), DType::F32);
    assert_eq!(parse_dtype("Float32"), DType::F32);
    assert_eq!(parse_dtype("F16"), DType::F16);
    assert_eq!(parse_dtype("float16"), DType::F16);
    assert_eq!(parse_dtype("BF16"), DType::BF16);
    assert_eq!(parse_dtype("bfloat16"), DType::BF16);
    assert_eq!(parse_dtype("int8"), DType::BF16);
    assert_eq!(find_dtype("F32"), DType::BF16);
}

#[test]
fn shards_come_in_order_and_once() {
    let index = r#"{"metadata": {}, "weight_map": {
        "a": "model-2.safetensors", "b": "model-1.safetensors",
        "c": "model-2.safetensors", "d": 5}}"#;
    assert_eq!(
        shard_files(index).unwrap(),
        vec!["model-1.safetensors", "model-2.safetensors"]
    );
    let permuted = r#"{"weight_map": {
        "x": "model-2.safetensors", "y": "model-2.safetensors", "z": "model-1.safetensors"}}"#;
    assert_eq!(shard_files(permuted).unwrap(), shard_files(index).unwrap());
    let values = vec![Some("b".to_string()), None, Some("a".to_string()), Some("b".to_string())];
    assert_eq!(shards_of(&values), vec!["a", "b"]);
}

#[test]
fn an_index_must_be_json_with_a_weight_map() {
    assert!(matches!(shard_files("{"), Err(LoadError::Json(e)) if e.is_eof()));
    match shard_files("{") {
        Err(LoadError::Json(e)) => {
            assert_eq!(e.to_string(), "EOF while parsing an object at line 1 column 1")
        }
        Ok(_) => panic!("expected no JSON"),
    }
    for index in ["{}", "[]", "{\"weight_map\": 3}"] {
        match shard_files(index) {
            Err(LoadError::Json(e)) => assert_eq!(e.to_string(), "no weight_map in index"),
            Ok(_) => panic!("expected no weight map"),
        }
    }
    assert!(shard_files("{\"weight_map\": {}}").unwrap().is_empty());
}

#[test]
fn a_configuration_is_read_from_its_text() {
    let content = r#"{"vocab_size": 11, "hidden_size": 8, "intermediate_size": 16,
        "num_hidden_layers": 2, "num_attention_heads": 2, "head_dim": 4,
        "attention_bias": false, "num_key_value_heads": 1, "max_position_embeddings": 32,
        "sliding_window": null, "max_window_layers": 2, "tie_word_embeddings": true,
        "rope_theta": 10000.0, "rms_norm_eps": 1e-6, "use_sliding_window": false,
        "hidden_act": "silu"}"#;
    let config = load_config(content).unwrap();
    assert_eq!(config.vocab_size, 11);
    assert_eq!(config.num_hidden_layers, 2);
    assert_eq!(config.rope_theta, 10000.0);
    assert!(config.tie_word_embeddings);
    match load_config("{}") {
        Err(LoadError::Json(e)) => {
            assert_eq!(e.to_string(), "missing field `vocab_size` at line 1 column 2")
        }
        Ok(_) => panic!("expected no configuration"),
    }
    assert!(matches!(load_config("vocab_size"), Err(LoadError::Json(e)) if e.is_syntax()));
}
