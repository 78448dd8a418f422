use orl::batch::IGNORE_INDEX;
use orl::double::Real;
use orl::eval::evaluation_batches;
use orl::grid::Grid;
use orl::preference::TokenizedExample;
use orl::replay_buffer::{
    build_dpo_batch, build_ilql_batch, collect_examples, make_example, DataConfig, ReplayBuffer,
};
use orl::pipeline::can_encode;
use orl::tokenize::{accept_encoding, keep_tail, tokenize_text};
use orl::trajectory::{BaselineData, Dataset, Experiment, StepData, Trajectory};
use rand::rngs::StdRng;
use rand::SeedableRng;
use tokenizers::Tokenizer;

fn r(x: f64) -> Real {
    Real::from_bits(x.to_bits())
}

fn float(x: Real) -> f64 {
    f64::from_bits(x.bits)
}

fn tokenizer(truncation: &str, unk: &str) -> Tokenizer {
    let json = format!(
        r#"{{"version": "1.0", "truncation": {}, "padding": null, "added_tokens": [],
        "normalizer": null, "pre_tokenizer": {{"type": "Whitespace"}},
        "post_processor": null, "decoder": null,
        "model": {{"type": "WordLevel", "vocab": {{"one": 1, "two": 2, "three": 3, "[UNK]": 0}},
        "unk_token": "{}"}}}}"#,
        truncation, unk
    );
    Tokenizer::from_bytes(json.as_bytes()).unwrap()
}

fn words() -> Tokenizer {
    tokenizer("null", "[UNK]")
}

fn step(prompt: &str, response: &str, reward: f64) -> StepData {
    StepData {
        trajectory_id: 3,
        step_id: 4,
        technique: "tiling".to_string(),
        prompt_text: prompt.to_string(),
        response_text: response.to_string(),
        cuda_code: String::new(),
        reward: r(reward),
        baseline_cycles: 0,
        optimized_cycles: 0,
        improvement_pct: r(0.0),
        compiled: true,
        executed: true,
    }
}

fn dataset(steps: Vec<StepData>) -> Dataset {
    Dataset {
        experiments: vec![Experiment {
            problem_name: String::new(),
            model_name: String::new(),
            level: String::new(),
            baseline: BaselineData {
                init_code: String::new(),
                profile: String::new(),
                optimization_plan: Vec::new(),
                state_response: String::new(),
            },
            trajectories: vec![Trajectory {
                id: 3,
                hash: String::new(),
                steps,
            }],
            all_rewards: Vec::new(),
        }],
    }
}

fn settings(min_reward: f64) -> DataConfig {
    DataConfig {
        max_prompt_length: 2,
        max_response_length: 3,
        min_reward: r(min_reward),
        train_split: r(0.5),
    }
}

fn example(token: u32, reward: f64) -> TokenizedExample {
    TokenizedExample {
        prompt_ids: vec![token],
        response_ids: vec![token + 1, token + 2],
        reward: r(reward),
        trajectory_id: 0,
        step_id: 0,
        technique: "a".to_string(),
    }
}

fn gaps(examples: &[TokenizedExample]) -> Grid<Real> {
    let n = examples.len();
    let mut cells = Vec::new();
    for a in examples {
        for b in examples {
            cells.push(r((float(a.reward) - float(b.reward)).abs()));
        }
    }
    Grid {
        rows: n,
        cols: n,
        cells,
    }
}

fn buffer(examples: Vec<TokenizedExample>, split: usize) -> ReplayBuffer {
    let train = gaps(&examples[..split]);
    let eval = gaps(&examples[split..]);
    let weights = (0..split).map(|i| r(i as f64 + 0.5)).collect();
    ReplayBuffer::new(examples, split, &train, &eval, weights, DataConfig::default())
}

#[test]
fn the_last_tokens_are_kept() {
    assert_eq!(keep_tail(vec![1, 2, 3], 2), vec![2, 3]);
    assert_eq!(keep_tail(vec![1, 2, 3], 3), vec![1, 2, 3]);
    assert_eq!(keep_tail(vec![1], 0), Vec::<u32>::new());
    assert_eq!(accept_encoding(Ok(vec![1, 2]), 1).unwrap(), vec![2]);
    let e = accept_encoding(Err("x".to_string()), 1).err().unwrap();
    assert_eq!(e.message, "tokenization error: x");
}

#[test]
fn texts_become_tokens() {
    let mut t = words();
    assert!(can_encode(&mut t));
    assert_eq!(tokenize_text(&t, "one two three", 10).unwrap(), vec![1, 2, 3]);
    assert_eq!(tokenize_text(&t, "one two three", 2).unwrap(), vec![2, 3]);
    assert_eq!(tokenize_text(&t, "four", 2).unwrap(), vec![0]);
    assert!(tokenize_text(&t, "", 2).unwrap().is_empty());
}

#[test]
fn a_failing_tokenizer_is_reported() {
    let t = tokenizer("null", "[NONE]");
    let e = tokenize_text(&t, "four", 2).err().unwrap();
    let cause = t.encode("four", false).err().unwrap();
    assert_eq!(e.message, format!("tokenization error: {}", cause));
}

#[test]
fn truncation_settings_are_checked() {
    let sound = r#"{"direction": "Right", "max_length": 2, "strategy": "LongestFirst", "stride": 1}"#;
    let mut t = tokenizer(sound, "[UNK]");
    assert!(can_encode(&mut t));
    assert_eq!(tokenize_text(&t, "one two three", 10).unwrap(), vec![1, 2]);
    t.get_truncation_mut().unwrap().stride = 2;
    assert!(!can_encode(&mut t));
    t.get_truncation_mut().unwrap().max_length = 0;
    assert!(can_encode(&mut t));
}

#[test]
fn examples_need_tokens_on_both_sides() {
    let s = step("p", "r", 0.5);
    let e = make_example(&s, vec![1], vec![2]).unwrap();
    assert_eq!(e.prompt_ids, vec![1]);
    assert_eq!(e.response_ids, vec![2]);
    assert_eq!(e.trajectory_id, 3);
    assert_eq!(e.step_id, 4);
    assert_eq!(e.technique, "tiling");
    assert!(make_example(&s, vec![], vec![2]).is_none());
    assert!(make_example(&s, vec![1], vec![]).is_none());
}

#[test]
fn steps_become_examples() {
    let data = dataset(vec![
        step("one two three", "one one two three", 0.5),
        step("one", "two", -0.5),
        step("", "two", 0.5),
        step("two", "", 0.5),
        step("three", "three", 0.0),
        step("three", "one", f64::NAN),
    ]);
    let examples = collect_examples(&data, &words(), &settings(0.0)).unwrap();
    assert_eq!(examples.len(), 3);
    assert_eq!(examples[0].prompt_ids, vec![2, 3]);
    assert_eq!(examples[0].response_ids, vec![1, 2, 3]);
    assert_eq!(examples[1].prompt_ids, vec![3]);
    assert_eq!(float(examples[1].reward), 0.0);
    assert!(float(examples[2].reward).is_nan());
}

#[test]
fn a_step_that_is_left_out_is_not_tokenized() {
    let failing = tokenizer("null", "[NONE]");
    let low = dataset(vec![step("four", "four", -1.0)]);
    assert!(collect_examples(&low, &failing, &settings(0.0)).unwrap().is_empty());
    let high = dataset(vec![step("four", "four", 1.0)]);
    let e = collect_examples(&high, &failing, &settings(0.0)).err().unwrap();
    let cause = failing.encode("four", false).err().unwrap();
    assert_eq!(e.message, format!("tokenization error: {}", cause));
}

#[test]
fn the_buffer_splits_its_examples() {
    let b = buffer(vec![example(1, 0.0), example(2, 1.0), example(3, 0.0), example(4, 0.5)], 3);
    assert_eq!(b.train_len(), 3);
    assert_eq!(b.eval_len(), 1);
    assert_eq!(b.preference_pairs_len(), 2);
    assert!(b.eval_preference_pairs.is_empty());
    assert_eq!(b.eval_examples[0].prompt_ids, vec![4]);
    assert!(b.has_room_for(1000));
    assert!(!b.has_room_for(usize::MAX));
}

#[test]
fn batches_are_built_from_chosen_examples() {
    let b = buffer(vec![example(1, 0.0), example(5, 1.0)], 2);
    let batch = b.build_sft_batch(&vec![1, 0, 1]);
    assert_eq!(batch.input_ids.cells, vec![5, 6, 7, 1, 2, 3, 5, 6, 7]);
    assert_eq!(batch.weights, vec![r(1.0), r(1.0), r(1.0)]);
    let weighted = b.build_weighted_sft_batch(&vec![1, 0]);
    assert_eq!(weighted.weights, vec![r(1.5), r(0.5)]);
    let pairs = build_dpo_batch(&b.train_preference_pairs, &vec![0]);
    assert_eq!(pairs.chosen_input_ids.cells, vec![5, 6, 7]);
    assert_eq!(pairs.rejected_input_ids.cells, vec![1, 2, 3]);
    let tokens = build_ilql_batch(&b.train_examples, &vec![1]);
    assert_eq!(tokens.labels.cells, vec![IGNORE_INDEX, 6, 7]);
    assert_eq!(float(tokens.rewards.cells[2]), 1.0);
}

#[test]
fn drawn_batches_hold_examples_of_the_buffer() {
    let b = buffer(vec![example(10, 0.0), example(20, 1.0), example(30, 2.0), example(99, 0.0)], 3);
    let mut rng = StdRng::seed_from_u64(7);
    let batch = b.sample_sft_batch(40, &mut rng);
    assert_eq!(batch.input_ids.rows, 40);
    let mut seen: Vec<u32> = (0..40).map(|i| batch.input_ids.cells[i * 3]).collect();
    seen.sort();
    seen.dedup();
    assert_eq!(seen, vec![10, 20, 30]);

    let weighted = b.sample_weighted_sft_batch(20, &mut rng);
    for i in 0..20 {
        let expected = match weighted.input_ids.cells[i * 3] {
            10 => 0.5,
            20 => 1.5,
            _ => 2.5,
        };
        assert_eq!(float(weighted.weights[i]), expected);
    }

    let tokens = b.sample_ilql_batch(5, &mut rng);
    assert_eq!(tokens.is_terminal, vec![true; 5]);
    let pairs = b.sample_dpo_batch(5, &mut rng).unwrap();
    assert_eq!(pairs.chosen_input_ids.rows, 5);
    for i in 0..5 {
        assert!(pairs.chosen_input_ids.cells[i * 3] > pairs.rejected_input_ids.cells[i * 3]);
    }
}

#[test]
fn an_evaluation_looks_at_one_example_at_a_time() {
    let b = buffer((0..100).map(|i| example(10 * i, 0.0)).collect(), 40);
    assert!(b.has_room_for_evaluation());
    let batches = evaluation_batches(&b);
    assert_eq!(batches.len(), b.eval_len());
    for (i, batch) in batches.iter().enumerate() {
        let held_back = &b.eval_examples[i];
        assert_eq!((batch.input_ids.rows, batch.input_ids.cols), (1, 3));
        assert_eq!(batch.input_ids.cells[..1], held_back.prompt_ids);
        assert_eq!(batch.input_ids.cells[1..], held_back.response_ids);
        assert_eq!(batch.labels.cells[0], IGNORE_INDEX);
        assert_eq!(batch.labels.cells[1..], held_back.response_ids);
        assert_eq!(batch.weights, vec![r(1.0)]);
    }
    let nothing = buffer(vec![example(1, 0.0)], 1);
    assert!(evaluation_batches(&nothing).is_empty());
    let nothing_trained_on = buffer(vec![example(1, 0.0)], 0);
    assert_eq!(evaluation_batches(&nothing_trained_on).len(), 1);
}

#[test]
fn two_evaluations_look_at_the_same_batches() {
    let b = buffer((0..7).map(|i| example(10 * i, 0.0)).collect(), 2);
    let first = evaluation_batches(&b);
    let second = evaluation_batches(&b);
    assert_eq!(first.len(), second.len());
    for (x, y) in first.iter().zip(&second) {
        assert_eq!(x.input_ids.cells, y.input_ids.cells);
        assert_eq!(x.labels.cells, y.labels.cells);
        assert_eq!(x.attention_mask.cells, y.attention_mask.cells);
        assert_eq!(x.weights, y.weights);
    }
}

#[test]
fn the_seed_decides_the_draw() {
    let b = buffer((0..50).map(|i| example(10 * i, 0.0)).collect(), 50);
    let draw = |seed: u64| {
        let mut rng = StdRng::seed_from_u64(seed);
        b.sample_sft_batch(10, &mut rng).input_ids.cells
    };
    assert_eq!(draw(42), draw(42));
    assert_ne!(draw(42), draw(43));
}

#[test]
fn no_pairs_no_preference_batch() {
    let b = buffer(vec![example(1, 0.0)], 1);
    let mut rng = StdRng::seed_from_u64(1);
    let e = b.sample_dpo_batch(1, &mut rng).err().unwrap();
    assert_eq!(e, "no preference pairs available");
}
