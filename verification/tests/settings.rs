use orl::double::Real;
use orl::dpo::DpoConfig;
use orl::ilql::IlqlConfig;
use orl::replay_buffer::DataConfig;
use orl::rw_sft::RwSftConfig;

fn float(x: Real) -> f64 {
    f64::from_bits(x.bits)
}

#[test]
fn ilql_defaults() {
    let c = IlqlConfig::default();
    assert_eq!(float(c.gamma), 0.99);
    assert_eq!(float(c.cql_alpha), 1.0);
    assert_eq!(float(c.expectile_tau), 0.7);
    assert_eq!(float(c.target_update_tau), 0.005);
    assert_eq!(float(c.sft_weight), 0.1);
    assert_eq!(c.q_head_layers, 2);
    assert_eq!(c.batch_size, 1);
}

#[test]
fn dpo_defaults() {
    let mut c = DpoConfig::default();
    assert_eq!(float(c.beta), 0.1);
    assert_eq!(float(c.label_smoothing), 0.0);
    assert_eq!(float(c.reward_margin), 0.1);
    assert_eq!(c.pairing_strategy, "same_technique");
    assert_eq!(c.batch_size, 1);
    assert!(!c.smooths_labels());
    c.label_smoothing = Real::from_bits(0.1f64.to_bits());
    assert!(c.smooths_labels());
}

#[test]
fn rw_sft_defaults() {
    let c = RwSftConfig::default();
    assert_eq!(float(c.temperature), 1.0);
    assert_eq!(c.normalization, "exponential");
    assert_eq!(float(c.reward_threshold), 0.5);
    assert_eq!(c.batch_size, 1);
}

#[test]
fn data_defaults() {
    let c = DataConfig::default();
    assert_eq!(c.max_prompt_length, 2048);
    assert_eq!(c.max_response_length, 4096);
    assert_eq!(float(c.min_reward), -1.0);
    assert_eq!(float(c.train_split), 0.9);
}
