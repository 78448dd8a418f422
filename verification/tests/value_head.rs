use orl::value_head::target_updates;

fn strings(v: &[&str]) -> Vec<String> {
    v.iter().map(|s| s.to_string()).collect()
}

#[test]
fn each_target_follows_its_source() {
    let names = strings(&[
        "v_head.weight",
        "target_q_head.1.weight",
        "q_head.0.weight",
        "target_v_head.weight",
        "q_head.1.weight",
        "target_q_head.0.weight",
    ]);
    assert_eq!(target_updates(&names), vec![(1, 4), (5, 2), (3, 0)]);
}

#[test]
fn every_layer_of_a_target_follows() {
    let names = strings(&[
        "q_head.0.weight",
        "q_head.1.weight",
        "q_head.2.weight",
        "target_q_head.2.weight",
        "target_q_head.1.weight",
        "target_q_head.0.weight",
    ]);
    assert_eq!(target_updates(&names), vec![(3, 2), (4, 1), (5, 0)]);
}

#[test]
fn a_target_without_a_source_stays() {
    let names = strings(&["target_v_head.weight", "q_head.0.weight", "other"]);
    assert!(target_updates(&names).is_empty());
}

#[test]
fn no_target_is_read() {
    let names = strings(&["target_q_head.0.a", "target_q_head.0.b", "q_head.0.a", "q_head.0.b"]);
    let updates = target_updates(&names);
    assert_eq!(updates, vec![(0, 2), (1, 3)]);
    for (_, source) in &updates {
        assert!(updates.iter().all(|(target, _)| target != source));
    }
}
