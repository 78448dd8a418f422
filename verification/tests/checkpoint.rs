use orl::checkpoint::{
    auxiliary_file, find_latest_checkpoint, has_auxiliary_checkpoint, state_file, weights_file,
};

fn strings(v: &[&str]) -> Vec<String> {
    v.iter().map(|s| s.to_string()).collect()
}

#[test]
fn files_are_named_by_their_step() {
    assert_eq!(weights_file(100), "checkpoint-100.safetensors");
    assert_eq!(state_file(0), "checkpoint-0-state.json");
    assert_eq!(auxiliary_file(7), "checkpoint-7-value-heads.safetensors");
}

#[test]
fn the_latest_checkpoint_has_the_largest_step() {
    let names = strings(&[
        "checkpoint-9.safetensors",
        "checkpoint-10.safetensors",
        "checkpoint-10-state.json",
        "checkpoint-99-value-heads.safetensors",
        "checkpoint-x.safetensors",
        "model.safetensors",
        "checkpoint-2.safetensors",
    ]);
    assert_eq!(find_latest_checkpoint(&names), Some((10, 1)));
    assert_eq!(find_latest_checkpoint(&strings(&["checkpoint-"])), None);
    assert_eq!(find_latest_checkpoint(&Vec::new()), None);
}

#[test]
fn of_equal_steps_the_first_counts() {
    let names = strings(&["checkpoint-7.safetensors", "checkpoint-007.safetensors"]);
    assert_eq!(find_latest_checkpoint(&names), Some((7, 0)));
}

#[test]
fn a_saved_step_is_found_again() {
    for step in [0usize, 5, 1000, usize::MAX] {
        let names = vec![state_file(step), auxiliary_file(step), weights_file(step)];
        assert_eq!(find_latest_checkpoint(&names), Some((step, 2)));
    }
}

#[test]
fn value_heads_are_looked_up_by_step() {
    let names = vec![weights_file(3), auxiliary_file(3), weights_file(4)];
    assert!(has_auxiliary_checkpoint(&names, 3));
    assert!(!has_auxiliary_checkpoint(&names, 4));
}
