use orl::double::Real;
use orl::grid::Grid;
use orl::preference::{build_preference_pairs, make_pair, PreferencePair, TokenizedExample};

fn r(x: f64) -> Real {
    Real::from_bits(x.to_bits())
}

fn float(x: Real) -> f64 {
    f64::from_bits(x.bits)
}

fn example(technique: &str, reward: f64, token: u32) -> TokenizedExample {
    TokenizedExample {
        prompt_ids: vec![token],
        response_ids: vec![token, token + 1],
        reward: r(reward),
        trajectory_id: 0,
        step_id: 0,
        technique: technique.to_string(),
    }
}

fn gaps(examples: &[TokenizedExample]) -> Grid<Real> {
    let n = examples.len();
    let mut cells = Vec::new();
    for a in examples {
        for b in examples {
            cells.push(r((float(a.reward) - float(b.reward)).abs()));
        }
    }
    Grid {
        rows: n,
        cols: n,
        cells,
    }
}

fn pairs(examples: &Vec<TokenizedExample>, margin: f64) -> Vec<PreferencePair> {
    build_preference_pairs(examples, &gaps(examples), r(margin))
}

fn indices(pairs: &[PreferencePair]) -> Vec<(usize, usize)> {
    let mut v: Vec<(usize, usize)> = pairs.iter().map(|p| (p.chosen_idx, p.rejected_idx)).collect();
    v.sort();
    v
}

#[test]
fn the_better_example_is_chosen() {
    let examples = vec![example("a", 0.1, 10), example("a", 0.9, 20)];
    let found = pairs(&examples, 0.1);
    assert_eq!(indices(&found), vec![(1, 0)]);
    let p = &found[0];
    assert_eq!(p.chosen_prompt_ids, vec![20]);
    assert_eq!(p.chosen_response_ids, vec![20, 21]);
    assert_eq!(p.rejected_prompt_ids, vec![10]);
    assert_eq!(p.rejected_response_ids, vec![10, 11]);
    assert_eq!(float(p.reward_chosen), 0.9);
    assert_eq!(float(p.reward_rejected), 0.1);
}

#[test]
fn pairs_are_of_one_technique() {
    let examples = vec![
        example("a", 0.0, 1),
        example("b", 0.5, 2),
        example("a", 0.125, 3),
        example("b", 1.0, 4),
    ];
    let found = pairs(&examples, 0.125);
    assert_eq!(indices(&found), vec![(2, 0), (3, 1)]);
    assert!(pairs(&vec![example("a", 0.0, 1), example("b", 0.5, 2)], 0.1).is_empty());
}

#[test]
fn every_pair_comes_once() {
    let examples: Vec<TokenizedExample> = (0..8)
        .map(|i| example(if i % 2 == 0 { "x" } else { "y" }, i as f64, i as u32))
        .collect();
    let found = indices(&pairs(&examples, 0.1));
    assert_eq!(found.len(), 12);
    let mut unique = found.clone();
    unique.dedup();
    assert_eq!(unique, found);
    assert!(found.iter().all(|(c, r)| c > r && (c - r) % 2 == 0));
}

#[test]
fn equal_rewards_make_no_pair() {
    let examples = vec![example("a", 0.5, 1), example("a", 0.5, 2), example("b", 0.5, 3)];
    assert!(pairs(&examples, 0.1).is_empty());
    assert!(pairs(&Vec::new(), 0.1).is_empty());
}

#[test]
fn of_two_equal_examples_the_second_is_chosen() {
    let examples = vec![example("a", 0.5, 1), example("a", 0.5, 2)];
    let p = make_pair(&examples, 0, 1);
    assert_eq!((p.chosen_idx, p.rejected_idx), (1, 0));
}
