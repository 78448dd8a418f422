use orl::batch::{batch_width, dpo_batch, ilql_batch, sft_batch, TokenRow, IGNORE_INDEX};
use orl::double::Real;
use orl::grid::{tabulate, Grid};
use orl::targets::{loss_targets, masked_targets, shift_left};

fn r(x: f64) -> Real {
    Real::from_bits(x.to_bits())
}

const X: u32 = IGNORE_INDEX;

#[test]
fn tables_are_filled_row_by_row() {
    let g: Grid<usize> = tabulate(2, 3, |b: usize, t: usize| 10 * b + t);
    assert_eq!(g.cells, vec![0, 1, 2, 10, 11, 12]);
}

#[test]
fn rows_are_padded_to_the_longest() {
    let (p0, r0, p1, r1) = (vec![1, 2], vec![3], vec![4], vec![5, 6, 7]);
    let rows = vec![
        TokenRow { prompt: &p0, response: &r0 },
        TokenRow { prompt: &p1, response: &r1 },
    ];
    assert_eq!(batch_width(&rows), 4);
    let batch = sft_batch(&rows, vec![r(1.0), r(2.0)]);
    assert_eq!((batch.input_ids.rows, batch.input_ids.cols), (2, 4));
    assert_eq!(batch.input_ids.cells, vec![1, 2, 3, 0, 4, 5, 6, 7]);
    assert_eq!(batch.labels.cells, vec![X, X, 3, X, X, 5, 6, 7]);
    assert_eq!(
        batch.attention_mask.cells,
        vec![true, true, true, false, true, true, true, true]
    );
    assert_eq!(batch.weights, vec![r(1.0), r(2.0)]);
}

#[test]
fn an_empty_batch_is_one_wide() {
    let rows: Vec<TokenRow> = Vec::new();
    assert_eq!(batch_width(&rows), 1);
    let batch = sft_batch(&rows, vec![]);
    assert_eq!((batch.input_ids.rows, batch.input_ids.cols), (0, 1));
}

#[test]
fn the_two_sides_of_pairs_have_their_own_width() {
    let (a, b, c) = (vec![1], vec![2], vec![3, 4]);
    let chosen = vec![TokenRow { prompt: &a, response: &b }];
    let rejected = vec![TokenRow { prompt: &a, response: &c }];
    let batch = dpo_batch(&chosen, &rejected);
    assert_eq!(batch.chosen_input_ids.cells, vec![1, 2]);
    assert_eq!(batch.chosen_labels.cells, vec![X, 2]);
    assert_eq!(batch.chosen_attention_mask.cells, vec![true, true]);
    assert_eq!(batch.rejected_input_ids.cells, vec![1, 3, 4]);
    assert_eq!(batch.rejected_labels.cells, vec![X, 3, 4]);
    assert_eq!(batch.rejected_attention_mask.cells, vec![true, true, true]);
}

#[test]
fn the_reward_is_at_the_last_action() {
    let (p0, r0, p1, r1) = (vec![1], vec![2, 3], vec![4], vec![5]);
    let rows = vec![
        TokenRow { prompt: &p0, response: &r0 },
        TokenRow { prompt: &p1, response: &r1 },
    ];
    let batch = ilql_batch(&rows, &vec![r(0.5), r(-1.0)]);
    let rewards: Vec<f64> = batch.rewards.cells.iter().map(|x| f64::from_bits(x.bits)).collect();
    assert_eq!(rewards, vec![0.0, 0.0, 0.5, 0.0, -1.0, 0.0]);
    assert_eq!(
        batch.action_mask.cells,
        vec![false, true, true, false, true, false]
    );
    assert_eq!(batch.labels.cells, vec![X, 2, 3, X, 5, X]);
    assert_eq!(batch.input_ids.cells, vec![1, 2, 3, 4, 5, 0]);
    assert_eq!(batch.is_terminal, vec![true, true]);
}

#[test]
fn each_position_predicts_the_next() {
    let labels = Grid {
        rows: 2,
        cols: 3,
        cells: vec![7, X, 2, X, 9, 0],
    };
    let t = loss_targets(&labels, 5);
    assert_eq!((t.tokens.rows, t.tokens.cols), (2, 2));
    assert_eq!(t.tokens.cells, vec![4, 2, 4, 0]);
    assert_eq!(t.mask.cells, vec![false, true, true, true]);
    assert_eq!(t.counts, vec![1, 2]);
    assert_eq!(t.total, 3);
}

#[test]
fn a_mask_restricts_the_predictions() {
    let labels = Grid {
        rows: 1,
        cols: 4,
        cells: vec![0, 1, 2, 3],
    };
    let allowed = Grid {
        rows: 1,
        cols: 4,
        cells: vec![true, true, false, true],
    };
    let t = masked_targets(&labels, &allowed, 10);
    assert_eq!(t.tokens.cells, vec![1, 2, 3]);
    assert_eq!(t.mask.cells, vec![true, false, true]);
    assert_eq!(t.total, 2);
    assert_eq!(shift_left(&allowed).cells, vec![true, false, true]);
}

#[test]
fn one_position_predicts_nothing() {
    let labels = Grid {
        rows: 2,
        cols: 1,
        cells: vec![1, 2],
    };
    let t = loss_targets(&labels, 10);
    assert!(t.tokens.cells.is_empty());
    assert_eq!(t.counts, vec![0, 0]);
    assert_eq!(t.total, 0);
}
