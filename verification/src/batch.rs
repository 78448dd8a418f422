//! Batches of token sequences, padded to a common width.
//!
//! A row is a prompt followed by a response. Past its end a row is filled with token 0 and
//! is not attended to. The label of a position is its token in the response and
//! `IGNORE_INDEX` everywhere else, so that only responses are learned.
use vstd::prelude::*;

use crate::double::{Real, ONE_BITS};
use crate::grid::{lemma_cell_has_place, tabulate, Grid};

verus! {

/// The label of a position that is not learned.
pub const IGNORE_INDEX: u32 = u32::MAX;

/// A batch for supervised fine-tuning.
pub struct SftBatch {
    pub input_ids: Grid<u32>,
    pub labels: Grid<u32>,
    pub attention_mask: Grid<bool>,
    /// One weight for each row.
    pub weights: Vec<Real>,
}

/// A batch of preference pairs: the chosen and the rejected sequences.
pub struct DpoBatch {
    pub chosen_input_ids: Grid<u32>,
    pub chosen_labels: Grid<u32>,
    pub chosen_attention_mask: Grid<bool>,
    pub rejected_input_ids: Grid<u32>,
    pub rejected_labels: Grid<u32>,
    pub rejected_attention_mask: Grid<bool>,
}

/// A batch for Q-learning over tokens.
pub struct IlqlBatch {
    pub input_ids: Grid<u32>,
    pub labels: Grid<u32>,
    pub attention_mask: Grid<bool>,
    /// Zero but at the last token of each response.
    pub rewards: Grid<Real>,
    /// The positions of response tokens.
    pub action_mask: Grid<bool>,
    pub is_terminal: Vec<bool>,
}

/// A prompt and its response.
pub struct TokenRow<'a> {
    pub prompt: &'a Vec<u32>,
    pub response: &'a Vec<u32>,
}

// ---------------------------------------------------------------------------
// Model
// ---------------------------------------------------------------------------

/// A prompt and its response.
pub struct Row {
    pub prompt: Seq<u32>,
    pub response: Seq<u32>,
}

impl Row {
    pub open spec fn total(self) -> nat {
        self.prompt.len() + self.response.len()
    }

    /// The token at position `t`, padding included.
    pub open spec fn token(self, t: int) -> u32 {
        if 0 <= t < self.total() {
            (self.prompt + self.response)[t]
        } else {
            0
        }
    }

    /// Whether position `t` holds a token of the row.
    pub open spec fn attended(self, t: int) -> bool {
        0 <= t < self.total()
    }

    /// Whether position `t` holds a token of the response.
    pub open spec fn acted(self, t: int) -> bool {
        self.prompt.len() <= t < self.total()
    }

    pub open spec fn label(self, t: int) -> u32 {
        if self.acted(t) {
            self.response[t - self.prompt.len()]
        } else {
            IGNORE_INDEX
        }
    }

    /// The reward at position `t` where the response earns `reward`.
    pub open spec fn reward_at(self, reward: Real, t: int) -> Real {
        if self.response.len() > 0 && t == self.total() - 1 {
            reward
        } else {
            crate::double::zero()
        }
    }
}

impl<'a> View for TokenRow<'a> {
    type V = Row;

    open spec fn view(&self) -> Row {
        Row { prompt: self.prompt@, response: self.response@ }
    }
}

pub open spec fn row_views(rows: Seq<TokenRow>) -> Seq<Row> {
    rows.map_values(|r: TokenRow| r@)
}

/// The length of the longest row.
pub open spec fn longest(rows: Seq<Row>) -> nat
    decreases rows.len(),
{
    if rows.len() == 0 {
        0
    } else if longest(rows.drop_last()) > rows.last().total() {
        longest(rows.drop_last())
    } else {
        rows.last().total()
    }
}

/// The width of a batch: its longest row, and 1 where it has no row.
pub open spec fn width(rows: Seq<Row>) -> nat {
    if rows.len() == 0 {
        1
    } else {
        longest(rows)
    }
}

/// The batch can be stored.
pub open spec fn storable(rows: Seq<Row>) -> bool {
    &&& width(rows) <= usize::MAX
    &&& rows.len() * width(rows) <= usize::MAX
}

/// `g` holds `cell(row, t)` at position `t` of each row.
pub open spec fn spells<T>(g: Grid<T>, rows: Seq<Row>, cell: spec_fn(int, int) -> T) -> bool {
    &&& g.well_formed()
    &&& g.rows == rows.len()
    &&& g.cols == width(rows)
    &&& forall|b: int, t: int|
        0 <= b < g.rows && 0 <= t < g.cols ==> #[trigger] g.at(b, t) == cell(b, t)
}

pub open spec fn spells_tokens(g: Grid<u32>, rows: Seq<Row>) -> bool {
    spells(g, rows, |b: int, t: int| rows[b].token(t))
}

pub open spec fn spells_labels(g: Grid<u32>, rows: Seq<Row>) -> bool {
    spells(g, rows, |b: int, t: int| rows[b].label(t))
}

pub open spec fn spells_attention(g: Grid<bool>, rows: Seq<Row>) -> bool {
    spells(g, rows, |b: int, t: int| rows[b].attended(t))
}

pub open spec fn spells_actions(g: Grid<bool>, rows: Seq<Row>) -> bool {
    spells(g, rows, |b: int, t: int| rows[b].acted(t))
}

pub open spec fn spells_rewards(g: Grid<Real>, rows: Seq<Row>, rewards: Seq<Real>) -> bool {
    spells(g, rows, |b: int, t: int| rows[b].reward_at(rewards[b], t))
}

/// The supervised batch of some rows with their weights.
pub open spec fn is_sft_batch(batch: SftBatch, rows: Seq<Row>, weights: Seq<Real>) -> bool {
    &&& spells_tokens(batch.input_ids, rows)
    &&& spells_labels(batch.labels, rows)
    &&& spells_attention(batch.attention_mask, rows)
    &&& batch.weights@ == weights
}

/// The preference batch of some chosen and some rejected rows.
pub open spec fn is_dpo_batch(batch: DpoBatch, chosen: Seq<Row>, rejected: Seq<Row>) -> bool {
    &&& spells_tokens(batch.chosen_input_ids, chosen)
    &&& spells_labels(batch.chosen_labels, chosen)
    &&& spells_attention(batch.chosen_attention_mask, chosen)
    &&& spells_tokens(batch.rejected_input_ids, rejected)
    &&& spells_labels(batch.rejected_labels, rejected)
    &&& spells_attention(batch.rejected_attention_mask, rejected)
}

/// The Q-learning batch of some rows with their rewards.
pub open spec fn is_ilql_batch(batch: IlqlBatch, rows: Seq<Row>, rewards: Seq<Real>) -> bool {
    &&& spells_tokens(batch.input_ids, rows)
    &&& spells_labels(batch.labels, rows)
    &&& spells_attention(batch.attention_mask, rows)
    &&& spells_rewards(batch.rewards, rows, rewards)
    &&& spells_actions(batch.action_mask, rows)
    &&& batch.is_terminal@ == Seq::new(rows.len(), |b: int| true)
}

/// The weight of a row in a batch where all rows count the same.
pub open spec fn one() -> Real {
    Real { bits: ONE_BITS }
}

// ---------------------------------------------------------------------------
// Laws
// ---------------------------------------------------------------------------

/// No row is longer than the longest, and some row is as long where there is one.
pub proof fn law_longest_is_bound(rows: Seq<Row>)
    ensures
        forall|i: int| 0 <= i < rows.len() ==> (#[trigger] rows[i]).total() <= longest(rows),
        rows.len() > 0 ==> exists|i: int|
            0 <= i < rows.len() && (#[trigger] rows[i]).total() == longest(rows),
    decreases rows.len(),
{
    if rows.len() > 0 {
        let rest = rows.drop_last();
        law_longest_is_bound(rest);
        assert forall|i: int| 0 <= i < rows.len() implies (#[trigger] rows[i]).total() <= longest(
            rows,
        ) by {
            if i < rest.len() {
                assert(rest[i].total() <= longest(rest));
            }
        }
        if longest(rest) > rows.last().total() {
            assert(rest.len() > 0);
            let i = choose|i: int| 0 <= i < rest.len() && (#[trigger] rest[i]).total() == longest(
                rest,
            );
            assert(rows[i].total() == longest(rows));
        } else {
            assert(rows[rows.len() - 1].total() == longest(rows));
        }
    }
}

/// Two tables have the same shape and the same cells.
pub open spec fn same_grid<T>(a: Grid<T>, b: Grid<T>) -> bool {
    a.rows == b.rows && a.cols == b.cols && a.cells@ == b.cells@
}

/// Two supervised batches hold the same.
pub open spec fn same_sft_batch(a: SftBatch, b: SftBatch) -> bool {
    &&& same_grid(a.input_ids, b.input_ids)
    &&& same_grid(a.labels, b.labels)
    &&& same_grid(a.attention_mask, b.attention_mask)
    &&& a.weights@ == b.weights@
}

proof fn lemma_spelled_once<T>(
    a: Grid<T>,
    b: Grid<T>,
    rows: Seq<Row>,
    cell: spec_fn(int, int) -> T,
)
    requires
        spells(a, rows, cell),
        spells(b, rows, cell),
    ensures
        same_grid(a, b),
{
    let cols = a.cols as int;
    assert forall|k: int| 0 <= k < a.cells@.len() implies a.cells@[k] == b.cells@[k] by {
        let (r, t) = lemma_cell_has_place(a.rows as int, cols, k);
        assert(a.at(r, t) == cell(r, t));
        assert(b.at(r, t) == cell(r, t));
    }
    assert(a.cells@ =~= b.cells@);
}

/// What a supervised batch holds is determined by its rows and their weights.
pub proof fn law_sft_batch_unique(a: SftBatch, b: SftBatch, rows: Seq<Row>, weights: Seq<Real>)
    requires
        is_sft_batch(a, rows, weights),
        is_sft_batch(b, rows, weights),
    ensures
        same_sft_batch(a, b),
{
    lemma_spelled_once(a.input_ids, b.input_ids, rows, |r: int, t: int| rows[r].token(t));
    lemma_spelled_once(a.labels, b.labels, rows, |r: int, t: int| rows[r].label(t));
    lemma_spelled_once(
        a.attention_mask,
        b.attention_mask,
        rows,
        |r: int, t: int| rows[r].attended(t),
    );
}

/// Nothing is lost in a batch: the attended positions of a row are its first ones, and they
/// hold its prompt and then its response.
pub proof fn law_batch_keeps_rows(g: Grid<u32>, rows: Seq<Row>, b: int)
    requires
        spells_tokens(g, rows),
        0 <= b < rows.len(),
    ensures
        rows[b].total() <= g.cols,
        Seq::new(rows[b].total(), |t: int| g.at(b, t)) == rows[b].prompt + rows[b].response,
{
    law_longest_is_bound(rows);
    let row = rows[b];
    assert(row.total() <= longest(rows));
    assert forall|t: int| 0 <= t < row.total() implies g.at(b, t) == (row.prompt
        + row.response)[t] by {
        assert(g.at(b, t) == rows[b].token(t));
    }
    assert(Seq::new(row.total(), |t: int| g.at(b, t)) =~= row.prompt + row.response);
}

/// A position that is learned holds a response token, and its label is that token; every
/// other position carries the label that is ignored.
pub proof fn law_labels_are_actions(row: Row, t: int)
    requires
        0 <= t,
    ensures
        row.acted(t) ==> row.attended(t) && row.label(t) == row.token(t),
        !row.acted(t) ==> row.label(t) == IGNORE_INDEX,
{
}

/// A response earns its reward once: at its last token and nowhere else.
pub proof fn law_reward_at_last_action(row: Row, reward: Real, t: int)
    requires
        0 <= t,
        row.response.len() > 0,
    ensures
        t == row.total() - 1 ==> row.acted(t) && row.reward_at(reward, t) == reward,
        t != row.total() - 1 ==> row.reward_at(reward, t) == crate::double::zero(),
        row.acted(row.total() - 1) && !row.acted(row.total() as int),
{
}

// ---------------------------------------------------------------------------
// Building
// ---------------------------------------------------------------------------

/// The width of a batch.
pub fn batch_width(rows: &Vec<TokenRow>) -> (n: usize)
    requires
        width(row_views(rows@)) <= usize::MAX,
    ensures
        n == width(row_views(rows@)),
{
    if rows.len() == 0 {
        return 1;
    }
    let ghost views = row_views(rows@);
    let mut n: usize = 0;
    let mut i: usize = 0;
    while i < rows.len()
        invariant
            views == row_views(rows@),
            longest(views) <= usize::MAX,
            i <= rows@.len(),
            n == longest(views.take(i as int)),
        decreases rows@.len() - i,
    {
        proof {
            law_longest_is_bound(views);
            assert(views[i as int].total() <= longest(views));
            assert(views.take(i + 1).drop_last() =~= views.take(i as int));
        }
        let total: usize = rows[i].prompt.len() + rows[i].response.len();
        if n <= total {
            n = total;
        }
        i = i + 1;
    }
    assert(views.take(views.len() as int) =~= views);
    n
}

proof fn lemma_row_fits(rows: Seq<Row>, b: int)
    requires
        0 <= b < rows.len(),
    ensures
        rows[b].total() <= width(rows),
{
    law_longest_is_bound(rows);
}

fn token_grid(rows: &Vec<TokenRow>) -> (g: Grid<u32>)
    requires
        storable(row_views(rows@)),
    ensures
        spells_tokens(g, row_views(rows@)),
{
    let ghost views = row_views(rows@);
    let cols: usize = batch_width(rows);
    let cell = |b: usize, t: usize| -> (x: u32)
        requires
            b < rows@.len(),
            rows@[b as int]@.total() <= usize::MAX,
        ensures
            x == rows@[b as int]@.token(t as int),
        {
            let prompt_len: usize = rows[b].prompt.len();
            if t < prompt_len {
                rows[b].prompt[t]
            } else if t - prompt_len < rows[b].response.len() {
                rows[b].response[t - prompt_len]
            } else {
                0
            }
        };
    proof {
        assert forall|b: usize, t: usize| b < rows@.len() && t < cols implies call_requires(
            cell,
            (b, t),
        ) by {
            lemma_row_fits(views, b as int);
            assert(views[b as int] == rows@[b as int]@);
        }
    }
    let g = tabulate(rows.len(), cols, cell);
    proof {
        assert forall|b: int, t: int| 0 <= b < g.rows && 0 <= t < g.cols implies #[trigger] g.at(
            b,
            t,
        ) == views[b].token(t) by {
            let bb = b as usize;
            let tt = t as usize;
            assert(call_ensures(cell, (bb, tt), g.at(bb as int, tt as int)));
        }
    }
    g
}

fn label_grid(rows: &Vec<TokenRow>) -> (g: Grid<u32>)
    requires
        storable(row_views(rows@)),
    ensures
        spells_labels(g, row_views(rows@)),
{
    let ghost views = row_views(rows@);
    let cols: usize = batch_width(rows);
    let cell = |b: usize, t: usize| -> (x: u32)
        requires
            b < rows@.len(),
        ensures
            x == rows@[b as int]@.label(t as int),
        {
            let prompt_len: usize = rows[b].prompt.len();
            if t >= prompt_len && t - prompt_len < rows[b].response.len() {
                rows[b].response[t - prompt_len]
            } else {
                IGNORE_INDEX
            }
        };
    let g = tabulate(rows.len(), cols, cell);
    proof {
        assert forall|b: int, t: int| 0 <= b < g.rows && 0 <= t < g.cols implies #[trigger] g.at(
            b,
            t,
        ) == views[b].label(t) by {
            let bb = b as usize;
            let tt = t as usize;
            assert(call_ensures(cell, (bb, tt), g.at(bb as int, tt as int)));
        }
    }
    g
}

fn attention_grid(rows: &Vec<TokenRow>) -> (g: Grid<bool>)
    requires
        storable(row_views(rows@)),
    ensures
        spells_attention(g, row_views(rows@)),
{
    let ghost views = row_views(rows@);
    let cols: usize = batch_width(rows);
    let cell = |b: usize, t: usize| -> (x: bool)
        requires
            b < rows@.len(),
        ensures
            x == rows@[b as int]@.attended(t as int),
        {
            let prompt_len: usize = rows[b].prompt.len();
            t < prompt_len || t - prompt_len < rows[b].response.len()
        };
    let g = tabulate(rows.len(), cols, cell);
    proof {
        assert forall|b: int, t: int| 0 <= b < g.rows && 0 <= t < g.cols implies #[trigger] g.at(
            b,
            t,
        ) == views[b].attended(t) by {
            let bb = b as usize;
            let tt = t as usize;
            assert(call_ensures(cell, (bb, tt), g.at(bb as int, tt as int)));
        }
    }
    g
}

fn action_grid(rows: &Vec<TokenRow>) -> (g: Grid<bool>)
    requires
        storable(row_views(rows@)),
    ensures
        spells_actions(g, row_views(rows@)),
{
    let ghost views = row_views(rows@);
    let cols: usize = batch_width(rows);
    let cell = |b: usize, t: usize| -> (x: bool)
        requires
            b < rows@.len(),
        ensures
            x == rows@[b as int]@.acted(t as int),
        {
            let prompt_len: usize = rows[b].prompt.len();
            t >= prompt_len && t - prompt_len < rows[b].response.len()
        };
    let g = tabulate(rows.len(), cols, cell);
    proof {
        assert forall|b: int, t: int| 0 <= b < g.rows && 0 <= t < g.cols implies #[trigger] g.at(
            b,
            t,
        ) == views[b].acted(t) by {
            let bb = b as usize;
            let tt = t as usize;
            assert(call_ensures(cell, (bb, tt), g.at(bb as int, tt as int)));
        }
    }
    g
}

fn reward_grid(rows: &Vec<TokenRow>, rewards: &Vec<Real>) -> (g: Grid<Real>)
    requires
        storable(row_views(rows@)),
        rewards@.len() == rows@.len(),
    ensures
        spells_rewards(g, row_views(rows@), rewards@),
{
    let ghost views = row_views(rows@);
    let cols: usize = batch_width(rows);
    let cell = |b: usize, t: usize| -> (x: Real)
        requires
            b < rows@.len(),
            b < rewards@.len(),
        ensures
            x == rows@[b as int]@.reward_at(rewards@[b as int], t as int),
        {
            let prompt_len: usize = rows[b].prompt.len();
            let response_len: usize = rows[b].response.len();
            if response_len > 0 && t >= prompt_len && t - prompt_len == response_len - 1 {
                rewards[b]
            } else {
                Real::zero()
            }
        };
    let g = tabulate(rows.len(), cols, cell);
    proof {
        assert forall|b: int, t: int| 0 <= b < g.rows && 0 <= t < g.cols implies #[trigger] g.at(
            b,
            t,
        ) == views[b].reward_at(rewards@[b], t) by {
            let bb = b as usize;
            let tt = t as usize;
            assert(call_ensures(cell, (bb, tt), g.at(bb as int, tt as int)));
        }
    }
    g
}

/// The supervised batch of some rows with their weights.
pub fn sft_batch(rows: &Vec<TokenRow>, weights: Vec<Real>) -> (batch: SftBatch)
    requires
        storable(row_views(rows@)),
    ensures
        is_sft_batch(batch, row_views(rows@), weights@),
{
    SftBatch {
        input_ids: token_grid(rows),
        labels: label_grid(rows),
        attention_mask: attention_grid(rows),
        weights,
    }
}

/// The preference batch of some chosen and some rejected rows.
pub fn dpo_batch(chosen: &Vec<TokenRow>, rejected: &Vec<TokenRow>) -> (batch: DpoBatch)
    requires
        storable(row_views(chosen@)),
        storable(row_views(rejected@)),
    ensures
        is_dpo_batch(batch, row_views(chosen@), row_views(rejected@)),
{
    DpoBatch {
        chosen_input_ids: token_grid(chosen),
        chosen_labels: label_grid(chosen),
        chosen_attention_mask: attention_grid(chosen),
        rejected_input_ids: token_grid(rejected),
        rejected_labels: label_grid(rejected),
        rejected_attention_mask: attention_grid(rejected),
    }
}

/// The Q-learning batch of some rows with their rewards. Every row ends its episode.
pub fn ilql_batch(rows: &Vec<TokenRow>, rewards: &Vec<Real>) -> (batch: IlqlBatch)
    requires
        storable(row_views(rows@)),
        rewards@.len() == rows@.len(),
    ensures
        is_ilql_batch(batch, row_views(rows@), rewards@),
{
    let mut is_terminal: Vec<bool> = Vec::new();
    let mut i: usize = 0;
    while i < rows.len()
        invariant
            i <= rows@.len(),
            is_terminal@ == Seq::new(i as nat, |b: int| true),
        decreases rows@.len() - i,
    {
        is_terminal.push(true);
        assert(is_terminal@ =~= Seq::new((i + 1) as nat, |b: int| true));
        i = i + 1;
    }
    IlqlBatch {
        input_ids: token_grid(rows),
        labels: label_grid(rows),
        attention_mask: attention_grid(rows),
        rewards: reward_grid(rows, rewards),
        action_mask: action_grid(rows),
        is_terminal,
    }
}

/// What a row of tokens stands for: its prompt followed by its response.
pub proof fn law_rows_are_kept(rows: Seq<TokenRow>, i: int)
    requires
        0 <= i < rows.len(),
    ensures
        row_views(rows).len() == rows.len(),
        row_views(rows)[i].prompt == rows[i].prompt@,
        row_views(rows)[i].response == rows[i].response@,
        row_views(rows)[i].total() == rows[i].prompt@.len() + rows[i].response@.len(),
{
}

/// A batch is as wide as its longest row, and one wide without rows.
pub proof fn law_width(rows: Seq<Row>)
    ensures
        rows.len() == 0 ==> width(rows) == 1,
        forall|i: int|
            0 <= i < rows.len() ==> (#[trigger] rows[i]).prompt.len() + rows[i].response.len()
                <= width(rows),
        rows.len() > 0 ==> exists|i: int|
            0 <= i < rows.len() && (#[trigger] rows[i]).prompt.len() + rows[i].response.len()
                == width(rows),
        storable(rows) <==> width(rows) <= usize::MAX && rows.len() * width(rows) <= usize::MAX,
{
    law_longest_is_bound(rows);
    assert forall|i: int| 0 <= i < rows.len() implies (#[trigger] rows[i]).prompt.len()
        + rows[i].response.len() <= width(rows) by {
        assert(rows[i].total() <= longest(rows));
    }
    if rows.len() > 0 {
        let i = choose|i: int| 0 <= i < rows.len() && (#[trigger] rows[i]).total() == longest(rows);
        assert(rows[i].prompt.len() + rows[i].response.len() == width(rows));
    }
}

/// In a row of a batch the prompt comes first, then the response, then zeros; only the response is
/// a label, and all but the zeros is attended to.
pub proof fn law_cells_of_a_row(
    ids: Grid<u32>,
    labels: Grid<u32>,
    mask: Grid<bool>,
    rows: Seq<Row>,
    b: int,
    t: int,
)
    requires
        spells_tokens(ids, rows),
        spells_labels(labels, rows),
        spells_attention(mask, rows),
        0 <= b < rows.len(),
        0 <= t < width(rows),
    ensures
        ids.well_formed() && ids.rows == rows.len() && ids.cols == width(rows),
        labels.well_formed() && labels.rows == rows.len() && labels.cols == width(rows),
        mask.well_formed() && mask.rows == rows.len() && mask.cols == width(rows),
        ({
            let p = rows[b].prompt.len();
            let n = p + rows[b].response.len();
            &&& t < p ==> ids.at(b, t) == rows[b].prompt[t] && labels.at(b, t) == u32::MAX
                && mask.at(b, t)
            &&& p <= t < n ==> ids.at(b, t) == rows[b].response[t - p] && labels.at(b, t)
                == rows[b].response[t - p] && mask.at(b, t)
            &&& n <= t ==> ids.at(b, t) == 0 && labels.at(b, t) == u32::MAX && !mask.at(b, t)
        }),
{
    assert(ids.at(b, t) == rows[b].token(t));
    assert(labels.at(b, t) == rows[b].label(t));
    assert(mask.at(b, t) == rows[b].attended(t));
}

/// A batch for supervised training holds its rows and one weight for each.
pub proof fn law_sft_batch_cells(batch: SftBatch, rows: Seq<Row>, weights: Seq<Real>, b: int, t: int)
    requires
        is_sft_batch(batch, rows, weights),
        0 <= b < rows.len(),
        0 <= t < width(rows),
    ensures
        batch.weights@ == weights,
        batch.input_ids.cols == width(rows),
        batch.labels.cols == width(rows),
        batch.attention_mask.cols == width(rows),
        ({
            let p = rows[b].prompt.len();
            let n = p + rows[b].response.len();
            &&& t < p ==> batch.input_ids.at(b, t) == rows[b].prompt[t] && batch.labels.at(b, t)
                == u32::MAX && batch.attention_mask.at(b, t)
            &&& p <= t < n ==> batch.input_ids.at(b, t) == rows[b].response[t - p]
                && batch.labels.at(b, t) == rows[b].response[t - p] && batch.attention_mask.at(b, t)
            &&& n <= t ==> batch.input_ids.at(b, t) == 0 && batch.labels.at(b, t) == u32::MAX
                && !batch.attention_mask.at(b, t)
        }),
{
    law_cells_of_a_row(batch.input_ids, batch.labels, batch.attention_mask, rows, b, t);
}

/// A batch of pairs holds the preferred rows and the others, each on their own side.
pub proof fn law_dpo_batch_cells(
    batch: DpoBatch,
    chosen: Seq<Row>,
    rejected: Seq<Row>,
    b: int,
    t: int,
)
    requires
        is_dpo_batch(batch, chosen, rejected),
    ensures
        0 <= b < chosen.len() && 0 <= t < width(chosen) ==> {
            let p = chosen[b].prompt.len();
            let n = p + chosen[b].response.len();
            &&& batch.chosen_input_ids.cols == width(chosen)
            &&& t < p ==> batch.chosen_input_ids.at(b, t) == chosen[b].prompt[t]
                && batch.chosen_labels.at(b, t) == u32::MAX && batch.chosen_attention_mask.at(b, t)
            &&& p <= t < n ==> batch.chosen_input_ids.at(b, t) == chosen[b].response[t - p]
                && batch.chosen_labels.at(b, t) == chosen[b].response[t - p]
                && batch.chosen_attention_mask.at(b, t)
            &&& n <= t ==> batch.chosen_input_ids.at(b, t) == 0 && batch.chosen_labels.at(b, t)
                == u32::MAX && !batch.chosen_attention_mask.at(b, t)
        },
        0 <= b < rejected.len() && 0 <= t < width(rejected) ==> {
            let p = rejected[b].prompt.len();
            let n = p + rejected[b].response.len();
            &&& batch.rejected_input_ids.cols == width(rejected)
            &&& t < p ==> batch.rejected_input_ids.at(b, t) == rejected[b].prompt[t]
                && batch.rejected_labels.at(b, t) == u32::MAX && batch.rejected_attention_mask.at(
                b,
                t,
            )
            &&& p <= t < n ==> batch.rejected_input_ids.at(b, t) == rejected[b].response[t - p]
                && batch.rejected_labels.at(b, t) == rejected[b].response[t - p]
                && batch.rejected_attention_mask.at(b, t)
            &&& n <= t ==> batch.rejected_input_ids.at(b, t) == 0 && batch.rejected_labels.at(b, t)
                == u32::MAX && !batch.rejected_attention_mask.at(b, t)
        },
{
    if 0 <= b < chosen.len() && 0 <= t < width(chosen) {
        law_cells_of_a_row(
            batch.chosen_input_ids,
            batch.chosen_labels,
            batch.chosen_attention_mask,
            chosen,
            b,
            t,
        );
    }
    if 0 <= b < rejected.len() && 0 <= t < width(rejected) {
        law_cells_of_a_row(
            batch.rejected_input_ids,
            batch.rejected_labels,
            batch.rejected_attention_mask,
            rejected,
            b,
            t,
        );
    }
}

/// A batch for offline learning also marks the response as what was done, gives the reward to its
/// last token and nothing to any other, and ends with each row.
pub proof fn law_ilql_batch_cells(
    batch: IlqlBatch,
    rows: Seq<Row>,
    rewards: Seq<Real>,
    b: int,
    t: int,
)
    requires
        is_ilql_batch(batch, rows, rewards),
        0 <= b < rows.len(),
        0 <= t < width(rows),
    ensures
        batch.input_ids.cols == width(rows),
        batch.rewards.rows == rows.len() && batch.rewards.cols == width(rows),
        batch.action_mask.rows == rows.len() && batch.action_mask.cols == width(rows),
        batch.is_terminal@.len() == rows.len() && batch.is_terminal@[b],
        ({
            let p = rows[b].prompt.len();
            let n = p + rows[b].response.len();
            &&& t < p ==> batch.input_ids.at(b, t) == rows[b].prompt[t] && batch.labels.at(b, t)
                == u32::MAX && batch.attention_mask.at(b, t)
            &&& p <= t < n ==> batch.input_ids.at(b, t) == rows[b].response[t - p]
                && batch.labels.at(b, t) == rows[b].response[t - p] && batch.attention_mask.at(b, t)
            &&& n <= t ==> batch.input_ids.at(b, t) == 0 && batch.labels.at(b, t) == u32::MAX
                && !batch.attention_mask.at(b, t)
            &&& batch.action_mask.at(b, t) <==> p <= t < n
            &&& p < n && t == n - 1 ==> batch.rewards.at(b, t) == rewards[b]
            &&& !(p < n && t == n - 1) ==> batch.rewards.at(b, t).bits == 0
        }),
{
    law_cells_of_a_row(batch.input_ids, batch.labels, batch.attention_mask, rows, b, t);
    assert(batch.rewards.at(b, t) == rows[b].reward_at(rewards[b], t));
    assert(batch.action_mask.at(b, t) == rows[b].acted(t));
}

} // verus!
