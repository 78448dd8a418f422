//! What a language model is trained to predict at each position of a batch.
//!
//! The model reads position `t` and predicts position `t + 1`, so labels, masks and rewards
//! are shifted by one against its outputs. A label that is not learned is masked out, and its
//! place is taken by some token of the vocabulary so that it can be looked up.
use vstd::prelude::*;

use crate::batch::IGNORE_INDEX;
use crate::grid::{tabulate, Grid};

verus! {

/// The predictions that a batch asks for.
pub struct LossTargets {
    /// The token to predict, or the largest token where the prediction does not count.
    pub tokens: Grid<u32>,
    /// Whether the prediction counts.
    pub mask: Grid<bool>,
    /// How many predictions count in each row.
    pub counts: Vec<usize>,
    /// How many predictions count in all.
    pub total: usize,
}

/// How many of the first `k` cells of row `b` are set.
pub open spec fn set_before(mask: Grid<bool>, b: int, k: int) -> nat
    decreases k,
{
    if k <= 0 {
        0
    } else {
        set_before(mask, b, k - 1) + (if mask.at(b, k - 1) {
            1nat
        } else {
            0nat
        })
    }
}

/// How many cells of the first `b` rows are set.
pub open spec fn set_in_rows(mask: Grid<bool>, b: int) -> nat
    decreases b,
{
    if b <= 0 {
        0
    } else {
        set_in_rows(mask, b - 1) + set_before(mask, b - 1, mask.cols as int)
    }
}

/// `s` is `g` without its first column.
pub open spec fn is_shift<T>(s: Grid<T>, g: Grid<T>) -> bool {
    &&& s.well_formed()
    &&& s.rows == g.rows
    &&& s.cols == g.cols - 1
    &&& forall|b: int, t: int|
        0 <= b < s.rows && 0 <= t < s.cols ==> #[trigger] s.at(b, t) == g.at(b, t + 1)
}

/// The token that stands in for a label.
pub open spec fn safe_token(label: u32, vocab_size: usize) -> u32 {
    let last = (vocab_size - 1) as u32;
    if label > last {
        last
    } else {
        label
    }
}

/// The token counts as a prediction at position `k` of row `b`: the label behind it is learned,
/// and it is allowed.
pub open spec fn counted(
    labels: Grid<u32>,
    allowed: spec_fn(int, int) -> bool,
    b: int,
    k: int,
) -> bool {
    labels.at(b, k + 1) != IGNORE_INDEX && allowed(b, k + 1)
}

/// Allowed at every position.
pub open spec fn everywhere() -> spec_fn(int, int) -> bool {
    |b: int, t: int| true
}

/// Allowed where a cell is set.
pub open spec fn where_set(g: Grid<bool>) -> spec_fn(int, int) -> bool {
    |b: int, t: int| g.at(b, t)
}

/// The predictions that some labels ask for, as far as they are allowed.
pub open spec fn is_targets(
    t: LossTargets,
    labels: Grid<u32>,
    allowed: spec_fn(int, int) -> bool,
    vocab_size: usize,
) -> bool {
    &&& t.tokens.well_formed()
    &&& t.mask.well_formed()
    &&& t.tokens.rows == labels.rows && t.tokens.cols == labels.cols - 1
    &&& t.mask.rows == labels.rows && t.mask.cols == labels.cols - 1
    &&& forall|b: int, k: int|
        0 <= b < labels.rows && 0 <= k < labels.cols - 1 ==> #[trigger] t.tokens.at(b, k)
            == safe_token(labels.at(b, k + 1), vocab_size)
    &&& forall|b: int, k: int|
        0 <= b < labels.rows && 0 <= k < labels.cols - 1 ==> #[trigger] t.mask.at(b, k) == counted(
            labels,
            allowed,
            b,
            k,
        )
    &&& t.counts@.len() == labels.rows
    &&& forall|b: int|
        0 <= b < labels.rows ==> #[trigger] t.counts@[b] == set_before(
            t.mask,
            b,
            labels.cols - 1,
        )
    &&& t.total == set_in_rows(t.mask, labels.rows as int)
}

fn cell_of<T: Copy>(g: &Grid<T>, b: usize, t: usize) -> (r: T)
    requires
        g.well_formed(),
        b < g.rows,
        t < g.cols,
    ensures
        r == g.at(b as int, t as int),
{
    proof {
        crate::grid::lemma_cell_in_range(g.rows as int, g.cols as int, b as int, t as int);
    }
    let n: usize = g.cells.len();
    assert(b * g.cols >= 0 && b * g.cols + t < n);
    g.cells[b * g.cols + t]
}

proof fn lemma_narrower(rows: int, cols: int)
    requires
        0 <= rows,
        1 <= cols,
    ensures
        rows * (cols - 1) <= rows * cols,
{
    assert(rows * (cols - 1) <= rows * cols) by (nonlinear_arith)
        requires
            0 <= rows,
            1 <= cols,
    ;
}

/// A grid without its first column.
pub fn shift_left<T: Copy>(g: &Grid<T>) -> (s: Grid<T>)
    requires
        g.well_formed(),
        g.cols >= 1,
    ensures
        is_shift(s, *g),
{
    let cols: usize = g.cols - 1;
    proof {
        lemma_narrower(g.rows as int, g.cols as int);
    }
    let n: usize = g.cells.len();
    let cell = |b: usize, t: usize| -> (x: T)
        requires
            g.cells@.len() == g.rows * g.cols,
            b < g.rows,
            t < g.cols - 1,
        ensures
            x == g.cells@[b * g.cols + (t + 1)],
        { cell_of(g, b, t + 1) };
    assert(g.rows * cols <= n);
    let s = tabulate(g.rows, cols, cell);
    proof {
        assert forall|b: int, t: int| 0 <= b < s.rows && 0 <= t < s.cols implies #[trigger] s.at(
            b,
            t,
        ) == g.at(b, t + 1) by {
            let bb = b as usize;
            let tt = t as usize;
            assert(call_ensures(cell, (bb, tt), s.at(bb as int, tt as int)));
        }
    }
    s
}

/// How many cells of each row are set, and how many in all.
fn count_set(mask: &Grid<bool>) -> (r: (Vec<usize>, usize))
    requires
        mask.well_formed(),
    ensures
        r.0@.len() == mask.rows,
        forall|b: int|
            0 <= b < mask.rows ==> #[trigger] r.0@[b] == set_before(*mask, b, mask.cols as int),
        r.1 == set_in_rows(*mask, mask.rows as int),
{
    let rows: usize = mask.rows;
    let cols: usize = mask.cols;
    let n: usize = mask.cells.len();
    let mut counts: Vec<usize> = Vec::new();
    let mut total: usize = 0;
    let mut b: usize = 0;
    while b < rows
        invariant
            mask.well_formed(),
            mask.rows == rows,
            mask.cols == cols,
            n == mask.cells@.len(),
            b <= rows,
            counts@.len() == b,
            forall|x: int|
                0 <= x < b ==> #[trigger] counts@[x] == set_before(*mask, x, cols as int),
            total == set_in_rows(*mask, b as int),
            total <= b * cols,
        decreases rows - b,
    {
        let mut count: usize = 0;
        let mut k: usize = 0;
        while k < cols
            invariant
                mask.well_formed(),
                mask.rows == rows,
                mask.cols == cols,
                b < rows,
                k <= cols,
                count <= k,
                count == set_before(*mask, b as int, k as int),
            decreases cols - k,
        {
            if cell_of(mask, b, k) {
                count = count + 1;
            }
            k = k + 1;
        }
        counts.push(count);
        assert((b + 1) * cols <= rows * cols && b * cols + cols == (b + 1) * cols)
            by (nonlinear_arith)
            requires
                b < rows,
        ;
        total = total + count;
        b = b + 1;
    }
    (counts, total)
}

/// The predictions that some labels ask for, as far as they are allowed, over a vocabulary of
/// `vocab_size` tokens.
pub fn masked_targets(labels: &Grid<u32>, allowed: &Grid<bool>, vocab_size: usize) -> (r:
    LossTargets)
    requires
        labels.well_formed(),
        labels.cols >= 1,
        allowed.well_formed(),
        allowed.rows == labels.rows,
        allowed.cols == labels.cols,
        vocab_size >= 1,
    ensures
        is_targets(r, *labels, where_set(*allowed), vocab_size),
{
    let shifted = shift_left(labels);
    let permit = shift_left(allowed);
    let last: u32 = (vocab_size - 1) as u32;
    let n: usize = shifted.cells.len();
    let rows: usize = shifted.rows;
    let cols: usize = shifted.cols;
    let token = |b: usize, t: usize| -> (x: u32)
        requires
            shifted.cells@.len() == shifted.rows * shifted.cols,
            b < shifted.rows,
            t < shifted.cols,
        ensures
            x == (if shifted.cells@[b * shifted.cols + t] > last {
                last
            } else {
                shifted.cells@[b * shifted.cols + t]
            }),
        {
            let label: u32 = cell_of(&shifted, b, t);
            if label > last {
                last
            } else {
                label
            }
        };
    let learned = |b: usize, t: usize| -> (x: bool)
        requires
            shifted.cells@.len() == shifted.rows * shifted.cols,
            permit.cells@.len() == permit.rows * permit.cols,
            permit.rows == shifted.rows,
            permit.cols == shifted.cols,
            b < shifted.rows,
            t < shifted.cols,
        ensures
            x == (shifted.cells@[b * shifted.cols + t] != IGNORE_INDEX && permit.cells@[b
                * permit.cols + t]),
        { cell_of(&shifted, b, t) != IGNORE_INDEX && cell_of(&permit, b, t) };
    assert(rows * cols <= n);
    let tokens = tabulate(rows, cols, token);
    let mask = tabulate(rows, cols, learned);
    proof {
        assert forall|b: int, k: int|
            0 <= b < rows && 0 <= k < cols implies #[trigger] tokens.at(b, k) == safe_token(
            labels.at(b, k + 1),
            vocab_size,
        ) by {
            let bb = b as usize;
            let kk = k as usize;
            assert(call_ensures(token, (bb, kk), tokens.at(bb as int, kk as int)));
            assert(shifted.at(b, k) == labels.at(b, k + 1));
        }
        assert forall|b: int, k: int|
            0 <= b < rows && 0 <= k < cols implies #[trigger] mask.at(b, k) == counted(
            *labels,
            where_set(*allowed),
            b,
            k,
        ) by {
            let bb = b as usize;
            let kk = k as usize;
            assert(call_ensures(learned, (bb, kk), mask.at(bb as int, kk as int)));
            assert(shifted.at(b, k) == labels.at(b, k + 1));
            assert(permit.at(b, k) == allowed.at(b, k + 1));
        }
    }
    let (counts, total) = count_set(&mask);
    LossTargets { tokens, mask, counts, total }
}

/// The predictions that some labels ask for, over a vocabulary of `vocab_size` tokens.
pub fn loss_targets(labels: &Grid<u32>, vocab_size: usize) -> (r: LossTargets)
    requires
        labels.well_formed(),
        labels.cols >= 1,
        vocab_size >= 1,
    ensures
        is_targets(r, *labels, everywhere(), vocab_size),
{
    let n: usize = labels.cells.len();
    let every = |b: usize, t: usize| -> (x: bool)
        ensures
            x,
        { true };
    assert(labels.rows * labels.cols <= n);
    let allowed = tabulate(labels.rows, labels.cols, every);
    proof {
        assert forall|b: int, t: int| 0 <= b < labels.rows && 0 <= t < labels.cols implies
            #[trigger] allowed.at(b, t) by {
            let bb = b as usize;
            let tt = t as usize;
            assert(call_ensures(every, (bb, tt), allowed.at(bb as int, tt as int)));
        }
    }
    let r = masked_targets(labels, &allowed, vocab_size);
    proof {
        assert forall|b: int, k: int|
            0 <= b < labels.rows && 0 <= k < labels.cols - 1 implies #[trigger] r.mask.at(b, k)
            == counted(*labels, everywhere(), b, k) by {
            assert(r.mask.at(b, k) == counted(*labels, where_set(allowed), b, k));
            assert(allowed.at(b, k + 1));
        }
    }
    r
}

/// Every response token after the first position of its row is predicted, with itself as the
/// target, and nothing else is: in a batch of rows, the prediction made at position `k` counts
/// exactly where position `k + 1` holds a response token that is not the ignored label, as long
/// as the response tokens are allowed.
pub proof fn law_targets_are_actions(
    t: LossTargets,
    labels: Grid<u32>,
    allowed: spec_fn(int, int) -> bool,
    rows: Seq<crate::batch::Row>,
    vocab_size: usize,
    b: int,
    k: int,
)
    requires
        is_targets(t, labels, allowed, vocab_size),
        crate::batch::spells_labels(labels, rows),
        forall|t: int| rows[b].acted(t) ==> #[trigger] allowed(b, t),
        0 <= b < rows.len(),
        0 <= k < labels.cols - 1,
    ensures
        t.mask.at(b, k) <==> rows[b].acted(k + 1) && rows[b].token(k + 1) != IGNORE_INDEX,
        t.mask.at(b, k) && rows[b].token(k + 1) < vocab_size <= u32::MAX ==> t.tokens.at(b, k)
            == rows[b].token(k + 1),
{
    assert(labels.at(b, k + 1) == rows[b].label(k + 1));
    crate::batch::law_labels_are_actions(rows[b], k + 1);
    assert(t.mask.at(b, k) == counted(labels, allowed, b, k));
    assert(t.tokens.at(b, k) == safe_token(labels.at(b, k + 1), vocab_size));
}

/// How many cells of a row are set before a place is the number of places before it that are set.
pub proof fn law_counts_are_counts(mask: Grid<bool>, b: int, k: nat)
    ensures
        Set::new(|t: int| 0 <= t < k && mask.at(b, t)).finite(),
        set_before(mask, b, k as int) == Set::new(|t: int| 0 <= t < k && mask.at(b, t)).len(),
    decreases k,
{
    let all = Set::new(|t: int| 0 <= t < k && mask.at(b, t));
    if k == 0 {
        assert(all =~= Set::empty());
    } else {
        let n = (k - 1) as nat;
        law_counts_are_counts(mask, b, n);
        let some = Set::new(|t: int| 0 <= t < n && mask.at(b, t));
        if mask.at(b, n as int) {
            assert(all =~= some.insert(n as int));
        } else {
            assert(all =~= some);
        }
    }
}

/// How many cells are set in some rows is the sum over these rows.
pub proof fn law_total_is_the_sum(mask: Grid<bool>, b: int)
    requires
        0 <= b,
    ensures
        set_in_rows(mask, 0) == 0,
        set_in_rows(mask, b + 1) == set_in_rows(mask, b) + Set::new(
            |t: int| 0 <= t < mask.cols && mask.at(b, t),
        ).len(),
{
    law_counts_are_counts(mask, b, mask.cols as nat);
    let n = mask.cols as nat;
    assert(Set::new(|t: int| 0 <= t < mask.cols && mask.at(b, t)) =~= Set::new(
        |t: int| 0 <= t < n && mask.at(b, t),
    ));
}

/// A prediction counts where the next label is one and the place is allowed; its token is that
/// label, as far as the vocabulary reaches. The counts are those of the mask.
pub proof fn law_targets_follow_labels(
    t: LossTargets,
    labels: Grid<u32>,
    allowed: spec_fn(int, int) -> bool,
    vocab_size: usize,
    b: int,
    k: int,
)
    requires
        is_targets(t, labels, allowed, vocab_size),
        0 < vocab_size <= 0xFFFF_FFFF,
        0 <= b < labels.rows,
        0 <= k < labels.cols - 1,
    ensures
        t.mask.rows == labels.rows && t.mask.cols == labels.cols - 1,
        t.tokens.rows == labels.rows && t.tokens.cols == labels.cols - 1,
        t.mask.at(b, k) <==> labels.at(b, k + 1) != u32::MAX && allowed(b, k + 1),
        labels.at(b, k + 1) < vocab_size ==> t.tokens.at(b, k) == labels.at(b, k + 1),
        labels.at(b, k + 1) >= vocab_size ==> t.tokens.at(b, k) == vocab_size - 1,
        t.counts@.len() == labels.rows,
        t.counts@[b] == Set::new(|u: int| 0 <= u < labels.cols - 1 && t.mask.at(b, u)).len(),
        t.total == set_in_rows(t.mask, labels.rows as int),
{
    law_counts_are_counts(t.mask, b, (labels.cols - 1) as nat);
    let n = (labels.cols - 1) as nat;
    assert(Set::new(|u: int| 0 <= u < labels.cols - 1 && t.mask.at(b, u)) =~= Set::new(
        |u: int| 0 <= u < n && t.mask.at(b, u),
    ));
}

/// Shifting a grid takes each row without its first cell.
pub proof fn law_shift_drops_the_first<T>(s: Grid<T>, g: Grid<T>, b: int)
    requires
        is_shift(s, g),
        g.cols >= 1,
        0 <= b < g.rows,
    ensures
        s.rows == g.rows,
        Seq::new(s.cols as nat, |t: int| s.at(b, t)) == Seq::new(g.cols as nat, |t: int| g.at(b, t))
            .skip(1),
{
    assert(Seq::new(s.cols as nat, |t: int| s.at(b, t)) =~= Seq::new(
        g.cols as nat,
        |t: int| g.at(b, t),
    ).skip(1));
}

/// A prediction is allowed everywhere, or where a mask is set.
pub proof fn law_allowed_places(g: Grid<bool>, b: int, t: int)
    ensures
        everywhere()(b, t),
        where_set(g)(b, t) <==> g.at(b, t),
{
}

} // verus!
