//! Preference pairs: of two examples, the one with the higher reward is preferred.
//!
//! Two examples of the same technique make a pair where their rewards are far enough apart.
//! Examples of different techniques make none.
use vstd::prelude::*;

use crate::double::Real;
use crate::grid::Grid;
use crate::text::same_text;

verus! {

/// A prompt with its response, in tokens, and what the response earned.
#[derive(Debug, Clone)]
pub struct TokenizedExample {
    pub prompt_ids: Vec<u32>,
    pub response_ids: Vec<u32>,
    pub reward: Real,
    pub trajectory_id: usize,
    pub step_id: usize,
    pub technique: String,
}

/// Two examples, one preferred to the other.
#[derive(Debug, Clone)]
pub struct PreferencePair {
    pub chosen_idx: usize,
    pub rejected_idx: usize,
    pub chosen_prompt_ids: Vec<u32>,
    pub chosen_response_ids: Vec<u32>,
    pub rejected_prompt_ids: Vec<u32>,
    pub rejected_response_ids: Vec<u32>,
    pub reward_chosen: Real,
    pub reward_rejected: Real,
}

// ---------------------------------------------------------------------------
// Model
// ---------------------------------------------------------------------------

pub open spec fn example_rewards(examples: Seq<TokenizedExample>) -> Seq<Real> {
    examples.map_values(|e: TokenizedExample| e.reward)
}

pub open spec fn example_techniques(examples: Seq<TokenizedExample>) -> Seq<Seq<char>> {
    examples.map_values(|e: TokenizedExample| e.technique@)
}

/// The distances between the rewards of the examples: `gaps.at(i, j)` for `i < j`.
pub open spec fn fits(gaps: Grid<Real>, n: nat) -> bool {
    gaps.well_formed() && gaps.rows == n && gaps.cols == n
}

/// The two examples in the order chosen, rejected.
pub open spec fn orient(rewards: Seq<Real>, i: int, j: int) -> (int, int) {
    if rewards[j].lt(rewards[i]) {
        (i, j)
    } else {
        (j, i)
    }
}

/// Whether `i` and `j` make a pair of the technique of example `leader`.
pub open spec fn same_admits(
    techniques: Seq<Seq<char>>,
    gaps: Grid<Real>,
    leader: int,
    margin: Real,
) -> spec_fn(int, int) -> bool {
    |i: int, j: int|
        techniques[i] == techniques[leader] && techniques[j] == techniques[leader] && gaps.at(
            i,
            j,
        ).ge(margin)
}

/// The pairs of `i` with `j` and the examples after it.
pub open spec fn row_pairs(
    rewards: Seq<Real>,
    admits: spec_fn(int, int) -> bool,
    i: int,
    j: int,
) -> Seq<(int, int)>
    decreases rewards.len() - j,
{
    if j >= rewards.len() {
        seq![]
    } else {
        (if admits(i, j) {
            seq![orient(rewards, i, j)]
        } else {
            seq![]
        }) + row_pairs(rewards, admits, i, j + 1)
    }
}

/// The pairs of the examples from `i` on.
pub open spec fn table_pairs(
    rewards: Seq<Real>,
    admits: spec_fn(int, int) -> bool,
    i: int,
) -> Seq<(int, int)>
    decreases rewards.len() - i,
{
    if i >= rewards.len() {
        seq![]
    } else {
        row_pairs(rewards, admits, i, i + 1) + table_pairs(rewards, admits, i + 1)
    }
}

/// Example `g` is the first of its technique.
pub open spec fn leads(techniques: Seq<Seq<char>>, g: int) -> bool {
    forall|k: int| 0 <= k < g ==> #[trigger] techniques[k] != techniques[g]
}

/// The pairs within each technique, for the techniques that appear first at `g` or later.
pub open spec fn group_pairs(
    techniques: Seq<Seq<char>>,
    rewards: Seq<Real>,
    gaps: Grid<Real>,
    margin: Real,
    g: int,
) -> Seq<(int, int)>
    decreases rewards.len() - g,
{
    if g >= rewards.len() {
        seq![]
    } else {
        (if leads(techniques, g) {
            table_pairs(rewards, same_admits(techniques, gaps, g, margin), g)
        } else {
            seq![]
        }) + group_pairs(techniques, rewards, gaps, margin, g + 1)
    }
}

/// The pairs of some examples, technique by technique in the order of first appearance.
pub open spec fn pair_indices(
    techniques: Seq<Seq<char>>,
    rewards: Seq<Real>,
    gaps: Grid<Real>,
    margin: Real,
) -> Seq<(int, int)> {
    group_pairs(techniques, rewards, gaps, margin, 0)
}

/// The indices that a list of pairs refers to.
pub open spec fn indices_of(pairs: Seq<PreferencePair>) -> Seq<(int, int)> {
    pairs.map_values(|p: PreferencePair| (p.chosen_idx as int, p.rejected_idx as int))
}

/// The pair carries the tokens and the rewards of the examples it refers to.
pub open spec fn copies(p: PreferencePair, examples: Seq<TokenizedExample>) -> bool {
    &&& p.chosen_idx < examples.len()
    &&& p.rejected_idx < examples.len()
    &&& p.chosen_prompt_ids@ == examples[p.chosen_idx as int].prompt_ids@
    &&& p.chosen_response_ids@ == examples[p.chosen_idx as int].response_ids@
    &&& p.rejected_prompt_ids@ == examples[p.rejected_idx as int].prompt_ids@
    &&& p.rejected_response_ids@ == examples[p.rejected_idx as int].response_ids@
    &&& p.reward_chosen == examples[p.chosen_idx as int].reward
    &&& p.reward_rejected == examples[p.rejected_idx as int].reward
}

/// `pairs` are the preference pairs of `examples`.
pub open spec fn is_pairing(
    pairs: Seq<PreferencePair>,
    examples: Seq<TokenizedExample>,
    gaps: Grid<Real>,
    margin: Real,
) -> bool {
    &&& indices_of(pairs) == pair_indices(
        example_techniques(examples),
        example_rewards(examples),
        gaps,
        margin,
    )
    &&& forall|k: int| 0 <= k < pairs.len() ==> copies(#[trigger] pairs[k], examples)
}

/// Each pair is of two examples of the same technique.
pub open spec fn share_technique(
    pairs: Seq<PreferencePair>,
    examples: Seq<TokenizedExample>,
) -> bool {
    forall|k: int|
        0 <= k < pairs.len() ==> examples[(#[trigger] pairs[k]).chosen_idx as int].technique@
            == examples[pairs[k].rejected_idx as int].technique@
}

/// Examples `i` and `j`, `i` before `j`, make a pair.
pub open spec fn paired(
    techniques: Seq<Seq<char>>,
    gaps: Grid<Real>,
    margin: Real,
    i: int,
    j: int,
) -> bool {
    techniques[i] == techniques[j] && gaps.at(i, j).ge(margin)
}

// ---------------------------------------------------------------------------
// Laws
// ---------------------------------------------------------------------------

proof fn lemma_row_pairs_contains(
    rewards: Seq<Real>,
    admits: spec_fn(int, int) -> bool,
    i: int,
    j: int,
    x: (int, int),
)
    requires
        0 <= i < j,
    ensures
        row_pairs(rewards, admits, i, j).contains(x) <==> exists|k: int|
            j <= k < rewards.len() && #[trigger] admits(i, k) && x == orient(rewards, i, k),
    decreases rewards.len() - j,
{
    let list = row_pairs(rewards, admits, i, j);
    if j < rewards.len() {
        lemma_row_pairs_contains(rewards, admits, i, j + 1, x);
        let rest = row_pairs(rewards, admits, i, j + 1);
        if admits(i, j) {
            let head = orient(rewards, i, j);
            assert(list =~= seq![head] + rest);
            if list.contains(x) {
                let n = choose|n: int| 0 <= n < list.len() && list[n] == x;
                if n > 0 {
                    assert(rest[n - 1] == x);
                    assert(rest.contains(x));
                }
            }
            if rest.contains(x) {
                let n = choose|n: int| 0 <= n < rest.len() && rest[n] == x;
                assert(list[n + 1] == x);
            }
            if x == head {
                assert(list[0] == x);
            }
        } else {
            assert(list =~= rest);
        }
    }
}

proof fn lemma_table_pairs_contains(
    rewards: Seq<Real>,
    admits: spec_fn(int, int) -> bool,
    i: int,
    x: (int, int),
)
    requires
        0 <= i,
    ensures
        table_pairs(rewards, admits, i).contains(x) <==> exists|a: int, b: int|
            i <= a < b < rewards.len() && #[trigger] admits(a, b) && x == orient(rewards, a, b),
    decreases rewards.len() - i,
{
    if i < rewards.len() {
        let row = row_pairs(rewards, admits, i, i + 1);
        let rest = table_pairs(rewards, admits, i + 1);
        lemma_row_pairs_contains(rewards, admits, i, i + 1, x);
        lemma_table_pairs_contains(rewards, admits, i + 1, x);
        let list = table_pairs(rewards, admits, i);
        assert(list.contains(x) <==> row.contains(x) || rest.contains(x)) by {
            lemma_concat_contains(row, rest, x);
        }
    }
}

proof fn lemma_concat_contains(a: Seq<(int, int)>, b: Seq<(int, int)>, x: (int, int))
    ensures
        (a + b).contains(x) <==> a.contains(x) || b.contains(x),
{
    let c = a + b;
    if c.contains(x) {
        let n = choose|n: int| 0 <= n < c.len() && c[n] == x;
        if n < a.len() {
            assert(a[n] == x);
        } else {
            assert(b[n - a.len()] == x);
        }
    }
    if a.contains(x) {
        let n = choose|n: int| 0 <= n < a.len() && a[n] == x;
        assert(c[n] == x);
    }
    if b.contains(x) {
        let n = choose|n: int| 0 <= n < b.len() && b[n] == x;
        assert(c[n + a.len()] == x);
    }
}

/// The first example with the technique of example `i`.
spec fn leader_of(techniques: Seq<Seq<char>>, i: int, k: int) -> int
    decreases i - k,
{
    if k >= i || techniques[k] == techniques[i] {
        k
    } else {
        leader_of(techniques, i, k + 1)
    }
}

proof fn lemma_leader(techniques: Seq<Seq<char>>, i: int, k: int)
    requires
        0 <= k <= i < techniques.len(),
        forall|m: int| 0 <= m < k ==> #[trigger] techniques[m] != techniques[i],
    ensures
        k <= leader_of(techniques, i, k) <= i,
        techniques[leader_of(techniques, i, k)] == techniques[i],
        leads(techniques, leader_of(techniques, i, k)),
    decreases i - k,
{
    if k < i && techniques[k] != techniques[i] {
        lemma_leader(techniques, i, k + 1);
    }
}

proof fn lemma_group_pairs_contains(
    techniques: Seq<Seq<char>>,
    rewards: Seq<Real>,
    gaps: Grid<Real>,
    margin: Real,
    g: int,
    x: (int, int),
)
    requires
        0 <= g,
    ensures
        group_pairs(techniques, rewards, gaps, margin, g).contains(x) <==> exists|
            h: int,
            a: int,
            b: int,
        |
            g <= h <= a < b < rewards.len() && leads(techniques, h) && #[trigger] same_admits(
                techniques,
                gaps,
                h,
                margin,
            )(a, b) && x == orient(rewards, a, b),
    decreases rewards.len() - g,
{
    if g < rewards.len() {
        lemma_group_pairs_contains(techniques, rewards, gaps, margin, g + 1, x);
        let admits = same_admits(techniques, gaps, g, margin);
        let own = if leads(techniques, g) {
            table_pairs(rewards, admits, g)
        } else {
            seq![]
        };
        let rest = group_pairs(techniques, rewards, gaps, margin, g + 1);
        lemma_concat_contains(own, rest, x);
        lemma_table_pairs_contains(rewards, admits, g, x);
        if own.contains(x) {
            let (a, b) = choose|a: int, b: int|
                g <= a < b < rewards.len() && #[trigger] admits(a, b) && x == orient(rewards, a, b);
            assert(same_admits(techniques, gaps, g, margin)(a, b));
        }
        if exists|h: int, a: int, b: int|
            g <= h <= a < b < rewards.len() && leads(techniques, h) && #[trigger] same_admits(
                techniques,
                gaps,
                h,
                margin,
            )(a, b) && x == orient(rewards, a, b) {
            let (h, a, b) = choose|h: int, a: int, b: int|
                g <= h <= a < b < rewards.len() && leads(techniques, h) && #[trigger] same_admits(
                    techniques,
                    gaps,
                    h,
                    margin,
                )(a, b) && x == orient(rewards, a, b);
            if h == g {
                assert(admits(a, b));
                assert(own.contains(x));
            }
        }
    }
}

/// Exactly the examples of one technique whose rewards are far enough apart make a pair.
pub proof fn law_pairs_complete(
    techniques: Seq<Seq<char>>,
    rewards: Seq<Real>,
    gaps: Grid<Real>,
    margin: Real,
    x: (int, int),
)
    requires
        techniques.len() == rewards.len(),
    ensures
        pair_indices(techniques, rewards, gaps, margin).contains(x) <==> exists|a: int, b: int|
            0 <= a < b < rewards.len() && #[trigger] paired(techniques, gaps, margin, a, b) && x
                == orient(rewards, a, b),
{
    let within = pair_indices(techniques, rewards, gaps, margin);
    lemma_group_pairs_contains(techniques, rewards, gaps, margin, 0, x);
    if within.contains(x) {
        let (h, a, b) = choose|h: int, a: int, b: int|
            0 <= h <= a < b < rewards.len() && leads(techniques, h) && #[trigger] same_admits(
                techniques,
                gaps,
                h,
                margin,
            )(a, b) && x == orient(rewards, a, b);
        assert(paired(techniques, gaps, margin, a, b));
    }
    if exists|a: int, b: int|
        0 <= a < b < rewards.len() && #[trigger] paired(techniques, gaps, margin, a, b) && x
            == orient(rewards, a, b) {
        let (a, b) = choose|a: int, b: int|
            0 <= a < b < rewards.len() && #[trigger] paired(techniques, gaps, margin, a, b) && x
                == orient(rewards, a, b);
        lemma_leader(techniques, a, 0);
        let h = leader_of(techniques, a, 0);
        assert(same_admits(techniques, gaps, h, margin)(a, b));
    }
}

/// The two examples of a pair are of the same technique.
pub proof fn law_pairs_share_technique(
    techniques: Seq<Seq<char>>,
    rewards: Seq<Real>,
    gaps: Grid<Real>,
    margin: Real,
    k: int,
)
    requires
        techniques.len() == rewards.len(),
        0 <= k < pair_indices(techniques, rewards, gaps, margin).len(),
    ensures
        ({
            let p = pair_indices(techniques, rewards, gaps, margin)[k];
            0 <= p.0 < techniques.len() && 0 <= p.1 < techniques.len() && techniques[p.0]
                == techniques[p.1]
        }),
{
    let p = pair_indices(techniques, rewards, gaps, margin)[k];
    assert(pair_indices(techniques, rewards, gaps, margin).contains(p));
    law_pairs_complete(techniques, rewards, gaps, margin, p);
}

proof fn lemma_concat_distinct(a: Seq<(int, int)>, b: Seq<(int, int)>)
    requires
        a.no_duplicates(),
        b.no_duplicates(),
        forall|x: (int, int)| a.contains(x) ==> !b.contains(x),
    ensures
        (a + b).no_duplicates(),
{
    let c = a + b;
    assert forall|i: int, j: int| 0 <= i < j < c.len() implies c[i] != c[j] by {
        if j < a.len() {
            assert(a[i] != a[j]);
        } else if i >= a.len() {
            assert(b[i - a.len()] != b[j - a.len()]);
        } else {
            assert(a.contains(a[i]));
            assert(b.contains(b[j - a.len()]));
        }
    }
}

proof fn lemma_row_distinct(
    rewards: Seq<Real>,
    admits: spec_fn(int, int) -> bool,
    i: int,
    j: int,
)
    requires
        0 <= i < j,
    ensures
        row_pairs(rewards, admits, i, j).no_duplicates(),
    decreases rewards.len() - j,
{
    if j < rewards.len() {
        let rest = row_pairs(rewards, admits, i, j + 1);
        lemma_row_distinct(rewards, admits, i, j + 1);
        if admits(i, j) {
            let head = seq![orient(rewards, i, j)];
            assert forall|x: (int, int)| head.contains(x) implies !rest.contains(x) by {
                lemma_row_pairs_contains(rewards, admits, i, j + 1, x);
            }
            lemma_concat_distinct(head, rest);
        } else {
            assert(row_pairs(rewards, admits, i, j) =~= rest);
        }
    }
}

proof fn lemma_table_distinct(rewards: Seq<Real>, admits: spec_fn(int, int) -> bool, i: int)
    requires
        0 <= i,
    ensures
        table_pairs(rewards, admits, i).no_duplicates(),
    decreases rewards.len() - i,
{
    if i < rewards.len() {
        let row = row_pairs(rewards, admits, i, i + 1);
        let rest = table_pairs(rewards, admits, i + 1);
        lemma_row_distinct(rewards, admits, i, i + 1);
        lemma_table_distinct(rewards, admits, i + 1);
        assert forall|x: (int, int)| row.contains(x) implies !rest.contains(x) by {
            lemma_row_pairs_contains(rewards, admits, i, i + 1, x);
            lemma_table_pairs_contains(rewards, admits, i + 1, x);
        }
        lemma_concat_distinct(row, rest);
    }
}

proof fn lemma_group_distinct(
    techniques: Seq<Seq<char>>,
    rewards: Seq<Real>,
    gaps: Grid<Real>,
    margin: Real,
    g: int,
)
    requires
        0 <= g,
        techniques.len() == rewards.len(),
    ensures
        group_pairs(techniques, rewards, gaps, margin, g).no_duplicates(),
    decreases rewards.len() - g,
{
    if g < rewards.len() {
        let admits = same_admits(techniques, gaps, g, margin);
        let own = if leads(techniques, g) {
            table_pairs(rewards, admits, g)
        } else {
            seq![]
        };
        let rest = group_pairs(techniques, rewards, gaps, margin, g + 1);
        lemma_table_distinct(rewards, admits, g);
        lemma_group_distinct(techniques, rewards, gaps, margin, g + 1);
        assert forall|x: (int, int)| own.contains(x) implies !rest.contains(x) by {
            lemma_table_pairs_contains(rewards, admits, g, x);
            lemma_group_pairs_contains(techniques, rewards, gaps, margin, g + 1, x);
            if rest.contains(x) {
                let (a, b) = choose|a: int, b: int|
                    g <= a < b < rewards.len() && #[trigger] admits(a, b) && x == orient(
                        rewards,
                        a,
                        b,
                    );
                let (h, c, d) = choose|h: int, c: int, d: int|
                    g + 1 <= h <= c < d < rewards.len() && leads(techniques, h)
                        && #[trigger] same_admits(techniques, gaps, h, margin)(c, d) && x
                        == orient(rewards, c, d);
                assert(a == c);
                assert(techniques[g] == techniques[h]);
            }
        }
        lemma_concat_distinct(own, rest);
    }
}

/// No pair is listed twice.
pub proof fn law_pairs_distinct(
    techniques: Seq<Seq<char>>,
    rewards: Seq<Real>,
    gaps: Grid<Real>,
    margin: Real,
)
    requires
        techniques.len() == rewards.len(),
    ensures
        pair_indices(techniques, rewards, gaps, margin).no_duplicates(),
{
    lemma_group_distinct(techniques, rewards, gaps, margin, 0);
}

/// Where a distance of at least a margin means that the rewards differ, the chosen example of
/// a pair earned more than the rejected one.
pub proof fn law_chosen_earned_more(
    techniques: Seq<Seq<char>>,
    rewards: Seq<Real>,
    gaps: Grid<Real>,
    margin: Real,
    k: int,
)
    requires
        techniques.len() == rewards.len(),
        forall|i: int, j: int|
            0 <= i < j < rewards.len() && (#[trigger] gaps.at(i, j)).ge(margin) ==> rewards[i].lt(
                rewards[j],
            ) || rewards[j].lt(rewards[i]),
        0 <= k < pair_indices(techniques, rewards, gaps, margin).len(),
    ensures
        ({
            let p = pair_indices(techniques, rewards, gaps, margin)[k];
            0 <= p.0 < rewards.len() && 0 <= p.1 < rewards.len() && rewards[p.1].lt(rewards[p.0])
        }),
{
    let p = pair_indices(techniques, rewards, gaps, margin)[k];
    assert(pair_indices(techniques, rewards, gaps, margin).contains(p));
    law_pairs_complete(techniques, rewards, gaps, margin, p);
    let (a, b) = choose|a: int, b: int|
        0 <= a < b < rewards.len() && #[trigger] paired(techniques, gaps, margin, a, b) && p
            == orient(rewards, a, b);
    assert(gaps.at(a, b).ge(margin));
}

// ---------------------------------------------------------------------------
// Building
// ---------------------------------------------------------------------------

/// The pair of two examples that were found far enough apart.
pub fn make_pair(examples: &Vec<TokenizedExample>, i: usize, j: usize) -> (p: PreferencePair)
    requires
        i < examples@.len(),
        j < examples@.len(),
    ensures
        copies(p, examples@),
        (p.chosen_idx as int, p.rejected_idx as int) == orient(
            example_rewards(examples@),
            i as int,
            j as int,
        ),
{
    let (chosen, rejected) = if examples[j].reward.less_than(&examples[i].reward) {
        (i, j)
    } else {
        (j, i)
    };
    let p = PreferencePair {
        chosen_idx: chosen,
        rejected_idx: rejected,
        chosen_prompt_ids: examples[chosen].prompt_ids.clone(),
        chosen_response_ids: examples[chosen].response_ids.clone(),
        rejected_prompt_ids: examples[rejected].prompt_ids.clone(),
        rejected_response_ids: examples[rejected].response_ids.clone(),
        reward_chosen: examples[chosen].reward,
        reward_rejected: examples[rejected].reward,
    };
    proof {
        let ex = examples@;
        assert(p.chosen_prompt_ids@ =~= ex[chosen as int].prompt_ids@);
        assert(p.chosen_response_ids@ =~= ex[chosen as int].response_ids@);
        assert(p.rejected_prompt_ids@ =~= ex[rejected as int].prompt_ids@);
        assert(p.rejected_response_ids@ =~= ex[rejected as int].response_ids@);
    }
    p
}

fn gap_at(gaps: &Grid<Real>, i: usize, j: usize) -> (r: Real)
    requires
        gaps.well_formed(),
        i < gaps.rows,
        j < gaps.cols,
    ensures
        r == gaps.at(i as int, j as int),
{
    proof {
        crate::grid::lemma_cell_in_range(gaps.rows as int, gaps.cols as int, i as int, j as int);
    }
    let n: usize = gaps.cells.len();
    assert(i * gaps.cols >= 0 && i * gaps.cols + j < n);
    gaps.cells[i * gaps.cols + j]
}

fn admitted(
    examples: &Vec<TokenizedExample>,
    gaps: &Grid<Real>,
    leader: usize,
    margin: Real,
    i: usize,
    j: usize,
) -> (r: bool)
    requires
        fits(*gaps, examples@.len()),
        i < examples@.len(),
        j < examples@.len(),
        leader < examples@.len(),
    ensures
        r == same_admits(example_techniques(examples@), *gaps, leader as int, margin)(i as int, j as int),
{
    let a = examples[i].technique.as_str();
    let b = examples[j].technique.as_str();
    let ghost techniques = example_techniques(examples@);
    assert(techniques[i as int] == a@ && techniques[j as int] == b@);
    let c = examples[leader].technique.as_str();
    assert(techniques[leader as int] == c@);
    same_text(a, c) && same_text(b, c) && gap_at(gaps, i, j).at_least(&margin)
}

/// Adds the pairs of the technique of an example, from it on.
fn add_pairs(
    pairs: &mut Vec<PreferencePair>,
    examples: &Vec<TokenizedExample>,
    gaps: &Grid<Real>,
    leader: usize,
    margin: Real,
)
    requires
        fits(*gaps, examples@.len()),
        leader < examples@.len(),
        forall|k: int| 0 <= k < old(pairs)@.len() ==> copies(#[trigger] old(pairs)@[k], examples@),
    ensures
        indices_of(final(pairs)@) == indices_of(old(pairs)@) + table_pairs(
            example_rewards(examples@),
            same_admits(example_techniques(examples@), *gaps, leader as int, margin),
            leader as int,
        ),
        forall|k: int|
            0 <= k < final(pairs)@.len() ==> copies(#[trigger] final(pairs)@[k], examples@),
{
    let ghost rewards = example_rewards(examples@);
    let ghost admits = same_admits(example_techniques(examples@), *gaps, leader as int, margin);
    let ghost had = indices_of(pairs@);
    let ghost goal = had + table_pairs(rewards, admits, leader as int);
    let n: usize = examples.len();
    let mut i: usize = leader;
    while i < n
        invariant
            n == examples@.len(),
            i <= n,
            fits(*gaps, examples@.len()),
            leader < examples@.len(),
            rewards == example_rewards(examples@),
            admits == same_admits(example_techniques(examples@), *gaps, leader as int, margin),
            goal == indices_of(pairs@) + table_pairs(rewards, admits, i as int),
            forall|k: int| 0 <= k < pairs@.len() ==> copies(#[trigger] pairs@[k], examples@),
        decreases n - i,
    {
        let ghost after = table_pairs(rewards, admits, i + 1);
        let mut j: usize = i + 1;
        assert(goal =~= indices_of(pairs@) + row_pairs(rewards, admits, i as int, i + 1) + after);
        while j < n
            invariant
                n == examples@.len(),
                i < n,
                i < j <= n,
                fits(*gaps, examples@.len()),
                leader < examples@.len(),
                rewards == example_rewards(examples@),
                admits == same_admits(example_techniques(examples@), *gaps, leader as int, margin),
                goal == indices_of(pairs@) + row_pairs(rewards, admits, i as int, j as int) + after,
                forall|k: int| 0 <= k < pairs@.len() ==> copies(#[trigger] pairs@[k], examples@),
            decreases n - j,
        {
            let ghost before = indices_of(pairs@);
            let ghost rest = row_pairs(rewards, admits, i as int, j + 1);
            if admitted(examples, gaps, leader, margin, i, j) {
                pairs.push(make_pair(examples, i, j));
                proof {
                    let head = orient(rewards, i as int, j as int);
                    assert(indices_of(pairs@) =~= before.push(head));
                    assert(before + (seq![head] + rest) + after =~= before.push(head) + rest
                        + after);
                }
            } else {
                assert(seq![] + rest =~= rest);
            }
            j = j + 1;
        }
        assert(goal =~= indices_of(pairs@) + after);
        i = i + 1;
    }
    assert(goal =~= indices_of(pairs@));
}

/// Whether an example is the first of its technique.
fn is_leader(examples: &Vec<TokenizedExample>, g: usize) -> (r: bool)
    requires
        g < examples@.len(),
    ensures
        r == leads(example_techniques(examples@), g as int),
{
    let ghost techniques = example_techniques(examples@);
    let mut k: usize = 0;
    while k < g
        invariant
            techniques == example_techniques(examples@),
            k <= g < examples@.len(),
            forall|m: int| 0 <= m < k ==> #[trigger] techniques[m] != techniques[g as int],
        decreases g - k,
    {
        assert(techniques[k as int] == examples@[k as int].technique@);
        assert(techniques[g as int] == examples@[g as int].technique@);
        if same_text(examples[k].technique.as_str(), examples[g].technique.as_str()) {
            return false;
        }
        k = k + 1;
    }
    true
}

/// The preference pairs of some examples, given the distances between their rewards.
pub fn build_preference_pairs(
    examples: &Vec<TokenizedExample>,
    gaps: &Grid<Real>,
    min_margin: Real,
) -> (pairs: Vec<PreferencePair>)
    requires
        fits(*gaps, examples@.len()),
    ensures
        is_pairing(pairs@, examples@, *gaps, min_margin),
        share_technique(pairs@, examples@),
{
    let ghost techniques = example_techniques(examples@);
    let ghost rewards = example_rewards(examples@);
    let ghost goal = group_pairs(techniques, rewards, *gaps, min_margin, 0);
    let mut pairs: Vec<PreferencePair> = Vec::new();
    let n: usize = examples.len();
    let mut g: usize = 0;
    assert(indices_of(pairs@) + goal =~= goal);
    while g < n
        invariant
            n == examples@.len(),
            g <= n,
            fits(*gaps, examples@.len()),
            techniques == example_techniques(examples@),
            rewards == example_rewards(examples@),
            goal == indices_of(pairs@) + group_pairs(
                techniques,
                rewards,
                *gaps,
                min_margin,
                g as int,
            ),
            forall|k: int| 0 <= k < pairs@.len() ==> copies(#[trigger] pairs@[k], examples@),
        decreases n - g,
    {
        let ghost had = indices_of(pairs@);
        let ghost rest = group_pairs(techniques, rewards, *gaps, min_margin, g + 1);
        if is_leader(examples, g) {
            add_pairs(&mut pairs, examples, gaps, g, min_margin);
            proof {
                let own = table_pairs(
                    rewards,
                    same_admits(techniques, *gaps, g as int, min_margin),
                    g as int,
                );
                assert(had + (own + rest) =~= had + own + rest);
            }
        } else {
            assert(seq![] + rest =~= rest);
        }
        g = g + 1;
    }
    assert(goal =~= indices_of(pairs@));
    proof {
        assert forall|k: int| 0 <= k < pairs@.len() implies examples@[(
        #[trigger] pairs@[k]).chosen_idx as int].technique@
            == examples@[pairs@[k].rejected_idx as int].technique@ by {
            assert(goal[k] == (pairs@[k].chosen_idx as int, pairs@[k].rejected_idx as int));
            law_pairs_share_technique(techniques, rewards, *gaps, min_margin, k);
        }
    }
    pairs
}

// ---------------------------------------------------------------------------
// Laws on the pairs that are built
// ---------------------------------------------------------------------------

/// Every two examples of one technique whose rewards are at least the margin apart make a pair,
/// wherever they stand, and the one that earned more is chosen.
pub proof fn law_far_examples_are_paired(
    pairs: Seq<PreferencePair>,
    examples: Seq<TokenizedExample>,
    gaps: Grid<Real>,
    margin: Real,
    i: int,
    j: int,
) -> (k: int)
    requires
        is_pairing(pairs, examples, gaps, margin),
        0 <= i < j < examples.len(),
        examples[i].technique@ == examples[j].technique@,
        gaps.at(i, j).ge(margin),
    ensures
        0 <= k < pairs.len(),
        examples[j].reward.lt(examples[i].reward) ==> pairs[k].chosen_idx == i
            && pairs[k].rejected_idx == j,
        !examples[j].reward.lt(examples[i].reward) ==> pairs[k].chosen_idx == j
            && pairs[k].rejected_idx == i,
{
    let techniques = example_techniques(examples);
    let rewards = example_rewards(examples);
    let x = if examples[j].reward.lt(examples[i].reward) {
        (i, j)
    } else {
        (j, i)
    };
    assert(rewards[i] == examples[i].reward && rewards[j] == examples[j].reward);
    assert(techniques[i] == examples[i].technique@ && techniques[j] == examples[j].technique@);
    assert(paired(techniques, gaps, margin, i, j));
    law_pairs_complete(techniques, rewards, gaps, margin, x);
    let all = indices_of(pairs);
    let k = choose|k: int| 0 <= k < all.len() && all[k] == x;
    assert(all[k] == (pairs[k].chosen_idx as int, pairs[k].rejected_idx as int));
    k
}

/// A pair is of two examples of one technique whose rewards are at least the margin apart, and
/// carries their tokens and rewards: those of the one that earned more as the chosen ones.
pub proof fn law_pairs_are_far_examples(
    pairs: Seq<PreferencePair>,
    examples: Seq<TokenizedExample>,
    gaps: Grid<Real>,
    margin: Real,
    k: int,
)
    requires
        is_pairing(pairs, examples, gaps, margin),
        0 <= k < pairs.len(),
    ensures
        ({
            let p = pairs[k];
            let c = p.chosen_idx as int;
            let r = p.rejected_idx as int;
            &&& 0 <= c < examples.len() && 0 <= r < examples.len() && c != r
            &&& examples[c].technique@ == examples[r].technique@
            &&& c < r ==> gaps.at(c, r).ge(margin) && examples[r].reward.lt(examples[c].reward)
            &&& r < c ==> gaps.at(r, c).ge(margin) && !examples[c].reward.lt(examples[r].reward)
            &&& p.chosen_prompt_ids@ == examples[c].prompt_ids@
            &&& p.chosen_response_ids@ == examples[c].response_ids@
            &&& p.rejected_prompt_ids@ == examples[r].prompt_ids@
            &&& p.rejected_response_ids@ == examples[r].response_ids@
            &&& p.reward_chosen == examples[c].reward
            &&& p.reward_rejected == examples[r].reward
        }),
{
    let techniques = example_techniques(examples);
    let rewards = example_rewards(examples);
    let all = indices_of(pairs);
    let x = all[k];
    assert(x == (pairs[k].chosen_idx as int, pairs[k].rejected_idx as int));
    assert(all.contains(x));
    assert(copies(pairs[k], examples));
    law_pairs_complete(techniques, rewards, gaps, margin, x);
    let (a, b) = choose|a: int, b: int|
        0 <= a < b < rewards.len() && #[trigger] paired(techniques, gaps, margin, a, b) && x
            == orient(rewards, a, b);
    assert(rewards[a] == examples[a].reward && rewards[b] == examples[b].reward);
    assert(techniques[a] == examples[a].technique@ && techniques[b] == examples[b].technique@);
}

/// No two examples are paired twice.
pub proof fn law_paired_once(
    pairs: Seq<PreferencePair>,
    examples: Seq<TokenizedExample>,
    gaps: Grid<Real>,
    margin: Real,
    k: int,
    m: int,
)
    requires
        is_pairing(pairs, examples, gaps, margin),
        0 <= k < m < pairs.len(),
    ensures
        !(pairs[k].chosen_idx == pairs[m].chosen_idx && pairs[k].rejected_idx
            == pairs[m].rejected_idx),
        !(pairs[k].chosen_idx == pairs[m].rejected_idx && pairs[k].rejected_idx
            == pairs[m].chosen_idx),
{
    let all = indices_of(pairs);
    law_pairs_distinct(example_techniques(examples), example_rewards(examples), gaps, margin);
    assert(all[k] != all[m]);
    law_pairs_are_far_examples(pairs, examples, gaps, margin, k);
    law_pairs_are_far_examples(pairs, examples, gaps, margin, m);
}

/// The gaps between some examples are known where there is a row and a column for each of them.
pub proof fn law_gaps_for_all(gaps: Grid<Real>, n: nat)
    ensures
        fits(gaps, n) <==> gaps.rows == n && gaps.cols == n && gaps.cells@.len() == gaps.rows
            * gaps.cols,
{
}

} // verus!
