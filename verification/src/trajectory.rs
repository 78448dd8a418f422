//! Optimization trajectories: experiments, their trajectories and steps.
use vstd::prelude::*;

use crate::double::{infinity, largest, smallest, zero, Real};
use crate::double::{INFINITY_BITS, NEG_INFINITY_BITS};
use crate::text::{increasing, owned_texts, same_text, sorted_unique};

verus! {

/// One entry of an optimization plan.
#[derive(Debug, Clone)]
pub struct OptimizationTechnique {
    pub technique: String,
    pub relevance_score: Real,
    pub description: String,
}

/// What is known of a kernel before any optimization.
#[derive(Debug, Clone)]
pub struct BaselineData {
    pub init_code: String,
    pub profile: String,
    pub optimization_plan: Vec<OptimizationTechnique>,
    pub state_response: String,
}

/// One optimization step: the prompt, the response and how the result ran.
#[derive(Debug, Clone)]
pub struct StepData {
    pub trajectory_id: usize,
    pub step_id: usize,
    pub technique: String,
    pub prompt_text: String,
    pub response_text: String,
    pub cuda_code: String,
    pub reward: Real,
    pub baseline_cycles: u64,
    pub optimized_cycles: u64,
    pub improvement_pct: Real,
    pub compiled: bool,
    pub executed: bool,
}

#[derive(Debug, Clone)]
pub struct Trajectory {
    pub id: usize,
    pub hash: String,
    pub steps: Vec<StepData>,
}

#[derive(Debug, Clone)]
pub struct Experiment {
    pub problem_name: String,
    pub model_name: String,
    pub level: String,
    pub baseline: BaselineData,
    pub trajectories: Vec<Trajectory>,
    pub all_rewards: Vec<Real>,
}

#[derive(Debug, Clone)]
pub struct Dataset {
    pub experiments: Vec<Experiment>,
}

/// How often a technique was used in an experiment: the rewards of its steps.
#[derive(Debug, Clone)]
pub struct TechniqueUse {
    pub technique: String,
    pub rewards: Vec<Real>,
}

// ---------------------------------------------------------------------------
// Model
// ---------------------------------------------------------------------------

pub open spec fn rewards(steps: Seq<StepData>) -> Seq<Real> {
    steps.map_values(|s: StepData| s.reward)
}

pub open spec fn techniques(steps: Seq<StepData>) -> Seq<Seq<char>> {
    steps.map_values(|s: StepData| s.technique@)
}

/// The steps that a list of borrowed steps refers to.
pub open spec fn steps_behind(v: Seq<&StepData>) -> Seq<StepData> {
    v.map_values(|s: &StepData| *s)
}

/// The steps of the trajectories, one trajectory after the other.
pub open spec fn steps_of(ts: Seq<Trajectory>) -> Seq<StepData>
    decreases ts.len(),
{
    if ts.len() == 0 {
        seq![]
    } else {
        steps_of(ts.drop_last()) + ts.last().steps@
    }
}

/// The steps of the experiments, one experiment after the other.
pub open spec fn steps_in(es: Seq<Experiment>) -> Seq<StepData>
    decreases es.len(),
{
    if es.len() == 0 {
        seq![]
    } else {
        steps_in(es.drop_last()) + es.last().steps()
    }
}

/// How many trajectories the experiments hold together.
pub open spec fn trajectories_in(es: Seq<Experiment>) -> nat
    decreases es.len(),
{
    if es.len() == 0 {
        0
    } else {
        trajectories_in(es.drop_last()) + es.last().trajectories@.len()
    }
}

/// The rewards of the steps that use the technique `x`, in order.
pub open spec fn rewards_with(steps: Seq<StepData>, x: Seq<char>) -> Seq<Real>
    decreases steps.len(),
{
    if steps.len() == 0 {
        seq![]
    } else if steps.last().technique@ == x {
        rewards_with(steps.drop_last(), x).push(steps.last().reward)
    } else {
        rewards_with(steps.drop_last(), x)
    }
}

/// The techniques that a list of uses speaks of.
pub open spec fn use_names(uses: Seq<TechniqueUse>) -> Seq<Seq<char>> {
    uses.map_values(|u: TechniqueUse| u.technique@)
}

/// How many rewards the uses hold together.
pub open spec fn use_count(uses: Seq<TechniqueUse>) -> nat
    decreases uses.len(),
{
    if uses.len() == 0 {
        0
    } else {
        use_count(uses.drop_last()) + uses.last().rewards@.len()
    }
}

/// `uses` lists each technique of `steps` once, in order, with its rewards.
pub open spec fn tallies(uses: Seq<TechniqueUse>, steps: Seq<StepData>) -> bool {
    &&& increasing(use_names(uses))
    &&& forall|x: Seq<char>| use_names(uses).contains(x) <==> techniques(steps).contains(x)
    &&& forall|k: int|
        0 <= k < uses.len() ==> (#[trigger] uses[k]).rewards@ == rewards_with(
            steps,
            uses[k].technique@,
        )
}

impl Experiment {
    /// The steps of the experiment.
    pub open spec fn steps(self) -> Seq<StepData> {
        steps_of(self.trajectories@)
    }
}

impl Dataset {
    /// The steps of the dataset.
    pub open spec fn steps(self) -> Seq<StepData> {
        steps_in(self.experiments@)
    }
}

// ---------------------------------------------------------------------------
// Laws
// ---------------------------------------------------------------------------

/// How many rewards the techniques `names[0]`, ..., `names[k - 1]` have together.
spec fn tally(steps: Seq<StepData>, names: Seq<Seq<char>>, k: int) -> nat
    decreases k,
{
    if k <= 0 {
        0
    } else {
        tally(steps, names, k - 1) + rewards_with(steps, names[k - 1]).len()
    }
}

proof fn lemma_tally_step(steps: Seq<StepData>, names: Seq<Seq<char>>, p: int, k: int)
    requires
        steps.len() > 0,
        0 <= p < names.len(),
        0 <= k <= names.len(),
        names[p] == steps.last().technique@,
        forall|i: int, j: int| 0 <= i < j < names.len() ==> names[i] != names[j],
    ensures
        tally(steps, names, k) == tally(steps.drop_last(), names, k) + (if p < k {
            1nat
        } else {
            0nat
        }),
    decreases k,
{
    if k > 0 {
        lemma_tally_step(steps, names, p, k - 1);
        if k - 1 == p {
        } else {
            assert(names[k - 1] != names[p]);
        }
    }
}

proof fn lemma_tally_total(steps: Seq<StepData>, names: Seq<Seq<char>>)
    requires
        forall|i: int, j: int| 0 <= i < j < names.len() ==> names[i] != names[j],
        forall|i: int| 0 <= i < steps.len() ==> names.contains((#[trigger] steps[i]).technique@),
    ensures
        tally(steps, names, names.len() as int) == steps.len(),
    decreases steps.len(),
{
    if steps.len() > 0 {
        let x = steps[steps.len() - 1].technique@;
        assert(names.contains(x));
        let p = choose|p: int| 0 <= p < names.len() && names[p] == x;
        assert forall|i: int| 0 <= i < steps.drop_last().len() implies names.contains(
            (#[trigger] steps.drop_last()[i]).technique@,
        ) by {
            assert(names.contains(steps[i].technique@));
        }
        lemma_tally_total(steps.drop_last(), names);
        lemma_tally_step(steps, names, p, names.len() as int);
    } else {
        lemma_tally_nothing(steps, names, names.len() as int);
    }
}

proof fn lemma_tally_nothing(steps: Seq<StepData>, names: Seq<Seq<char>>, k: int)
    requires
        steps.len() == 0,
    ensures
        tally(steps, names, k) == 0,
    decreases k,
{
    if k > 0 {
        lemma_tally_nothing(steps, names, k - 1);
    }
}

proof fn lemma_use_count(uses: Seq<TechniqueUse>, steps: Seq<StepData>, k: int)
    requires
        0 <= k <= uses.len(),
        forall|k: int|
            0 <= k < uses.len() ==> (#[trigger] uses[k]).rewards@ == rewards_with(
                steps,
                uses[k].technique@,
            ),
    ensures
        use_count(uses.take(k)) == tally(steps, use_names(uses), k),
    decreases k,
{
    if k > 0 {
        lemma_use_count(uses, steps, k - 1);
        assert(uses.take(k).drop_last() =~= uses.take(k - 1));
        assert(uses.take(k).last() == uses[k - 1]);
        assert(use_names(uses)[k - 1] == uses[k - 1].technique@);
    }
}

/// A tally counts every step exactly once.
pub proof fn law_tally_counts_every_step(uses: Seq<TechniqueUse>, steps: Seq<StepData>)
    requires
        tallies(uses, steps),
    ensures
        use_count(uses) == steps.len(),
{
    let names = use_names(uses);
    assert forall|i: int, j: int| 0 <= i < j < names.len() implies names[i] != names[j] by {
        assert(crate::text::before(names[i], names[j]));
        crate::text::lemma_before_total(names[i], names[j]);
    }
    assert forall|i: int| 0 <= i < steps.len() implies names.contains(
        (#[trigger] steps[i]).technique@,
    ) by {
        assert(techniques(steps)[i] == steps[i].technique@);
        assert(techniques(steps).contains(steps[i].technique@));
    }
    lemma_tally_total(steps, names);
    lemma_use_count(uses, steps, uses.len() as int);
    assert(uses.take(uses.len() as int) =~= uses);
}

/// The steps of a part of the trajectories are at most those of all of them.
proof fn lemma_steps_of_grows(ts: Seq<Trajectory>, k: int)
    requires
        0 <= k <= ts.len(),
    ensures
        steps_of(ts.take(k)).len() <= steps_of(ts).len(),
    decreases ts.len(),
{
    if k < ts.len() {
        lemma_steps_of_grows(ts.drop_last(), k);
        assert(ts.drop_last().take(k) =~= ts.take(k));
    } else {
        assert(ts.take(k) =~= ts);
    }
}

proof fn lemma_steps_in_grows(es: Seq<Experiment>, k: int)
    requires
        0 <= k <= es.len(),
    ensures
        steps_in(es.take(k)).len() <= steps_in(es).len(),
        trajectories_in(es.take(k)) <= trajectories_in(es),
    decreases es.len(),
{
    if k < es.len() {
        lemma_steps_in_grows(es.drop_last(), k);
        assert(es.drop_last().take(k) =~= es.take(k));
    } else {
        assert(es.take(k) =~= es);
    }
}

// ---------------------------------------------------------------------------
// Trajectories, experiments and datasets
// ---------------------------------------------------------------------------

impl Trajectory {
    /// The best reward of a step; negative infinity where there is no step.
    pub fn best_reward(&self) -> (r: Real)
        ensures
            r == largest(rewards(self.steps@)),
    {
        let mut r = Real::from_bits(NEG_INFINITY_BITS);
        let ghost all = rewards(self.steps@);
        let mut i: usize = 0;
        assert(all.take(0) =~= seq![]);
        while i < self.steps.len()
            invariant
                all == rewards(self.steps@),
                i <= self.steps@.len(),
                r == largest(all.take(i as int)),
            decreases self.steps@.len() - i,
        {
            r = r.max_with(&self.steps[i].reward);
            assert(all.take(i + 1).drop_last() =~= all.take(i as int));
            i = i + 1;
        }
        assert(all.take(all.len() as int) =~= all);
        r
    }
}

impl Experiment {
    /// Every step, trajectory by trajectory.
    pub fn all_steps(&self) -> (r: Vec<&StepData>)
        ensures
            steps_behind(r@) == self.steps(),
    {
        let mut r: Vec<&StepData> = Vec::new();
        let ghost ts = self.trajectories@;
        let mut i: usize = 0;
        assert(steps_of(ts.take(0)) =~= seq![]);
        assert(steps_behind(r@) =~= seq![]);
        while i < self.trajectories.len()
            invariant
                ts == self.trajectories@,
                i <= ts.len(),
                steps_behind(r@) == steps_of(ts.take(i as int)),
            decreases ts.len() - i,
        {
            let ghost had = steps_of(ts.take(i as int));
            let t = &self.trajectories[i];
            let mut j: usize = 0;
            assert(had + t.steps@.take(0) =~= had);
            while j < t.steps.len()
                invariant
                    j <= t.steps@.len(),
                    steps_behind(r@) == had + t.steps@.take(j as int),
                decreases t.steps@.len() - j,
            {
                let ghost before_push = r@;
                r.push(&t.steps[j]);
                assert(steps_behind(r@) =~= steps_behind(before_push).push(t.steps@[j as int]));
                assert(steps_behind(r@) =~= had + t.steps@.take(j + 1));
                j = j + 1;
            }
            assert(t.steps@.take(j as int) =~= t.steps@);
            assert(ts.take(i + 1).drop_last() =~= ts.take(i as int));
            i = i + 1;
        }
        assert(ts.take(ts.len() as int) =~= ts);
        r
    }

    /// How many steps there are.
    pub fn total_steps(&self) -> (n: usize)
        requires
            self.steps().len() <= usize::MAX,
        ensures
            n == self.steps().len(),
    {
        let mut n: usize = 0;
        let ghost ts = self.trajectories@;
        let mut i: usize = 0;
        while i < self.trajectories.len()
            invariant
                ts == self.trajectories@,
                i <= ts.len(),
                n == steps_of(ts.take(i as int)).len(),
                steps_of(ts).len() <= usize::MAX,
            decreases ts.len() - i,
        {
            proof {
                lemma_steps_of_grows(ts, i + 1);
                assert(ts.take(i + 1).drop_last() =~= ts.take(i as int));
            }
            n = n + self.trajectories[i].steps.len();
            i = i + 1;
        }
        assert(ts.take(ts.len() as int) =~= ts);
        n
    }

    /// The techniques that the steps use, in order, each once.
    pub fn unique_techniques(&self) -> (r: Vec<String>)
        ensures
            increasing(owned_texts(r@)),
            forall|x: Seq<char>|
                owned_texts(r@).contains(x) <==> techniques(self.steps()).contains(x),
    {
        let steps = self.all_steps();
        let mut all: Vec<String> = Vec::new();
        let mut i: usize = 0;
        while i < steps.len()
            invariant
                i <= steps@.len(),
                all@.len() == i,
                forall|k: int| 0 <= k < i ==> (#[trigger] all@[k])@ == steps@[k].technique@,
            decreases steps@.len() - i,
        {
            all.push(steps[i].technique.clone());
            i = i + 1;
        }
        proof {
            let own = self.steps();
            assert forall|k: int| 0 <= k < own.len() implies own[k] == *steps@[k] by {
                assert(steps_behind(steps@)[k] == *steps@[k]);
            }
            assert(owned_texts(all@) =~= techniques(own));
        }
        sorted_unique(&all)
    }

    /// Each technique, in order, with the rewards of its steps.
    pub fn technique_uses(&self) -> (r: Vec<TechniqueUse>)
        ensures
            tallies(r@, self.steps()),
    {
        let names = self.unique_techniques();
        let steps = self.all_steps();
        let ghost own = self.steps();
        assert forall|k: int| 0 <= k < own.len() implies own[k] == *steps@[k] by {
            assert(steps_behind(steps@)[k] == *steps@[k]);
        }
        assert(own.len() == steps@.len()) by {
            assert(steps_behind(steps@).len() == steps@.len());
        }
        let mut r: Vec<TechniqueUse> = Vec::new();
        let mut i: usize = 0;
        while i < names.len()
            invariant
                i <= names@.len(),
                own.len() == steps@.len(),
                forall|k: int| 0 <= k < own.len() ==> own[k] == *steps@[k],
                r@.len() == i,
                forall|k: int|
                    0 <= k < i ==> (#[trigger] r@[k]).technique@ == names@[k]@ && r@[k].rewards@
                        == rewards_with(own, r@[k].technique@),
            decreases names@.len() - i,
        {
            let mut list: Vec<Real> = Vec::new();
            let mut j: usize = 0;
            assert(own.take(0) =~= seq![]);
            while j < steps.len()
                invariant
                    i < names@.len(),
                    j <= steps@.len(),
                    own.len() == steps@.len(),
                    forall|k: int| 0 <= k < own.len() ==> own[k] == *steps@[k],
                    list@ == rewards_with(own.take(j as int), names@[i as int]@),
                decreases steps@.len() - j,
            {
                assert(own.take(j + 1).drop_last() =~= own.take(j as int));
                assert(own[j as int] == *steps@[j as int]);
                if same_text(steps[j].technique.as_str(), names[i].as_str()) {
                    list.push(steps[j].reward);
                }
                j = j + 1;
            }
            assert(own.take(own.len() as int) =~= own);
            r.push(TechniqueUse { technique: names[i].clone(), rewards: list });
            i = i + 1;
        }
        assert(use_names(r@) =~= owned_texts(names@));
        r
    }
}

impl Dataset {
    /// Every step, experiment by experiment.
    pub fn all_steps(&self) -> (r: Vec<&StepData>)
        ensures
            steps_behind(r@) == self.steps(),
    {
        let mut r: Vec<&StepData> = Vec::new();
        let ghost es = self.experiments@;
        let mut i: usize = 0;
        assert(steps_in(es.take(0)) =~= seq![]);
        assert(steps_behind(r@) =~= seq![]);
        while i < self.experiments.len()
            invariant
                es == self.experiments@,
                i <= es.len(),
                steps_behind(r@) == steps_in(es.take(i as int)),
            decreases es.len() - i,
        {
            let ghost had = r@;
            let mut more = self.experiments[i].all_steps();
            let ghost added = more@;
            r.append(&mut more);
            assert(steps_behind(r@) =~= steps_behind(had) + steps_behind(added));
            assert(es.take(i + 1).drop_last() =~= es.take(i as int));
            i = i + 1;
        }
        assert(es.take(es.len() as int) =~= es);
        r
    }

    /// How many steps there are.
    pub fn total_steps(&self) -> (n: usize)
        requires
            self.steps().len() <= usize::MAX,
        ensures
            n == self.steps().len(),
    {
        let mut n: usize = 0;
        let ghost es = self.experiments@;
        let mut i: usize = 0;
        while i < self.experiments.len()
            invariant
                es == self.experiments@,
                i <= es.len(),
                n == steps_in(es.take(i as int)).len(),
                steps_in(es).len() <= usize::MAX,
            decreases es.len() - i,
        {
            proof {
                lemma_steps_in_grows(es, i + 1);
                assert(es.take(i + 1).drop_last() =~= es.take(i as int));
            }
            n = n + self.experiments[i].total_steps();
            i = i + 1;
        }
        assert(es.take(es.len() as int) =~= es);
        n
    }

    /// How many trajectories there are.
    pub fn total_trajectories(&self) -> (n: usize)
        requires
            trajectories_in(self.experiments@) <= usize::MAX,
        ensures
            n == trajectories_in(self.experiments@),
    {
        let mut n: usize = 0;
        let ghost es = self.experiments@;
        let mut i: usize = 0;
        while i < self.experiments.len()
            invariant
                es == self.experiments@,
                i <= es.len(),
                n == trajectories_in(es.take(i as int)),
                trajectories_in(es) <= usize::MAX,
            decreases es.len() - i,
        {
            proof {
                lemma_steps_in_grows(es, i + 1);
                assert(es.take(i + 1).drop_last() =~= es.take(i as int));
            }
            n = n + self.experiments[i].trajectories.len();
            i = i + 1;
        }
        assert(es.take(es.len() as int) =~= es);
        n
    }

    /// The smallest and the largest reward; zero for both where there is no step.
    pub fn reward_range(&self) -> (r: (Real, Real))
        ensures
            r == (if self.steps().len() == 0 {
                (zero(), zero())
            } else {
                (smallest(rewards(self.steps())), largest(rewards(self.steps())))
            }),
    {
        let steps = self.all_steps();
        let ghost own = self.steps();
        let ghost all = rewards(own);
        assert forall|k: int| 0 <= k < own.len() implies all[k] == steps@[k].reward by {
            assert(steps_behind(steps@)[k] == *steps@[k]);
        }
        assert(own.len() == steps@.len()) by {
            assert(steps_behind(steps@).len() == steps@.len());
        }
        if steps.len() == 0 {
            return (Real::zero(), Real::zero());
        }
        let mut low = Real::from_bits(INFINITY_BITS);
        let mut high = Real::from_bits(NEG_INFINITY_BITS);
        let mut i: usize = 0;
        assert(all.take(0) =~= seq![]);
        while i < steps.len()
            invariant
                i <= steps@.len(),
                all.len() == steps@.len(),
                forall|k: int| 0 <= k < all.len() ==> all[k] == steps@[k].reward,
                low == smallest(all.take(i as int)),
                high == largest(all.take(i as int)),
            decreases steps@.len() - i,
        {
            low = low.min_with(&steps[i].reward);
            high = high.max_with(&steps[i].reward);
            assert(all.take(i + 1).drop_last() =~= all.take(i as int));
            assert(all[i as int] == steps@[i as int].reward);
            i = i + 1;
        }
        assert(all.take(all.len() as int) =~= all);
        (low, high)
    }
}

// ---------------------------------------------------------------------------
// Laws
// ---------------------------------------------------------------------------

/// The steps of some trajectories are those of the first of them, then those of the next, and so
/// on: none is left out, and none comes twice.
pub proof fn law_steps_join(a: Seq<Trajectory>, b: Seq<Trajectory>)
    ensures
        steps_of(a + b) == steps_of(a) + steps_of(b),
        a.len() == 0 ==> steps_of(a).len() == 0,
        a.len() == 1 ==> steps_of(a) == a[0].steps@,
    decreases b.len(),
{
    if a.len() == 1 {
        assert(a.drop_last() =~= seq![]);
        assert(steps_of(seq![]) =~= seq![]);
        assert(steps_of(a) =~= a[0].steps@);
    }
    if b.len() == 0 {
        assert(a + b =~= a);
        assert(steps_of(a) + steps_of(b) =~= steps_of(a));
    } else {
        assert((a + b).drop_last() =~= a + b.drop_last());
        law_steps_join(a, b.drop_last());
        assert((steps_of(a) + steps_of(b.drop_last())) + b.last().steps@ =~= steps_of(a) + (
        steps_of(b.drop_last()) + b.last().steps@));
    }
}

/// The steps and the number of trajectories of some experiments are those of the first of them,
/// then those of the next, and so on.
pub proof fn law_experiments_join(a: Seq<Experiment>, b: Seq<Experiment>)
    ensures
        steps_in(a + b) == steps_in(a) + steps_in(b),
        trajectories_in(a + b) == trajectories_in(a) + trajectories_in(b),
        a.len() == 0 ==> steps_in(a).len() == 0 && trajectories_in(a) == 0,
        a.len() == 1 ==> steps_in(a) == steps_of(a[0].trajectories@) && trajectories_in(a)
            == a[0].trajectories@.len(),
    decreases b.len(),
{
    if a.len() == 1 {
        assert(a.drop_last() =~= seq![]);
        assert(steps_in(seq![]) =~= seq![]);
        assert(trajectories_in(seq![]) == 0);
        assert(steps_in(a) =~= a[0].steps());
    }
    if b.len() == 0 {
        assert(a + b =~= a);
        assert(steps_in(a) + steps_in(b) =~= steps_in(a));
    } else {
        assert((a + b).drop_last() =~= a + b.drop_last());
        law_experiments_join(a, b.drop_last());
        assert((steps_in(a) + steps_in(b.drop_last())) + b.last().steps() =~= steps_in(a) + (
        steps_in(b.drop_last()) + b.last().steps()));
    }
}

proof fn lemma_step_is_there(ts: Seq<Trajectory>, t: int, s: int)
    requires
        0 <= t < ts.len(),
        0 <= s < ts[t].steps@.len(),
    ensures
        steps_of(ts).contains(ts[t].steps@[s]),
{
    let a = ts.take(t);
    let b = ts.skip(t + 1);
    let one = seq![ts[t]];
    assert(ts =~= a + one + b);
    law_steps_join(a + one, b);
    law_steps_join(a, one);
    law_steps_join(one, b);
    assert(steps_of(ts)[steps_of(a).len() + s] == ts[t].steps@[s]);
}

/// Every step of every trajectory of every experiment is a step of the dataset.
pub proof fn law_every_step_is_there(d: Dataset, e: int, t: int, s: int)
    requires
        0 <= e < d.experiments@.len(),
        0 <= t < d.experiments@[e].trajectories@.len(),
        0 <= s < d.experiments@[e].trajectories@[t].steps@.len(),
    ensures
        d.steps().contains(d.experiments@[e].trajectories@[t].steps@[s]),
        d.experiments@[e].steps().contains(d.experiments@[e].trajectories@[t].steps@[s]),
{
    let es = d.experiments@;
    let x = es[e].trajectories@[t].steps@[s];
    lemma_step_is_there(es[e].trajectories@, t, s);
    let own = es[e].steps();
    let k = choose|k: int| 0 <= k < own.len() && own[k] == x;
    let a = es.take(e);
    let b = es.skip(e + 1);
    let one = seq![es[e]];
    assert(es =~= a + one + b);
    law_experiments_join(a + one, b);
    law_experiments_join(a, one);
    law_experiments_join(one, b);
    assert(steps_in(es)[steps_in(a).len() + k] == x);
}

/// The rewards and the techniques of some steps are theirs, one by one.
pub proof fn law_rewards_of_steps(steps: Seq<StepData>, i: int)
    requires
        0 <= i < steps.len(),
    ensures
        rewards(steps).len() == steps.len(),
        rewards(steps)[i] == steps[i].reward,
        techniques(steps).len() == steps.len(),
        techniques(steps)[i] == steps[i].technique@,
{
}

/// The rewards of a technique are those of all steps that used it, in order, and no other.
pub proof fn law_rewards_by_technique(a: Seq<StepData>, b: Seq<StepData>, x: Seq<char>)
    ensures
        rewards_with(a + b, x) == rewards_with(a, x) + rewards_with(b, x),
        a.len() == 0 ==> rewards_with(a, x).len() == 0,
        a.len() == 1 && a[0].technique@ == x ==> rewards_with(a, x) == seq![a[0].reward],
        a.len() == 1 && a[0].technique@ != x ==> rewards_with(a, x).len() == 0,
    decreases b.len(),
{
    if a.len() == 1 {
        assert(a.drop_last() =~= seq![]);
        assert(rewards_with(seq![], x) =~= seq![]);
    }
    if b.len() == 0 {
        assert(a + b =~= a);
        assert(rewards_with(a, x) + rewards_with(b, x) =~= rewards_with(a, x));
    } else {
        assert((a + b).drop_last() =~= a + b.drop_last());
        law_rewards_by_technique(a, b.drop_last(), x);
        if b.last().technique@ == x {
            assert((rewards_with(a, x) + rewards_with(b.drop_last(), x)).push(b.last().reward)
                =~= rewards_with(a, x) + rewards_with(b.drop_last(), x).push(b.last().reward));
        }
    }
}

/// A tally has exactly one entry for each technique that some step used, by name, with the
/// rewards of the steps that used it: `k` is the entry of the step.
pub proof fn law_every_step_is_tallied(uses: Seq<TechniqueUse>, steps: Seq<StepData>, i: int) -> (k:
    int)
    requires
        tallies(uses, steps),
        0 <= i < steps.len(),
    ensures
        0 <= k < uses.len(),
        uses[k].technique@ == steps[i].technique@,
        uses[k].rewards@ == rewards_with(steps, steps[i].technique@),
        forall|m: int| 0 <= m < uses.len() && m != k ==> (#[trigger] uses[m]).technique@
            != steps[i].technique@,
{
    let x = steps[i].technique@;
    assert(techniques(steps)[i] == x);
    assert(techniques(steps).contains(x));
    let names = use_names(uses);
    assert(names.contains(x));
    let k = choose|k: int| 0 <= k < names.len() && names[k] == x;
    assert(uses[k].technique@ == x);
    assert forall|m: int| 0 <= m < uses.len() && m != k implies (#[trigger] uses[m]).technique@
        != x by {
        assert(names[m] == uses[m].technique@);
        crate::text::lemma_before_total(names[m], x);
        if m < k {
            assert(crate::text::before(names[m], names[k]));
        } else {
            assert(crate::text::before(names[k], names[m]));
        }
    }
    k
}

/// Steps that are pointed at are spoken of one by one.
pub proof fn law_steps_one_by_one(v: Seq<&StepData>, i: int)
    ensures
        steps_behind(v).len() == v.len(),
        0 <= i < v.len() ==> steps_behind(v)[i] == *v[i],
{
}

} // verus!
