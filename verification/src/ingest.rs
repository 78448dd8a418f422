//! Reading experiments from log directories.
//!
//! A log directory is handed over as plain values: what its listings and files held. The rest,
//! from the names of the directories to the numbers in the files, is decided here. Fractional
//! numbers stay as they are written until the caller has read them.
use vstd::prelude::*;

use crate::double::Real;
use crate::ingest::files::{
    compiled_cleanly, keep_numbers, optional_text, or_zero, parse_optimization_plan,
    parse_rewards_csv, parse_stats, ran_well,
};
use crate::ingest::listing::{
    discover_steps, discover_trajectories, find_existing, find_prompt_file, find_response_file,
    parse_trajectory_name, read_file_optional, Entry,
};
use crate::text::{owned_texts, to_lower, trim};
use crate::trajectory::{
    BaselineData, Dataset, Experiment, OptimizationTechnique, StepData, Trajectory,
};

pub mod files;
pub mod listing;
pub mod walk;

verus! {

broadcast use vstd::string::group_string_axioms;

/// Why logs could not be read.
#[derive(Debug, Clone)]
pub enum IngestError {
    Io { path: String, message: String },
    Parse { context: String, message: String },
    NoData(String),
}

impl IngestError {
    /// The error in words.
    pub open spec fn words(self) -> Seq<char> {
        match self {
            IngestError::Io { path, message } => "IO error at "@ + path@ + ": "@ + message@,
            IngestError::Parse { context, message } => "parse error in "@ + context@ + ": "@
                + message@,
            IngestError::NoData(path) => "no experiments found in "@ + path@,
        }
    }

    /// The error in words.
    pub fn message(&self) -> (r: String)
        ensures
            r@ == self.words(),
    {
        match self {
            IngestError::Io { path, message } => {
                let mut r = "IO error at ".to_owned();
                r.append(path.as_str());
                r.append(": ");
                r.append(message.as_str());
                r
            },
            IngestError::Parse { context, message } => {
                let mut r = "parse error in ".to_owned();
                r.append(context.as_str());
                r.append(": ");
                r.append(message.as_str());
                r
            },
            IngestError::NoData(path) => {
                let mut r = "no experiments found in ".to_owned();
                r.append(path.as_str());
                r
            },
        }
    }
}

/// The error for a plan that is not the JSON that it should be.
pub fn plan_error(message: String) -> (r: IngestError)
    ensures
        r matches IngestError::Parse { context, message: m } && context@
            == "optimization-plan.json"@ && m@ == message@,
{
    IngestError::Parse { context: "optimization-plan.json".to_owned(), message }
}

// ---------------------------------------------------------------------------
// Steps
// ---------------------------------------------------------------------------

/// A step whose fractional numbers are still as they were written.
pub struct RawStep {
    pub trajectory_id: usize,
    pub step_id: usize,
    pub technique: String,
    pub prompt_text: String,
    pub response_text: String,
    pub cuda_code: String,
    pub baseline_cycles: u64,
    pub optimized_cycles: u64,
    pub improvement: Option<String>,
    pub reward: Option<String>,
    pub compiled: bool,
    pub executed: bool,
}

pub struct RawStepView {
    pub trajectory_id: nat,
    pub step_id: nat,
    pub technique: Seq<char>,
    pub prompt_text: Seq<char>,
    pub response_text: Seq<char>,
    pub cuda_code: Seq<char>,
    pub baseline_cycles: nat,
    pub optimized_cycles: nat,
    pub improvement: Option<Seq<char>>,
    pub reward: Option<Seq<char>>,
    pub compiled: bool,
    pub executed: bool,
}

impl View for RawStep {
    type V = RawStepView;

    open spec fn view(&self) -> RawStepView {
        RawStepView {
            trajectory_id: self.trajectory_id as nat,
            step_id: self.step_id as nat,
            technique: self.technique@,
            prompt_text: self.prompt_text@,
            response_text: self.response_text@,
            cuda_code: self.cuda_code@,
            baseline_cycles: self.baseline_cycles as nat,
            optimized_cycles: self.optimized_cycles as nat,
            improvement: optional_text(self.improvement),
            reward: optional_text(self.reward),
            compiled: self.compiled,
            executed: self.executed,
        }
    }
}

/// What a file holds, or why it could not be read.
pub open spec fn reading(e: Entry) -> Result<Seq<char>, walk::Unreadable> {
    match e.content {
        Ok(t) => Ok(t@),
        Err(m) => Err(walk::Unreadable { path: e.path@, message: m@ }),
    }
}

/// The text, or none.
pub open spec fn text_or_empty(t: Option<Seq<char>>) -> Seq<char> {
    match t {
        Some(s) => s,
        None => seq![],
    }
}

/// Whether a step compiled: its compiler log is there and mentions no error.
pub open spec fn compiled_in(entries: Seq<Entry>) -> bool {
    match listing::text_of(entries, "compile.txt"@) {
        Some(t) => !crate::text::contains(crate::text::lowercase(t), "error"@),
        None => false,
    }
}

/// Whether a step ran well: its execution log is there and says that it passed.
pub open spec fn executed_in(entries: Seq<Entry>) -> bool {
    match listing::text_of(entries, "execute.txt"@) {
        Some(t) => crate::text::contains(
            crate::text::lowercase(crate::text::trimmed(t)),
            "passed"@,
        ),
        None => false,
    }
}

/// The step that a listing shows: nothing where the prompt, the response or the numbers are
/// missing, and a failure where one of the three cannot be read.
pub open spec fn step_in(entries: Seq<Entry>, trajectory_id: nat, step_id: nat) -> Result<
    Option<RawStepView>,
    walk::Unreadable,
> {
    match listing::prompt_from(entries, 0) {
        None => Ok(None),
        Some(p) => {
            let technique = listing::technique_of(entries[p].name@);
            match (
                listing::existing(entries, technique + "_llm_response.txt"@),
                listing::existing(entries, "stats.txt"@),
            ) {
                (Some(r), Some(s)) => match (
                    reading(entries[p]),
                    reading(entries[r]),
                    reading(entries[s]),
                ) {
                    (Err(e), _, _) => Err(e),
                    (Ok(_), Err(e), _) => Err(e),
                    (Ok(_), Ok(_), Err(e)) => Err(e),
                    (Ok(prompt_text), Ok(response_text), Ok(numbers)) => {
                        let stats = files::stats_of(crate::text::lines_of(numbers));
                        Ok(
                            Some(
                                RawStepView {
                                    trajectory_id,
                                    step_id,
                                    technique,
                                    prompt_text,
                                    response_text,
                                    cuda_code: text_or_empty(
                                        listing::text_of(entries, technique + ".cu"@),
                                    ),
                                    baseline_cycles: stats.baseline_cycles,
                                    optimized_cycles: stats.elapsed_cycles,
                                    improvement: stats.improvement,
                                    reward: stats.reward,
                                    compiled: compiled_in(entries),
                                    executed: executed_in(entries),
                                },
                            ),
                        )
                    },
                },
                _ => Ok(None),
            }
        },
    }
}

/// What a step is does not rest on what other files hold than those that it is read from.
pub proof fn law_only_wanted_files_matter(
    a: Seq<Entry>,
    b: Seq<Entry>,
    trajectory_id: nat,
    step_id: nat,
)
    requires
        listing::same_names(a, b),
        forall|k: int|
            0 <= k < a.len() && listing::wanted(a, k) ==> (#[trigger] a[k]).content
                == b[k].content,
    ensures
        step_in(a, trajectory_id, step_id) == step_in(b, trajectory_id, step_id),
{
    listing::law_names_decide(a, b, "stats.txt"@, 0);
    listing::law_names_decide(a, b, "compile.txt"@, 0);
    listing::law_names_decide(a, b, "execute.txt"@, 0);
    if let Some(p) = listing::prompt_from(a, 0) {
        let technique = listing::technique_of(a[p].name@);
        listing::law_names_decide(a, b, technique + "_llm_response.txt"@, 0);
        listing::law_names_decide(a, b, technique + ".cu"@, 0);
        assert(reading(a[p]) == reading(b[p]));
    }
}

/// The step in a directory. A directory that cannot be listed holds none.
pub open spec fn step_of(dir: Entry, trajectory_id: nat, step_id: nat) -> Result<
    Option<RawStepView>,
    walk::Unreadable,
> {
    match dir.listing {
        Ok(entries) => step_in(entries@, trajectory_id, step_id),
        Err(_) => Ok(None),
    }
}

fn read_file(e: &Entry) -> (r: Result<String, IngestError>)
    ensures
        match r {
            Ok(t) => reading(*e) == Ok::<Seq<char>, walk::Unreadable>(t@),
            Err(x) => reading(*e) matches Err(u) && walk::is_unreadable(x, u),
        },
{
    match &e.content {
        Ok(t) => Ok(t.clone()),
        Err(m) => Err(IngestError::Io { path: e.path.clone(), message: m.clone() }),
    }
}

fn text_or_blank(t: &Option<String>) -> (r: String)
    ensures
        r@ == text_or_empty(optional_text(*t)),
{
    match t {
        Some(s) => s.clone(),
        None => {
            let r = String::new();
            assert(r@ =~= seq![]);
            r
        },
    }
}

/// The step in a directory.
pub fn parse_step(dir: &Entry, trajectory_id: usize, step_id: usize) -> (r: Result<
    Option<RawStep>,
    IngestError,
>)
    ensures
        match r {
            Ok(Some(step)) => step_of(*dir, trajectory_id as nat, step_id as nat) == Ok::<
                Option<RawStepView>,
                walk::Unreadable,
            >(Some(step@)),
            Ok(None) => step_of(*dir, trajectory_id as nat, step_id as nat) == Ok::<
                Option<RawStepView>,
                walk::Unreadable,
            >(None),
            Err(e) => step_of(*dir, trajectory_id as nat, step_id as nat) matches Err(u)
                && walk::is_unreadable(e, u),
        },
{
    let entries = match &dir.listing {
        Ok(v) => v,
        Err(_) => {
            return Ok(None);
        },
    };
    let (technique, prompt_at) = match find_prompt_file(entries) {
        Some(found) => found,
        None => {
            return Ok(None);
        },
    };
    let response_at: usize = match find_response_file(entries, technique.as_str()) {
        Some(k) => k,
        None => {
            return Ok(None);
        },
    };
    let stats_at: usize = match find_existing(entries, "stats.txt") {
        Some(k) => k,
        None => {
            return Ok(None);
        },
    };
    let prompt_text = match read_file(&entries[prompt_at]) {
        Ok(t) => t,
        Err(e) => {
            return Err(e);
        },
    };
    let response_text = match read_file(&entries[response_at]) {
        Ok(t) => t,
        Err(e) => {
            return Err(e);
        },
    };
    let numbers = match read_file(&entries[stats_at]) {
        Ok(t) => t,
        Err(e) => {
            return Err(e);
        },
    };
    let stats = parse_stats(numbers.as_str());
    let mut cuda_name = technique.clone();
    cuda_name.append(".cu");
    let cuda_code = text_or_blank(&read_file_optional(entries, cuda_name.as_str()));
    let compiled = match read_file_optional(entries, "compile.txt") {
        Some(t) => compiled_cleanly(to_lower(t.as_str()).as_str()),
        None => false,
    };
    let executed = match read_file_optional(entries, "execute.txt") {
        Some(t) => ran_well(to_lower(trim(t.as_str())).as_str()),
        None => false,
    };
    Ok(
        Some(
            RawStep {
                trajectory_id,
                step_id,
                technique,
                prompt_text,
                response_text,
                cuda_code,
                baseline_cycles: stats.baseline_cycles,
                optimized_cycles: stats.elapsed_cycles,
                improvement: stats.improvement,
                reward: stats.reward,
                compiled,
                executed,
            },
        ),
    )
}

// ---------------------------------------------------------------------------
// Trajectories
// ---------------------------------------------------------------------------

/// A trajectory whose fractional numbers are still as they were written.
pub struct RawTrajectory {
    pub id: usize,
    pub hash: String,
    pub steps: Vec<RawStep>,
}

pub struct RawTrajectoryView {
    pub id: nat,
    pub hash: Seq<char>,
    pub steps: Seq<RawStepView>,
}

/// The views of some steps.
pub open spec fn step_views(v: Seq<RawStep>) -> Seq<RawStepView> {
    v.map_values(|s: RawStep| s@)
}

impl View for RawTrajectory {
    type V = RawTrajectoryView;

    open spec fn view(&self) -> RawTrajectoryView {
        RawTrajectoryView { id: self.id as nat, hash: self.hash@, steps: step_views(self.steps@) }
    }
}

/// The views of some trajectories.
pub open spec fn trajectory_views(v: Seq<RawTrajectory>) -> Seq<RawTrajectoryView> {
    v.map_values(|t: RawTrajectory| t@)
}

/// The steps in the first `k` of some step directories. The first failure stops the reading.
pub open spec fn steps_upto(
    entries: Seq<Entry>,
    order: Seq<(nat, int)>,
    trajectory_id: nat,
    k: int,
) -> Result<Seq<RawStepView>, walk::Unreadable>
    decreases k,
{
    if k <= 0 {
        Ok(seq![])
    } else {
        match steps_upto(entries, order, trajectory_id, k - 1) {
            Err(e) => Err(e),
            Ok(done) => match step_of(entries[order[k - 1].1], trajectory_id, order[k - 1].0) {
                Err(e) => Err(e),
                Ok(None) => Ok(done),
                Ok(Some(step)) => Ok(done.push(step)),
            },
        }
    }
}

/// The steps of a trajectory, in the order of their numbers.
pub open spec fn steps_of_dir(dir: Entry, trajectory_id: nat) -> Result<
    Seq<RawStepView>,
    walk::Unreadable,
> {
    match dir.listing {
        Err(m) => Err(walk::Unreadable { path: dir.path@, message: m@ }),
        Ok(entries) => {
            let order = listing::in_order(listing::step_numbers(entries@));
            steps_upto(entries@, order, trajectory_id, order.len() as int)
        },
    }
}

/// The trajectories in the first `k` of some trajectory directories. One without steps is left
/// out, and the first failure stops the reading.
pub open spec fn trajectories_upto(entries: Seq<Entry>, order: Seq<(nat, int)>, k: int) -> Result<
    Seq<RawTrajectoryView>,
    walk::Unreadable,
>
    decreases k,
{
    if k <= 0 {
        Ok(seq![])
    } else {
        match trajectories_upto(entries, order, k - 1) {
            Err(e) => Err(e),
            Ok(done) => {
                let dir = entries[order[k - 1].1];
                match steps_of_dir(dir, order[k - 1].0) {
                    Err(e) => Err(e),
                    Ok(steps) => if steps.len() == 0 {
                        Ok(done)
                    } else {
                        Ok(
                            done.push(
                                RawTrajectoryView {
                                    id: order[k - 1].0,
                                    hash: (listing::trajectory_of(dir)->Some_0).1,
                                    steps,
                                },
                            ),
                        )
                    },
                }
            },
        }
    }
}

/// The trajectories in a listing, in the order of their numbers.
pub open spec fn trajectories_in(entries: Seq<Entry>) -> Result<
    Seq<RawTrajectoryView>,
    walk::Unreadable,
> {
    let order = listing::in_order(listing::trajectory_numbers(entries));
    trajectories_upto(entries, order, order.len() as int)
}

proof fn lemma_step_error_stays(
    entries: Seq<Entry>,
    order: Seq<(nat, int)>,
    trajectory_id: nat,
    j: int,
    k: int,
)
    requires
        0 <= j <= k,
        steps_upto(entries, order, trajectory_id, j) is Err,
    ensures
        steps_upto(entries, order, trajectory_id, k) == steps_upto(
            entries,
            order,
            trajectory_id,
            j,
        ),
    decreases k - j,
{
    if j < k {
        lemma_step_error_stays(entries, order, trajectory_id, j, k - 1);
    }
}

proof fn lemma_trajectory_error_stays(
    entries: Seq<Entry>,
    order: Seq<(nat, int)>,
    j: int,
    k: int,
)
    requires
        0 <= j <= k,
        trajectories_upto(entries, order, j) is Err,
    ensures
        trajectories_upto(entries, order, k) == trajectories_upto(entries, order, j),
    decreases k - j,
{
    if j < k {
        lemma_trajectory_error_stays(entries, order, j, k - 1);
    }
}

fn parse_steps(dir: &Entry, trajectory_id: usize) -> (r: Result<Vec<RawStep>, IngestError>)
    ensures
        match r {
            Ok(steps) => steps_of_dir(*dir, trajectory_id as nat) == Ok::<
                Seq<RawStepView>,
                walk::Unreadable,
            >(step_views(steps@)),
            Err(e) => steps_of_dir(*dir, trajectory_id as nat) matches Err(u)
                && walk::is_unreadable(e, u),
        },
{
    let entries = match &dir.listing {
        Ok(v) => v,
        Err(m) => {
            return Err(IngestError::Io { path: dir.path.clone(), message: m.clone() });
        },
    };
    let found = discover_steps(entries);
    let ghost order = listing::pairs(found@);
    proof {
        listing::law_in_order(listing::step_numbers(entries@));
    }
    let mut steps: Vec<RawStep> = Vec::new();
    let mut i: usize = 0;
    assert(step_views(steps@) =~= seq![]);
    while i < found.len()
        invariant
            order == listing::pairs(found@),
            order == listing::in_order(listing::step_numbers(entries@)),
            forall|n: nat, k: int| #[trigger]
                order.contains((n, k)) ==> 0 <= k < entries@.len(),
            dir.listing matches Ok(v) && v == *entries,
            i <= found@.len(),
            steps_upto(entries@, order, trajectory_id as nat, i as int) == Ok::<
                Seq<RawStepView>,
                walk::Unreadable,
            >(step_views(steps@)),
        decreases found@.len() - i,
    {
        let (number, at) = found[i];
        proof {
            assert(order[i as int] == (number as nat, at as int));
            assert(order.contains((number as nat, at as int)));
        }
        let ghost had = step_views(steps@);
        match parse_step(&entries[at], trajectory_id, number) {
            Ok(Some(step)) => {
                steps.push(step);
                assert(step_views(steps@) =~= had.push(step@));
            },
            Ok(None) => {},
            Err(e) => {
                proof {
                    lemma_step_error_stays(
                        entries@,
                        order,
                        trajectory_id as nat,
                        i + 1,
                        order.len() as int,
                    );
                }
                return Err(e);
            },
        }
        i = i + 1;
    }
    Ok(steps)
}

fn parse_trajectories(entries: &Vec<Entry>) -> (r: Result<Vec<RawTrajectory>, IngestError>)
    ensures
        match r {
            Ok(ts) => trajectories_in(entries@) == Ok::<
                Seq<RawTrajectoryView>,
                walk::Unreadable,
            >(trajectory_views(ts@)),
            Err(e) => trajectories_in(entries@) matches Err(u) && walk::is_unreadable(e, u),
        },
{
    let found = discover_trajectories(entries);
    let ghost order = listing::pairs(found@);
    proof {
        listing::law_in_order(listing::trajectory_numbers(entries@));
    }
    let mut trajectories: Vec<RawTrajectory> = Vec::new();
    let mut i: usize = 0;
    assert(trajectory_views(trajectories@) =~= seq![]);
    while i < found.len()
        invariant
            order == listing::pairs(found@),
            order == listing::in_order(listing::trajectory_numbers(entries@)),
            forall|n: nat, k: int| #[trigger]
                order.contains((n, k)) ==> 0 <= k < entries@.len()
                    && listing::trajectory_numbers(entries@)[k] == Some(n),
            i <= found@.len(),
            trajectories_upto(entries@, order, i as int) == Ok::<
                Seq<RawTrajectoryView>,
                walk::Unreadable,
            >(trajectory_views(trajectories@)),
        decreases found@.len() - i,
    {
        let (number, at) = found[i];
        proof {
            assert(order[i as int] == (number as nat, at as int));
            assert(order.contains((number as nat, at as int)));
            assert(listing::trajectory_number(entries@[at as int]) == Some(number as nat));
        }
        let ghost had = trajectory_views(trajectories@);
        match parse_steps(&entries[at], number) {
            Ok(steps) => {
                if steps.len() > 0 {
                    if let Some((_, hash)) = parse_trajectory_name(&entries[at]) {
                        let t = RawTrajectory { id: number, hash: hash.to_owned(), steps };
                        let ghost view = t@;
                        trajectories.push(t);
                        assert(trajectory_views(trajectories@) =~= had.push(view));
                    }
                }
            },
            Err(e) => {
                proof {
                    lemma_trajectory_error_stays(entries@, order, i + 1, order.len() as int);
                }
                return Err(e);
            },
        }
        i = i + 1;
    }
    Ok(trajectories)
}

// ---------------------------------------------------------------------------
// Experiments
// ---------------------------------------------------------------------------

/// A file that was opened, by its path.
pub struct TextFile {
    pub path: String,
    pub content: Result<String, String>,
}

/// The files of a baseline, as far as they could be read.
pub struct BaselineFiles {
    pub init_code: Option<String>,
    pub profile: Option<String>,
    pub state_response: Option<String>,
    pub plan: Option<String>,
}

/// The directory of an experiment.
pub struct ExperimentFiles {
    pub path: String,
    /// The parts of its path.
    pub components: Vec<String>,
    pub has_baseline: bool,
    pub baseline: BaselineFiles,
    /// The `rewards.csv`, if there is one.
    pub rewards: Option<TextFile>,
    pub listing: Result<Vec<Entry>, String>,
}

/// A baseline whose plan is still JSON text.
pub struct RawBaseline {
    pub init_code: String,
    pub profile: String,
    pub plan: String,
    pub state_response: String,
}

/// An experiment whose fractional numbers are still as they were written.
pub struct RawExperiment {
    pub problem_name: String,
    pub model_name: String,
    pub level: String,
    pub baseline: RawBaseline,
    pub trajectories: Vec<RawTrajectory>,
    pub rewards: Vec<String>,
}

pub struct RawExperimentView {
    pub problem_name: Seq<char>,
    pub model_name: Seq<char>,
    pub level: Seq<char>,
    pub init_code: Seq<char>,
    pub profile: Seq<char>,
    pub plan: Seq<char>,
    pub state_response: Seq<char>,
    pub trajectories: Seq<RawTrajectoryView>,
    pub rewards: Seq<Seq<char>>,
}

impl View for RawExperiment {
    type V = RawExperimentView;

    open spec fn view(&self) -> RawExperimentView {
        RawExperimentView {
            problem_name: self.problem_name@,
            model_name: self.model_name@,
            level: self.level@,
            init_code: self.baseline.init_code@,
            profile: self.baseline.profile@,
            plan: self.baseline.plan@,
            state_response: self.baseline.state_response@,
            trajectories: trajectory_views(self.trajectories@),
            rewards: owned_texts(self.rewards@),
        }
    }
}

/// The plan that a baseline holds: an empty one where the file is missing.
pub open spec fn plan_text(files: BaselineFiles) -> Seq<char> {
    match files.plan {
        Some(t) => t@,
        None => "[]"@,
    }
}

/// The part of a path that stands `k` places before its last one.
pub open spec fn part_from_end(components: Seq<String>, k: int) -> Seq<char> {
    if 0 <= k < components.len() {
        components[components.len() - 1 - k]@
    } else {
        "unknown"@
    }
}

/// The rewards that are listed for an experiment.
pub open spec fn rewards_of(file: Option<TextFile>) -> Result<Seq<Seq<char>>, walk::Unreadable> {
    match file {
        None => Ok(seq![]),
        Some(f) => match f.content {
            Ok(t) => Ok(files::reward_fields(t@)),
            Err(m) => Err(walk::Unreadable { path: f.path@, message: m@ }),
        },
    }
}

/// The experiment in a directory: nothing where there is no baseline, and a failure where the
/// rewards or a listing cannot be read.
pub open spec fn experiment_of(dir: ExperimentFiles) -> Result<
    Option<RawExperimentView>,
    walk::Unreadable,
> {
    if !dir.has_baseline {
        Ok(None)
    } else {
        match rewards_of(dir.rewards) {
            Err(e) => Err(e),
            Ok(rewards) => match dir.listing {
                Err(m) => Err(walk::Unreadable { path: dir.path@, message: m@ }),
                Ok(entries) => match trajectories_in(entries@) {
                    Err(e) => Err(e),
                    Ok(trajectories) => Ok(
                        Some(
                            RawExperimentView {
                                problem_name: part_from_end(dir.components@, 1),
                                model_name: part_from_end(dir.components@, 3),
                                level: part_from_end(dir.components@, 2),
                                init_code: text_or_empty(optional_text(dir.baseline.init_code)),
                                profile: text_or_empty(optional_text(dir.baseline.profile)),
                                plan: files::plan_json(plan_text(dir.baseline)),
                                state_response: text_or_empty(
                                    optional_text(dir.baseline.state_response),
                                ),
                                trajectories,
                                rewards,
                            },
                        ),
                    ),
                },
            },
        }
    }
}

fn plan_or_empty(files: &BaselineFiles) -> (r: String)
    ensures
        r@ == plan_text(*files),
{
    match &files.plan {
        Some(t) => t.clone(),
        None => "[]".to_owned(),
    }
}

/// Whether the plan of a baseline can be cut out of its file.
pub fn baseline_readable(files: &BaselineFiles) -> (r: bool)
    ensures
        r == files::brackets_in_order(plan_text(*files)),
{
    files::plan_readable(plan_or_empty(files).as_str())
}

/// The baseline of an experiment.
pub fn parse_baseline(files: &BaselineFiles) -> (r: RawBaseline)
    requires
        files::brackets_in_order(plan_text(*files)),
    ensures
        r.init_code@ == text_or_empty(optional_text(files.init_code)),
        r.profile@ == text_or_empty(optional_text(files.profile)),
        r.plan@ == files::plan_json(plan_text(*files)),
        r.state_response@ == text_or_empty(optional_text(files.state_response)),
{
    let content = plan_or_empty(files);
    RawBaseline {
        init_code: text_or_blank(&files.init_code),
        profile: text_or_blank(&files.profile),
        plan: parse_optimization_plan(content.as_str()).to_owned(),
        state_response: text_or_blank(&files.state_response),
    }
}

fn name_from_end(components: &Vec<String>, k: usize) -> (r: String)
    ensures
        r@ == part_from_end(components@, k as int),
{
    let n: usize = components.len();
    if k < n {
        components[n - 1 - k].clone()
    } else {
        "unknown".to_owned()
    }
}

/// The experiment in a directory.
pub fn ingest_experiment(dir: &ExperimentFiles) -> (r: Result<Option<RawExperiment>, IngestError>)
    requires
        dir.has_baseline ==> files::brackets_in_order(plan_text(dir.baseline)),
    ensures
        match r {
            Ok(Some(x)) => experiment_of(*dir) == Ok::<
                Option<RawExperimentView>,
                walk::Unreadable,
            >(Some(x@)),
            Ok(None) => experiment_of(*dir) == Ok::<
                Option<RawExperimentView>,
                walk::Unreadable,
            >(None),
            Err(e) => experiment_of(*dir) matches Err(u) && walk::is_unreadable(e, u),
        },
{
    if !dir.has_baseline {
        return Ok(None);
    }
    let baseline = parse_baseline(&dir.baseline);
    let rewards = match &dir.rewards {
        None => {
            let none: Vec<String> = Vec::new();
            assert(owned_texts(none@) =~= seq![]);
            none
        },
        Some(f) => match &f.content {
            Ok(t) => parse_rewards_csv(t.as_str()),
            Err(m) => {
                return Err(IngestError::Io { path: f.path.clone(), message: m.clone() });
            },
        },
    };
    let entries = match &dir.listing {
        Ok(v) => v,
        Err(m) => {
            return Err(IngestError::Io { path: dir.path.clone(), message: m.clone() });
        },
    };
    let trajectories = match parse_trajectories(entries) {
        Ok(ts) => ts,
        Err(e) => {
            return Err(e);
        },
    };
    Ok(
        Some(
            RawExperiment {
                problem_name: name_from_end(&dir.components, 1),
                model_name: name_from_end(&dir.components, 3),
                level: name_from_end(&dir.components, 2),
                baseline,
                trajectories,
                rewards,
            },
        ),
    )
}

// ---------------------------------------------------------------------------
// Numbers
// ---------------------------------------------------------------------------

/// The fractional numbers of a step, as far as they are numbers.
#[derive(Clone, Copy)]
pub struct StepScore {
    pub improvement: Option<Real>,
    pub reward: Option<Real>,
}

/// `s` is the step `raw` with its numbers read.
pub open spec fn is_scored(s: StepData, raw: RawStepView, score: StepScore) -> bool {
    &&& s.trajectory_id as nat == raw.trajectory_id
    &&& s.step_id as nat == raw.step_id
    &&& s.technique@ == raw.technique
    &&& s.prompt_text@ == raw.prompt_text
    &&& s.response_text@ == raw.response_text
    &&& s.cuda_code@ == raw.cuda_code
    &&& s.reward == files::number_or_zero(score.reward)
    &&& s.baseline_cycles as nat == raw.baseline_cycles
    &&& s.optimized_cycles as nat == raw.optimized_cycles
    &&& s.improvement_pct == files::number_or_zero(score.improvement)
    &&& s.compiled == raw.compiled
    &&& s.executed == raw.executed
}

/// `t` is the trajectory `raw` with the numbers of its steps read.
pub open spec fn is_scored_trajectory(
    t: Trajectory,
    raw: RawTrajectoryView,
    scores: Seq<StepScore>,
) -> bool {
    &&& t.id as nat == raw.id
    &&& t.hash@ == raw.hash
    &&& t.steps@.len() == raw.steps.len()
    &&& forall|i: int|
        0 <= i < t.steps@.len() ==> is_scored(#[trigger] t.steps@[i], raw.steps[i], scores[i])
}

/// `x` is the experiment `raw` with its numbers and its plan read.
pub open spec fn is_scored_experiment(
    x: Experiment,
    raw: RawExperimentView,
    plan: Option<Vec<OptimizationTechnique>>,
    rewards: Seq<Option<Real>>,
    scores: Seq<Vec<StepScore>>,
) -> bool {
    &&& x.problem_name@ == raw.problem_name
    &&& x.model_name@ == raw.model_name
    &&& x.level@ == raw.level
    &&& x.baseline.init_code@ == raw.init_code
    &&& x.baseline.profile@ == raw.profile
    &&& x.baseline.state_response@ == raw.state_response
    &&& match plan {
        Some(p) => x.baseline.optimization_plan == p,
        None => x.baseline.optimization_plan@.len() == 0,
    }
    &&& x.all_rewards@ == files::numbers_in(rewards)
    &&& x.trajectories@.len() == raw.trajectories.len()
    &&& forall|i: int|
        0 <= i < x.trajectories@.len() ==> is_scored_trajectory(
            #[trigger] x.trajectories@[i],
            raw.trajectories[i],
            scores[i]@,
        )
}

/// A step with its numbers read; one that is missing or no number is zero.
pub fn score_step(raw: &RawStep, score: StepScore) -> (s: StepData)
    ensures
        is_scored(s, raw@, score),
{
    StepData {
        trajectory_id: raw.trajectory_id,
        step_id: raw.step_id,
        technique: raw.technique.clone(),
        prompt_text: raw.prompt_text.clone(),
        response_text: raw.response_text.clone(),
        cuda_code: raw.cuda_code.clone(),
        reward: or_zero(score.reward),
        baseline_cycles: raw.baseline_cycles,
        optimized_cycles: raw.optimized_cycles,
        improvement_pct: or_zero(score.improvement),
        compiled: raw.compiled,
        executed: raw.executed,
    }
}

fn score_trajectory(raw: &RawTrajectory, scores: &Vec<StepScore>) -> (t: Trajectory)
    requires
        scores@.len() == raw.steps@.len(),
    ensures
        is_scored_trajectory(t, raw@, scores@),
{
    let mut steps: Vec<StepData> = Vec::new();
    let mut i: usize = 0;
    while i < raw.steps.len()
        invariant
            scores@.len() == raw.steps@.len(),
            i <= raw.steps@.len(),
            steps@.len() == i,
            forall|k: int|
                0 <= k < i ==> is_scored(#[trigger] steps@[k], raw@.steps[k], scores@[k]),
        decreases raw.steps@.len() - i,
    {
        steps.push(score_step(&raw.steps[i], scores[i]));
        i = i + 1;
    }
    Trajectory { id: raw.id, hash: raw.hash.clone(), steps }
}

/// An experiment with its numbers and its plan read. A plan that could not be read is empty, and
/// a listed reward that is no number is left out.
pub fn score_experiment(
    raw: &RawExperiment,
    plan: Option<Vec<OptimizationTechnique>>,
    rewards: &Vec<Option<Real>>,
    scores: &Vec<Vec<StepScore>>,
) -> (x: Experiment)
    requires
        scores@.len() == raw.trajectories@.len(),
        forall|i: int|
            0 <= i < scores@.len() ==> (#[trigger] scores@[i])@.len()
                == raw.trajectories@[i].steps@.len(),
    ensures
        is_scored_experiment(x, raw@, plan, rewards@, scores@),
{
    let mut trajectories: Vec<Trajectory> = Vec::new();
    let mut i: usize = 0;
    while i < raw.trajectories.len()
        invariant
            scores@.len() == raw.trajectories@.len(),
            forall|i: int|
                0 <= i < scores@.len() ==> (#[trigger] scores@[i])@.len()
                    == raw.trajectories@[i].steps@.len(),
            i <= raw.trajectories@.len(),
            trajectories@.len() == i,
            forall|k: int|
                0 <= k < i ==> is_scored_trajectory(
                    #[trigger] trajectories@[k],
                    raw@.trajectories[k],
                    scores@[k]@,
                ),
        decreases raw.trajectories@.len() - i,
    {
        trajectories.push(score_trajectory(&raw.trajectories[i], &scores[i]));
        i = i + 1;
    }
    let optimization_plan = match plan {
        Some(p) => p,
        None => Vec::new(),
    };
    Experiment {
        problem_name: raw.problem_name.clone(),
        model_name: raw.model_name.clone(),
        level: raw.level.clone(),
        baseline: BaselineData {
            init_code: raw.baseline.init_code.clone(),
            profile: raw.baseline.profile.clone(),
            optimization_plan,
            state_response: raw.baseline.state_response.clone(),
        },
        trajectories,
        all_rewards: keep_numbers(rewards),
    }
}

// ---------------------------------------------------------------------------
// Datasets
// ---------------------------------------------------------------------------

/// The experiments that were read, in order. Those that failed or were not there are left out.
pub open spec fn experiments_read(
    outcomes: Seq<Result<Option<Experiment>, IngestError>>,
) -> Seq<Experiment>
    decreases outcomes.len(),
{
    if outcomes.len() == 0 {
        seq![]
    } else {
        match outcomes.last() {
            Ok(Some(x)) => experiments_read(outcomes.drop_last()).push(x),
            _ => experiments_read(outcomes.drop_last()),
        }
    }
}

/// The dataset of a directory of logs, from what came of each of its experiments. A directory
/// without a single experiment is an error.
pub fn ingest_logs(
    logs_path: &str,
    outcomes: Vec<Result<Option<Experiment>, IngestError>>,
) -> (r: Result<Dataset, IngestError>)
    ensures
        match r {
            Ok(d) => d.experiments@ == experiments_read(outcomes@) && d.experiments@.len() > 0,
            Err(e) => e matches IngestError::NoData(p) && p@ == logs_path@ && experiments_read(
                outcomes@,
            ).len() == 0,
        },
{
    let ghost all = outcomes@;
    let mut experiments: Vec<Experiment> = Vec::new();
    assert(all.take(0) =~= seq![]);
    for outcome in it: outcomes
        invariant
            it.seq() == all,
            experiments@ == experiments_read(all.take(it.index())),
    {
        assert(all.take(it.index() + 1).drop_last() =~= all.take(it.index()));
        if let Ok(Some(x)) = outcome {
            experiments.push(x);
        }
    }
    assert(all.take(all.len() as int) =~= all);
    if experiments.len() == 0 {
        return Err(IngestError::NoData(logs_path.to_owned()));
    }
    Ok(Dataset { experiments })
}

// ---------------------------------------------------------------------------
// Laws
// ---------------------------------------------------------------------------

/// The steps carry the number of their trajectory and come by their own numbers.
pub open spec fn steps_in_order(steps: Seq<RawStepView>, trajectory_id: nat) -> bool {
    &&& forall|i: int| 0 <= i < steps.len() ==> (#[trigger] steps[i]).trajectory_id == trajectory_id
    &&& forall|i: int, j: int|
        0 <= i < j < steps.len() ==> (#[trigger] steps[i]).step_id <= (#[trigger] steps[j]).step_id
}

proof fn lemma_steps_in_order(
    entries: Seq<Entry>,
    order: Seq<(nat, int)>,
    trajectory_id: nat,
    k: int,
)
    requires
        0 <= k <= order.len(),
        forall|i: int, j: int|
            0 <= i < j < order.len() ==> (#[trigger] order[i]).0 <= (#[trigger] order[j]).0,
        steps_upto(entries, order, trajectory_id, k) is Ok,
    ensures
        steps_in_order(steps_upto(entries, order, trajectory_id, k)->Ok_0, trajectory_id),
        forall|i: int|
            k > 0 && 0 <= i < steps_upto(entries, order, trajectory_id, k)->Ok_0.len() ==> (
            #[trigger] steps_upto(entries, order, trajectory_id, k)->Ok_0[i]).step_id <= order[k
                - 1].0,
    decreases k,
{
    if k > 0 {
        lemma_steps_in_order(entries, order, trajectory_id, k - 1);
        if k > 1 {
            assert(order[k - 2].0 <= order[k - 1].0);
        }
    }
}

/// The steps of a trajectory carry its number and come by their own numbers.
pub proof fn law_steps_in_order(dir: Entry, trajectory_id: nat)
    requires
        steps_of_dir(dir, trajectory_id) is Ok,
    ensures
        steps_in_order(steps_of_dir(dir, trajectory_id)->Ok_0, trajectory_id),
{
    let entries = dir.listing->Ok_0@;
    let order = listing::in_order(listing::step_numbers(entries));
    listing::law_in_order(listing::step_numbers(entries));
    lemma_steps_in_order(entries, order, trajectory_id, order.len() as int);
}

proof fn lemma_trajectories_in_order(entries: Seq<Entry>, order: Seq<(nat, int)>, k: int)
    requires
        0 <= k <= order.len(),
        forall|i: int, j: int|
            0 <= i < j < order.len() ==> (#[trigger] order[i]).0 <= (#[trigger] order[j]).0,
        trajectories_upto(entries, order, k) is Ok,
    ensures
        forall|i: int|
            0 <= i < trajectories_upto(entries, order, k)->Ok_0.len() ==> {
                let t = #[trigger] trajectories_upto(entries, order, k)->Ok_0[i];
                t.steps.len() > 0 && steps_in_order(t.steps, t.id) && t.id <= order[k - 1].0
            },
        forall|i: int, j: int|
            #![trigger trajectories_upto(entries, order, k)->Ok_0[i], trajectories_upto(entries, order, k)->Ok_0[j]]
            0 <= i < j < trajectories_upto(entries, order, k)->Ok_0.len() ==> trajectories_upto(
                entries,
                order,
                k,
            )->Ok_0[i].id <= trajectories_upto(entries, order, k)->Ok_0[j].id,
    decreases k,
{
    if k > 0 {
        lemma_trajectories_in_order(entries, order, k - 1);
        let dir = entries[order[k - 1].1];
        law_steps_in_order(dir, order[k - 1].0);
        if k > 1 {
            assert(order[k - 2].0 <= order[k - 1].0);
        }
        let done = trajectories_upto(entries, order, k - 1)->Ok_0;
        let all = trajectories_upto(entries, order, k)->Ok_0;
        assert forall|i: int| 0 <= i < all.len() implies ({
            let t = #[trigger] all[i];
            t.steps.len() > 0 && steps_in_order(t.steps, t.id) && t.id <= order[k - 1].0
        }) by {
            if i < done.len() {
                assert(all[i] == done[i]);
            }
        }
        assert forall|i: int, j: int| 0 <= i < j < all.len() implies (#[trigger] all[i]).id <= (
        #[trigger] all[j]).id by {
            assert(all[i] == done[i]);
            if j < done.len() {
                assert(all[j] == done[j]);
            }
        }
    }
}

/// The trajectories of an experiment come by their numbers, and none is without steps.
pub proof fn law_trajectories_in_order(entries: Seq<Entry>)
    requires
        trajectories_in(entries) is Ok,
    ensures
        forall|i: int|
            0 <= i < trajectories_in(entries)->Ok_0.len() ==> {
                let t = #[trigger] trajectories_in(entries)->Ok_0[i];
                t.steps.len() > 0 && steps_in_order(t.steps, t.id)
            },
        forall|i: int, j: int|
            #![trigger trajectories_in(entries)->Ok_0[i], trajectories_in(entries)->Ok_0[j]]
            0 <= i < j < trajectories_in(entries)->Ok_0.len() ==> trajectories_in(
                entries,
            )->Ok_0[i].id <= trajectories_in(entries)->Ok_0[j].id,
{
    let order = listing::in_order(listing::trajectory_numbers(entries));
    listing::law_in_order(listing::trajectory_numbers(entries));
    lemma_trajectories_in_order(entries, order, order.len() as int);
}

/// A baseline without a plan can be read and has the empty plan.
pub proof fn law_missing_plan(files: BaselineFiles)
    requires
        files.plan is None,
    ensures
        files::brackets_in_order(plan_text(files)),
        files::plan_json(plan_text(files)) == "[]"@,
{
    reveal_strlit("[]");
    reveal_strlit("```");
    let s = "[]"@;
    let p = |c: char| crate::text::is_space(c);
    assert(s[0] == '[' && s[1] == ']' && s.len() == 2);
    crate::text::lemma_drop_front(s, p, 0);
    assert(s.skip(0) =~= s);
    crate::text::lemma_drop_back(s, p, 2);
    assert(s.take(2) =~= s);
    assert(crate::text::trimmed(s) == s);
    assert(!crate::text::starts_with(s, "```"@));
}

/// What is read of two lists of outcomes, one after the other, is what is read of the one followed
/// by what is read of the other; an outcome counts where it is an experiment, and nowhere else.
pub proof fn law_outcomes_join(
    a: Seq<Result<Option<Experiment>, IngestError>>,
    b: Seq<Result<Option<Experiment>, IngestError>>,
)
    ensures
        experiments_read(a + b) == experiments_read(a) + experiments_read(b),
        a.len() == 0 ==> experiments_read(a).len() == 0,
        a.len() == 1 ==> experiments_read(a) == (match a[0] {
            Ok(Some(x)) => seq![x],
            _ => Seq::empty(),
        }),
    decreases b.len(),
{
    if a.len() == 1 {
        assert(a.drop_last() =~= seq![]);
        assert(experiments_read(a.drop_last()) =~= seq![]);
        if let Ok(Some(x)) = a[0] {
            assert(experiments_read(a) =~= seq![x]);
        }
    }
    if b.len() == 0 {
        assert(a + b =~= a);
        assert(experiments_read(a) + seq![] =~= experiments_read(a));
    } else {
        assert((a + b).drop_last() =~= a + b.drop_last());
        law_outcomes_join(a, b.drop_last());
        let had = experiments_read(a);
        let more = experiments_read(b.drop_last());
        if let Ok(Some(x)) = b.last() {
            assert((had + more).push(x) =~= had + more.push(x));
        }
    }
}

/// A dataset holds every experiment that was read and no other, in the order in which they were
/// read: `places` are the places of all outcomes that are experiments, in order.
pub proof fn law_every_experiment_is_kept(
    outcomes: Seq<Result<Option<Experiment>, IngestError>>,
) -> (places: Seq<int>)
    ensures
        places.len() == experiments_read(outcomes).len(),
        forall|k: int, m: int|
            0 <= k < m < places.len() ==> #[trigger] places[k] < #[trigger] places[m],
        forall|k: int|
            0 <= k < places.len() ==> 0 <= #[trigger] places[k] < outcomes.len()
                && outcomes[places[k]] == Ok::<Option<Experiment>, IngestError>(
                Some(experiments_read(outcomes)[k]),
            ),
        forall|i: int|
            0 <= i < outcomes.len() && (#[trigger] outcomes[i] matches Ok(Some(_)))
                ==> places.contains(i),
    decreases outcomes.len(),
{
    if outcomes.len() == 0 {
        seq![]
    } else {
        let rest = outcomes.drop_last();
        let had = law_every_experiment_is_kept(rest);
        let last = outcomes.len() - 1;
        let places = if outcomes[last] matches Ok(Some(_)) {
            had.push(last)
        } else {
            had
        };
        assert forall|k: int| 0 <= k < places.len() implies 0 <= #[trigger] places[k]
            < outcomes.len() && outcomes[places[k]] == Ok::<Option<Experiment>, IngestError>(
            Some(experiments_read(outcomes)[k]),
        ) by {
            if k < had.len() {
                assert(places[k] == had[k]);
                assert(rest[had[k]] == outcomes[had[k]]);
            }
        }
        assert forall|i: int|
            0 <= i < outcomes.len() && (#[trigger] outcomes[i] matches Ok(Some(_))) implies
            places.contains(i) by {
            if i < last {
                assert(rest[i] == outcomes[i]);
                assert(had.contains(i));
                let k = choose|k: int| 0 <= k < had.len() && had[k] == i;
                assert(places[k] == i);
            } else {
                assert(places[had.len() as int] == i);
            }
        }
        places
    }
}

/// A step whose prompt, response and numbers are there holds what these files say, and fails with
/// the first of the three that cannot be read. Its code is empty where there is none that can be
/// read, it compiled where a compiler log mentions no error in any case of letters, and it ran
/// well where an execution log says that it passed.
pub proof fn law_step_is_read(
    entries: Seq<Entry>,
    trajectory_id: nat,
    step_id: nat,
    technique: Seq<char>,
    p: int,
    r: int,
    s: int,
)
    requires
        0 <= p < entries.len(),
        0 <= r < entries.len(),
        0 <= s < entries.len(),
        entries[p].name@ == technique + ".prompt"@,
        !crate::text::ends_with(technique, ".prompt"@),
        forall|k: int|
            0 <= k < p ==> !crate::text::ends_with((#[trigger] entries[k]).name@, ".prompt"@),
        entries[r].exact && entries[r].exists && entries[r].name@ == technique
            + "_llm_response.txt"@,
        forall|k: int|
            0 <= k < r ==> !((#[trigger] entries[k]).exact && entries[k].name@ == technique
                + "_llm_response.txt"@),
        entries[s].exact && entries[s].exists && entries[s].name@ == "stats.txt"@,
        forall|k: int|
            0 <= k < s ==> !((#[trigger] entries[k]).exact && entries[k].name@ == "stats.txt"@),
    ensures
        match (entries[p].content, entries[r].content, entries[s].content) {
            (Ok(prompt), Ok(response), Ok(numbers)) => {
                let stats = files::stats_of(crate::text::lines_of(numbers@));
                step_in(entries, trajectory_id, step_id) matches Ok(Some(x)) && {
                    &&& x.trajectory_id == trajectory_id
                    &&& x.step_id == step_id
                    &&& x.technique == technique
                    &&& x.prompt_text == prompt@
                    &&& x.response_text == response@
                    &&& x.baseline_cycles == stats.baseline_cycles
                    &&& x.optimized_cycles == stats.elapsed_cycles
                    &&& x.improvement == stats.improvement
                    &&& x.reward == stats.reward
                    &&& match listing::text_of(entries, technique + ".cu"@) {
                        Some(t) => x.cuda_code == t,
                        None => x.cuda_code.len() == 0,
                    }
                    &&& match listing::text_of(entries, "compile.txt"@) {
                        Some(t) => x.compiled <==> !crate::text::contains(
                            crate::text::lowercase(t),
                            "error"@,
                        ),
                        None => !x.compiled,
                    }
                    &&& match listing::text_of(entries, "execute.txt"@) {
                        Some(t) => x.executed <==> crate::text::contains(
                            crate::text::lowercase(crate::text::trimmed(t)),
                            "passed"@,
                        ),
                        None => !x.executed,
                    }
                }
            },
            (Err(m), _, _) => step_in(entries, trajectory_id, step_id) matches Err(u) && u.path
                == entries[p].path@ && u.message == m@,
            (Ok(_), Err(m), _) => step_in(entries, trajectory_id, step_id) matches Err(u) && u.path
                == entries[r].path@ && u.message == m@,
            (Ok(_), Ok(_), Err(m)) => step_in(entries, trajectory_id, step_id) matches Err(u)
                && u.path == entries[s].path@ && u.message == m@,
        },
{
    crate::text::law_affixes(technique, ".prompt"@, seq![]);
    listing::law_first_prompt(entries, 0);
    assert(listing::prompt_from(entries, 0) == Some(p));
    listing::law_technique_is_the_name(technique);
    listing::law_file_by_its_name(entries, technique + "_llm_response.txt"@, r);
    listing::law_file_by_its_name(entries, "stats.txt"@, s);
}

/// A directory without a prompt holds no step, nor does one where the response to the prompt or
/// the numbers are missing.
pub proof fn law_no_step(entries: Seq<Entry>, trajectory_id: nat, step_id: nat)
    ensures
        (forall|k: int|
            0 <= k < entries.len() ==> !crate::text::ends_with(
                (#[trigger] entries[k]).name@,
                ".prompt"@,
            )) ==> step_in(entries, trajectory_id, step_id) == Ok::<
            Option<RawStepView>,
            walk::Unreadable,
        >(None),
        (forall|k: int|
            0 <= k < entries.len() ==> !((#[trigger] entries[k]).exact && entries[k].exists
                && entries[k].name@ == "stats.txt"@)) ==> step_in(entries, trajectory_id, step_id)
            == Ok::<Option<RawStepView>, walk::Unreadable>(None),
        forall|technique: Seq<char>, p: int|
            #![trigger listing::existing(entries, technique + "_llm_response.txt"@), entries[p]]
            0 <= p < entries.len() && entries[p].name@ == technique + ".prompt"@
                && !crate::text::ends_with(technique, ".prompt"@) && (forall|k: int|
                0 <= k < p ==> !crate::text::ends_with((#[trigger] entries[k]).name@, ".prompt"@))
                && listing::existing(entries, technique + "_llm_response.txt"@) is None
                ==> step_in(entries, trajectory_id, step_id) == Ok::<
                Option<RawStepView>,
                walk::Unreadable,
            >(None),
{
    listing::law_first_prompt(entries, 0);
    listing::law_names_decide(entries, entries, "stats.txt"@, 0);
    if forall|k: int|
        0 <= k < entries.len() ==> !((#[trigger] entries[k]).exact && entries[k].exists
            && entries[k].name@ == "stats.txt"@) {
        listing::lemma_named_is_named(entries, "stats.txt"@, 0);
        assert(listing::existing(entries, "stats.txt"@) is None);
    }
    assert forall|technique: Seq<char>, p: int|
        #![trigger listing::existing(entries, technique + "_llm_response.txt"@), entries[p]]
        0 <= p < entries.len() && entries[p].name@ == technique + ".prompt"@
            && !crate::text::ends_with(technique, ".prompt"@) && (forall|k: int|
            0 <= k < p ==> !crate::text::ends_with((#[trigger] entries[k]).name@, ".prompt"@))
            && listing::existing(entries, technique + "_llm_response.txt"@) is None implies step_in(
        entries,
        trajectory_id,
        step_id,
    ) == Ok::<Option<RawStepView>, walk::Unreadable>(None) by {
        crate::text::law_affixes(technique, ".prompt"@, seq![]);
        assert(listing::prompt_from(entries, 0) == Some(p));
        listing::law_technique_is_the_name(technique);
    }
}

proof fn lemma_steps_places(
    entries: Seq<Entry>,
    order: Seq<(nat, int)>,
    trajectory_id: nat,
    k: int,
) -> (at: Seq<int>)
    requires
        0 <= k <= order.len(),
        steps_upto(entries, order, trajectory_id, k) is Ok,
    ensures
        at.len() == steps_upto(entries, order, trajectory_id, k)->Ok_0.len(),
        forall|i: int, j: int| 0 <= i < j < at.len() ==> #[trigger] at[i] < #[trigger] at[j],
        forall|i: int|
            0 <= i < at.len() ==> 0 <= #[trigger] at[i] < k && step_of(
                entries[order[at[i]].1],
                trajectory_id,
                order[at[i]].0,
            ) == Ok::<Option<RawStepView>, walk::Unreadable>(
                Some(steps_upto(entries, order, trajectory_id, k)->Ok_0[i]),
            ),
        forall|j: int|
            0 <= j < k ==> match step_of(
                entries[(#[trigger] order[j]).1],
                trajectory_id,
                order[j].0,
            ) {
                Ok(Some(_)) => at.contains(j),
                Ok(None) => true,
                Err(_) => false,
            },
    decreases k,
{
    if k == 0 {
        seq![]
    } else {
        let had = lemma_steps_places(entries, order, trajectory_id, k - 1);
        let done = steps_upto(entries, order, trajectory_id, k - 1)->Ok_0;
        let all = steps_upto(entries, order, trajectory_id, k)->Ok_0;
        let x = step_of(entries[order[k - 1].1], trajectory_id, order[k - 1].0);
        let at = if x matches Ok(Some(_)) {
            had.push(k - 1)
        } else {
            had
        };
        assert forall|i: int| 0 <= i < at.len() implies 0 <= #[trigger] at[i] < k && step_of(
            entries[order[at[i]].1],
            trajectory_id,
            order[at[i]].0,
        ) == Ok::<Option<RawStepView>, walk::Unreadable>(Some(all[i])) by {
            if i < had.len() {
                assert(at[i] == had[i]);
                assert(all[i] == done[i]);
            }
        }
        assert forall|j: int| 0 <= j < k implies match step_of(
            entries[(#[trigger] order[j]).1],
            trajectory_id,
            order[j].0,
        ) {
            Ok(Some(_)) => at.contains(j),
            Ok(None) => true,
            Err(_) => false,
        } by {
            if j < k - 1 {
                if had.contains(j) {
                    let i = choose|i: int| 0 <= i < had.len() && had[i] == j;
                    assert(at[i] == j);
                }
            } else if x matches Ok(Some(_)) {
                assert(at[had.len() as int] == j);
            }
        }
        at
    }
}

proof fn lemma_steps_succeed(
    entries: Seq<Entry>,
    order: Seq<(nat, int)>,
    trajectory_id: nat,
    k: int,
)
    requires
        0 <= k <= order.len(),
        forall|j: int|
            0 <= j < order.len() ==> step_of(
                entries[(#[trigger] order[j]).1],
                trajectory_id,
                order[j].0,
            ) is Ok,
    ensures
        steps_upto(entries, order, trajectory_id, k) is Ok,
    decreases k,
{
    if k > 0 {
        lemma_steps_succeed(entries, order, trajectory_id, k - 1);
        assert(step_of(entries[order[k - 1].1], trajectory_id, order[k - 1].0) is Ok);
    }
}

/// A trajectory holds the step of each step directory that has one, under the number of that
/// directory, and no other: `places` are the places of these directories. They come by their
/// numbers, and those of one number by their places. No step directory of them failed.
pub proof fn law_every_step_is_kept(dir: Entry, trajectory_id: nat) -> (places: Seq<int>)
    requires
        steps_of_dir(dir, trajectory_id) is Ok,
    ensures
        dir.listing is Ok,
        places.len() == steps_of_dir(dir, trajectory_id)->Ok_0.len(),
        forall|i: int|
            0 <= i < places.len() ==> 0 <= #[trigger] places[i] < dir.listing->Ok_0@.len() && (
            listing::step_number(dir.listing->Ok_0@[places[i]]) matches Some(n) && step_of(
                dir.listing->Ok_0@[places[i]],
                trajectory_id,
                n,
            ) == Ok::<Option<RawStepView>, walk::Unreadable>(
                Some(steps_of_dir(dir, trajectory_id)->Ok_0[i]),
            )),
        forall|i: int, j: int|
            0 <= i < j < places.len() ==> {
                let m = listing::step_number(dir.listing->Ok_0@[#[trigger] places[i]])->0;
                let n = listing::step_number(dir.listing->Ok_0@[#[trigger] places[j]])->0;
                m < n || (m == n && places[i] < places[j])
            },
        forall|k: int|
            0 <= k < dir.listing->Ok_0@.len() ==> (listing::step_number(
                #[trigger] dir.listing->Ok_0@[k],
            ) matches Some(n) ==> match step_of(dir.listing->Ok_0@[k], trajectory_id, n) {
                Ok(Some(_)) => places.contains(k),
                Ok(None) => true,
                Err(_) => false,
            }),
{
    let entries = dir.listing->Ok_0@;
    let numbers = listing::step_numbers(entries);
    let order = listing::in_order(numbers);
    listing::law_in_order(numbers);
    let at = lemma_steps_places(entries, order, trajectory_id, order.len() as int);
    let places = Seq::new(at.len(), |i: int| order[at[i]].1);
    assert forall|i: int| 0 <= i < at.len() implies 0 <= #[trigger] places[i] < entries.len()
        && listing::step_number(entries[places[i]]) == Some(order[at[i]].0) by {
        let x = order[at[i]];
        assert(order.contains((x.0, x.1)));
        assert(numbers[x.1] == listing::step_number(entries[x.1]));
    }
    assert forall|k: int| 0 <= k < entries.len() implies (listing::step_number(
        #[trigger] entries[k],
    ) matches Some(n) ==> match step_of(entries[k], trajectory_id, n) {
        Ok(Some(_)) => places.contains(k),
        Ok(None) => true,
        Err(_) => false,
    }) by {
        if let Some(n) = listing::step_number(entries[k]) {
            assert(numbers[k] == Some(n));
            assert(order.contains((n, k)));
            let j = choose|j: int| 0 <= j < order.len() && order[j] == (n, k);
            assert(order[j].1 == k);
            if at.contains(j) {
                let i = choose|i: int| 0 <= i < at.len() && at[i] == j;
                assert(places[i] == k);
            }
        }
    }
    places
}

/// The steps of a directory that can be listed are read where none of them fails.
pub proof fn law_steps_are_read(dir: Entry, trajectory_id: nat)
    requires
        dir.listing matches Ok(v) && forall|k: int|
            0 <= k < v@.len() ==> (listing::step_number(#[trigger] v@[k]) matches Some(n)
                ==> step_of(v@[k], trajectory_id, n) is Ok),
    ensures
        steps_of_dir(dir, trajectory_id) is Ok,
{
    let entries = dir.listing->Ok_0@;
    let numbers = listing::step_numbers(entries);
    let order = listing::in_order(numbers);
    listing::law_in_order(numbers);
    assert forall|j: int| 0 <= j < order.len() implies step_of(
        entries[(#[trigger] order[j]).1],
        trajectory_id,
        order[j].0,
    ) is Ok by {
        let x = order[j];
        assert(order.contains((x.0, x.1)));
        assert(numbers[x.1] == listing::step_number(entries[x.1]));
    }
    lemma_steps_succeed(entries, order, trajectory_id, order.len() as int);
}

proof fn lemma_trajectories_places(entries: Seq<Entry>, order: Seq<(nat, int)>, k: int) -> (at:
    Seq<int>)
    requires
        0 <= k <= order.len(),
        trajectories_upto(entries, order, k) is Ok,
    ensures
        at.len() == trajectories_upto(entries, order, k)->Ok_0.len(),
        forall|i: int, j: int| 0 <= i < j < at.len() ==> #[trigger] at[i] < #[trigger] at[j],
        forall|i: int|
            0 <= i < at.len() ==> 0 <= #[trigger] at[i] < k && {
                let t = trajectories_upto(entries, order, k)->Ok_0[i];
                let dir = entries[order[at[i]].1];
                &&& t.id == order[at[i]].0
                &&& t.hash == (listing::trajectory_of(dir)->Some_0).1
                &&& t.steps.len() > 0
                &&& steps_of_dir(dir, t.id) == Ok::<Seq<RawStepView>, walk::Unreadable>(t.steps)
            },
        forall|j: int|
            0 <= j < k ==> match steps_of_dir(entries[(#[trigger] order[j]).1], order[j].0) {
                Ok(steps) => steps.len() > 0 ==> at.contains(j),
                Err(_) => false,
            },
    decreases k,
{
    if k == 0 {
        seq![]
    } else {
        let had = lemma_trajectories_places(entries, order, k - 1);
        let done = trajectories_upto(entries, order, k - 1)->Ok_0;
        let all = trajectories_upto(entries, order, k)->Ok_0;
        let steps = steps_of_dir(entries[order[k - 1].1], order[k - 1].0)->Ok_0;
        let at = if steps.len() > 0 {
            had.push(k - 1)
        } else {
            had
        };
        assert forall|i: int| 0 <= i < at.len() implies 0 <= #[trigger] at[i] < k && {
            let t = all[i];
            let dir = entries[order[at[i]].1];
            &&& t.id == order[at[i]].0
            &&& t.hash == (listing::trajectory_of(dir)->Some_0).1
            &&& t.steps.len() > 0
            &&& steps_of_dir(dir, t.id) == Ok::<Seq<RawStepView>, walk::Unreadable>(t.steps)
        } by {
            if i < had.len() {
                assert(at[i] == had[i]);
                assert(all[i] == done[i]);
            }
        }
        assert forall|j: int| 0 <= j < k implies match steps_of_dir(
            entries[(#[trigger] order[j]).1],
            order[j].0,
        ) {
            Ok(steps) => steps.len() > 0 ==> at.contains(j),
            Err(_) => false,
        } by {
            if j < k - 1 {
                if had.contains(j) {
                    let i = choose|i: int| 0 <= i < had.len() && had[i] == j;
                    assert(at[i] == j);
                }
            } else if steps.len() > 0 {
                assert(at[had.len() as int] == j);
            }
        }
        at
    }
}

proof fn lemma_trajectories_succeed(entries: Seq<Entry>, order: Seq<(nat, int)>, k: int)
    requires
        0 <= k <= order.len(),
        forall|j: int|
            0 <= j < order.len() ==> steps_of_dir(
                entries[(#[trigger] order[j]).1],
                order[j].0,
            ) is Ok,
    ensures
        trajectories_upto(entries, order, k) is Ok,
    decreases k,
{
    if k > 0 {
        lemma_trajectories_succeed(entries, order, k - 1);
        assert(steps_of_dir(entries[order[k - 1].1], order[k - 1].0) is Ok);
    }
}

/// An experiment holds each trajectory directory that has a step, with its number, its hash and
/// all its steps, and no other: `places` are the places of these directories. They come by their
/// numbers, and those of one number by their places. No trajectory directory of them failed.
pub proof fn law_every_trajectory_is_kept(entries: Seq<Entry>) -> (places: Seq<int>)
    requires
        trajectories_in(entries) is Ok,
    ensures
        places.len() == trajectories_in(entries)->Ok_0.len(),
        forall|i: int|
            0 <= i < places.len() ==> 0 <= #[trigger] places[i] < entries.len() && {
                let t = trajectories_in(entries)->Ok_0[i];
                &&& listing::trajectory_of(entries[places[i]]) == Some((t.id, t.hash))
                &&& t.steps.len() > 0
                &&& steps_of_dir(entries[places[i]], t.id) == Ok::<
                    Seq<RawStepView>,
                    walk::Unreadable,
                >(t.steps)
            },
        forall|i: int, j: int|
            0 <= i < j < places.len() ==> {
                let m = (listing::trajectory_of(entries[#[trigger] places[i]])->Some_0).0;
                let n = (listing::trajectory_of(entries[#[trigger] places[j]])->Some_0).0;
                m < n || (m == n && places[i] < places[j])
            },
        forall|k: int|
            0 <= k < entries.len() ==> (listing::trajectory_of(#[trigger] entries[k]) matches Some(
                x,
            ) ==> match steps_of_dir(entries[k], x.0) {
                Ok(steps) => steps.len() > 0 ==> places.contains(k),
                Err(_) => false,
            }),
{
    let numbers = listing::trajectory_numbers(entries);
    let order = listing::in_order(numbers);
    listing::law_in_order(numbers);
    let at = lemma_trajectories_places(entries, order, order.len() as int);
    let places = Seq::new(at.len(), |i: int| order[at[i]].1);
    assert forall|i: int| 0 <= i < at.len() implies 0 <= #[trigger] places[i] < entries.len() && (
    listing::trajectory_of(entries[places[i]]) matches Some(x) && x.0 == order[at[i]].0) by {
        let x = order[at[i]];
        assert(order.contains((x.0, x.1)));
        assert(numbers[x.1] == listing::trajectory_number(entries[x.1]));
    }
    assert forall|k: int| 0 <= k < entries.len() implies (listing::trajectory_of(
        #[trigger] entries[k],
    ) matches Some(x) ==> match steps_of_dir(entries[k], x.0) {
        Ok(steps) => steps.len() > 0 ==> places.contains(k),
        Err(_) => false,
    }) by {
        if let Some(x) = listing::trajectory_of(entries[k]) {
            assert(numbers[k] == listing::trajectory_number(entries[k]));
            assert(order.contains((x.0, k)));
            let j = choose|j: int| 0 <= j < order.len() && order[j] == (x.0, k);
            assert(order[j].1 == k);
            if at.contains(j) {
                let i = choose|i: int| 0 <= i < at.len() && at[i] == j;
                assert(places[i] == k);
            }
        }
    }
    places
}

/// The trajectories of a listing are read where none of them fails.
pub proof fn law_trajectories_are_read(entries: Seq<Entry>)
    requires
        forall|k: int|
            0 <= k < entries.len() ==> (listing::trajectory_of(#[trigger] entries[k]) matches Some(
                x,
            ) ==> steps_of_dir(entries[k], x.0) is Ok),
    ensures
        trajectories_in(entries) is Ok,
{
    let numbers = listing::trajectory_numbers(entries);
    let order = listing::in_order(numbers);
    listing::law_in_order(numbers);
    assert forall|j: int| 0 <= j < order.len() implies steps_of_dir(
        entries[(#[trigger] order[j]).1],
        order[j].0,
    ) is Ok by {
        let x = order[j];
        assert(order.contains((x.0, x.1)));
        assert(numbers[x.1] == listing::trajectory_number(entries[x.1]));
    }
    lemma_trajectories_succeed(entries, order, order.len() as int);
}

/// An experiment has the names of the directories above its own: the problem, the level and the
/// model, in that order upwards, as far as there are any.
pub proof fn law_experiment_names(dir: ExperimentFiles, x: RawExperimentView)
    requires
        experiment_of(dir) == Ok::<Option<RawExperimentView>, walk::Unreadable>(Some(x)),
    ensures
        ({
            let n = dir.components@.len();
            &&& dir.has_baseline
            &&& n >= 2 ==> x.problem_name == dir.components@[n - 2]@
            &&& n < 2 ==> x.problem_name == "unknown"@
            &&& n >= 3 ==> x.level == dir.components@[n - 3]@
            &&& n < 3 ==> x.level == "unknown"@
            &&& n >= 4 ==> x.model_name == dir.components@[n - 4]@
            &&& n < 4 ==> x.model_name == "unknown"@
        }),
{
}

/// An experiment holds its baseline files, its listed rewards and its trajectories. It fails
/// where the rewards or, after them, a listing cannot be read, and without a baseline it is none.
pub proof fn law_experiment_is_whole(dir: ExperimentFiles)
    ensures
        !dir.has_baseline ==> experiment_of(dir) == Ok::<
            Option<RawExperimentView>,
            walk::Unreadable,
        >(None),
        dir.has_baseline && (dir.rewards matches Some(f) && f.content is Err) ==> (experiment_of(
            dir,
        ) matches Err(u) && u.path == dir.rewards->0.path@ && u.message
            == dir.rewards->0.content->Err_0@),
        dir.has_baseline && !(dir.rewards matches Some(f) && f.content is Err) ==> (
        match dir.listing {
            Err(m) => experiment_of(dir) matches Err(u) && u.path == dir.path@ && u.message == m@,
            Ok(entries) => match trajectories_in(entries@) {
                Err(e) => experiment_of(dir) == Err::<Option<RawExperimentView>, walk::Unreadable>(
                    e,
                ),
                Ok(trajectories) => experiment_of(dir) matches Ok(Some(x)) && {
                    &&& x.trajectories == trajectories
                    &&& match dir.rewards {
                        Some(f) => x.rewards == files::reward_fields(f.content->Ok_0@),
                        None => x.rewards.len() == 0,
                    }
                    &&& match dir.baseline.init_code {
                        Some(t) => x.init_code == t@,
                        None => x.init_code.len() == 0,
                    }
                    &&& match dir.baseline.profile {
                        Some(t) => x.profile == t@,
                        None => x.profile.len() == 0,
                    }
                    &&& match dir.baseline.state_response {
                        Some(t) => x.state_response == t@,
                        None => x.state_response.len() == 0,
                    }
                    &&& match dir.baseline.plan {
                        Some(t) => x.plan == files::plan_json(t@),
                        None => x.plan == "[]"@,
                    }
                },
            },
        }),
{
    if dir.baseline.plan is None {
        law_missing_plan(dir.baseline);
    }
}

/// Reading its numbers changes nothing else of a step, and a number that is missing is zero.
pub proof fn law_scored_step_is_kept(s: StepData, raw: RawStepView, score: StepScore)
    requires
        is_scored(s, raw, score),
    ensures
        s.trajectory_id == raw.trajectory_id,
        s.step_id == raw.step_id,
        s.technique@ == raw.technique,
        s.prompt_text@ == raw.prompt_text,
        s.response_text@ == raw.response_text,
        s.cuda_code@ == raw.cuda_code,
        s.baseline_cycles == raw.baseline_cycles,
        s.optimized_cycles == raw.optimized_cycles,
        s.compiled == raw.compiled,
        s.executed == raw.executed,
        match score.reward {
            Some(x) => s.reward == x,
            None => s.reward.bits == 0,
        },
        match score.improvement {
            Some(x) => s.improvement_pct == x,
            None => s.improvement_pct.bits == 0,
        },
{
}

/// Reading its numbers changes nothing else of an experiment: each of its trajectories and each
/// step of these is there, with the numbers that belong to it.
pub proof fn law_scored_experiment_is_kept(
    x: Experiment,
    raw: RawExperimentView,
    plan: Option<Vec<OptimizationTechnique>>,
    rewards: Seq<Option<Real>>,
    scores: Seq<Vec<StepScore>>,
)
    requires
        is_scored_experiment(x, raw, plan, rewards, scores),
    ensures
        x.problem_name@ == raw.problem_name,
        x.model_name@ == raw.model_name,
        x.level@ == raw.level,
        x.baseline.init_code@ == raw.init_code,
        x.baseline.profile@ == raw.profile,
        x.baseline.state_response@ == raw.state_response,
        match plan {
            Some(p) => x.baseline.optimization_plan == p,
            None => x.baseline.optimization_plan@.len() == 0,
        },
        x.all_rewards@ == files::numbers_in(rewards),
        x.trajectories@.len() == raw.trajectories.len(),
        forall|i: int|
            0 <= i < raw.trajectories.len() ==> (#[trigger] x.trajectories@[i]).id
                == raw.trajectories[i].id && x.trajectories@[i].hash@ == raw.trajectories[i].hash
                && x.trajectories@[i].steps@.len() == raw.trajectories[i].steps.len(),
        forall|i: int, j: int|
            0 <= i < raw.trajectories.len() && 0 <= j < raw.trajectories[i].steps.len()
                ==> is_scored(
                #[trigger] x.trajectories@[i].steps@[j],
                raw.trajectories[i].steps[j],
                scores[i]@[j],
            ),
{
}

/// What is read of a step is spoken of as it is.
pub proof fn law_steps_as_they_are(s: RawStep)
    ensures
        s@.trajectory_id == s.trajectory_id,
        s@.step_id == s.step_id,
        s@.technique == s.technique@,
        s@.prompt_text == s.prompt_text@,
        s@.response_text == s.response_text@,
        s@.cuda_code == s.cuda_code@,
        s@.baseline_cycles == s.baseline_cycles,
        s@.optimized_cycles == s.optimized_cycles,
        match s.improvement {
            Some(t) => s@.improvement == Some(t@),
            None => s@.improvement is None,
        },
        match s.reward {
            Some(t) => s@.reward == Some(t@),
            None => s@.reward is None,
        },
        s@.compiled == s.compiled,
        s@.executed == s.executed,
{
}

/// What is read of an experiment and of its trajectories is spoken of as it is, one by one.
pub proof fn law_experiments_as_they_are(x: RawExperiment, i: int, j: int)
    ensures
        x@.problem_name == x.problem_name@,
        x@.model_name == x.model_name@,
        x@.level == x.level@,
        x@.init_code == x.baseline.init_code@,
        x@.profile == x.baseline.profile@,
        x@.plan == x.baseline.plan@,
        x@.state_response == x.baseline.state_response@,
        x@.rewards.len() == x.rewards@.len(),
        0 <= i < x.rewards@.len() ==> x@.rewards[i] == x.rewards@[i]@,
        x@.trajectories.len() == x.trajectories@.len(),
        0 <= i < x.trajectories@.len() ==> x@.trajectories[i].id == x.trajectories@[i].id
            && x@.trajectories[i].hash == x.trajectories@[i].hash@
            && x@.trajectories[i].steps.len() == x.trajectories@[i].steps@.len(),
        0 <= i < x.trajectories@.len() && 0 <= j < x.trajectories@[i].steps@.len()
            ==> x@.trajectories[i].steps[j] == x.trajectories@[i].steps@[j]@,
{
}

/// A directory that cannot be listed holds no step, and any other the step that its listing shows.
pub proof fn law_step_of_a_directory(dir: Entry, trajectory_id: nat, step_id: nat)
    ensures
        match dir.listing {
            Ok(entries) => step_of(dir, trajectory_id, step_id) == step_in(
                entries@,
                trajectory_id,
                step_id,
            ),
            Err(_) => step_of(dir, trajectory_id, step_id) == Ok::<
                Option<RawStepView>,
                walk::Unreadable,
            >(None),
        },
{
}

/// An error says what failed, where, and why.
pub proof fn law_errors_in_words(a: String, b: String)
    ensures
        (IngestError::Io { path: a, message: b }).words() == "IO error at "@ + a@ + ": "@ + b@,
        (IngestError::Parse { context: a, message: b }).words() == "parse error in "@ + a@ + ": "@
            + b@,
        IngestError::NoData(a).words() == "no experiments found in "@ + a@,
{
}

} // verus!
