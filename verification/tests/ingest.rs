use orl::double::Real;
use orl::ingest::files::{
    compiled_cleanly, keep_numbers, or_zero, parse_optimization_plan, parse_rewards_csv,
    parse_stats, plan_readable, ran_well,
};
use orl::ingest::listing::{
    discover_steps, discover_trajectories, find_existing, find_named, find_prompt_file,
    find_response_file, parse_step_name, parse_trajectory_name, read_file_optional, wanted_files,
    Entry,
};
use orl::ingest::walk::{walkdir, Folder};
use orl::ingest::{
    baseline_readable, ingest_experiment, ingest_logs, parse_baseline, parse_step, plan_error,
    score_experiment, score_step, BaselineFiles, ExperimentFiles, IngestError, StepScore, TextFile,
};
use orl::trajectory::OptimizationTechnique;

fn number(text: &str) -> Option<Real> {
    text.parse::<f64>().ok().map(|x| Real::from_bits(x.to_bits()))
}

fn float(x: Real) -> f64 {
    f64::from_bits(x.bits)
}

fn file(name: &str, content: &str) -> Entry {
    Entry {
        name: name.to_string(),
        exact: true,
        path: format!("logs/{}", name),
        is_dir: false,
        exists: true,
        content: Ok(content.to_string()),
        listing: Err("not a directory".to_string()),
    }
}

fn dir(name: &str, entries: Vec<Entry>) -> Entry {
    Entry {
        name: name.to_string(),
        exact: true,
        path: format!("logs/{}", name),
        is_dir: true,
        exists: true,
        content: Err("is a directory".to_string()),
        listing: Ok(entries),
    }
}

fn step_files(technique: &str, reward: &str) -> Vec<Entry> {
    vec![
        file("notes.md", "-"),
        file(&format!("{}.prompt", technique), "the prompt"),
        file(&format!("{}_llm_response.txt", technique), "the response"),
        file(
            "stats.txt",
            &format!("baseline: 10\nelapsed: 8\nimprovement: 20%\nreward: {}", reward),
        ),
        file(&format!("{}.cu", technique), "__global__"),
        file("compile.txt", "0 warnings"),
        file("execute.txt", "\n PASSED \n"),
    ]
}

fn baseline() -> BaselineFiles {
    BaselineFiles {
        init_code: Some("int main() {}".to_string()),
        profile: None,
        state_response: Some("state".to_string()),
        plan: None,
    }
}

fn experiment(entries: Vec<Entry>) -> ExperimentFiles {
    ExperimentFiles {
        path: "logs/model/level1/gemm/rl-ncu".to_string(),
        components: ["logs", "model", "level1", "gemm", "rl-ncu"]
            .iter()
            .map(|s| s.to_string())
            .collect(),
        has_baseline: true,
        baseline: baseline(),
        rewards: None,
        listing: Ok(entries),
    }
}

fn folder(id: usize, name: &str, has_baseline: bool, folders: Vec<Folder>) -> Folder {
    Folder {
        id,
        name: name.to_string(),
        path: format!("/{}", id),
        has_baseline,
        folders: Ok(folders),
    }
}

#[test]
fn test_parse_stats() {
    let content = "baseline elapsed cycles : 38730172\n\
                    elapsed cycles          : 24049136\n\
                    improvement             : 37.91%\n\
                    reward                  : 0.3791";
    let stats = parse_stats(content);
    let improvement = float(or_zero(number(stats.improvement.as_ref().unwrap())));
    let reward = float(or_zero(number(stats.reward.as_ref().unwrap())));
    assert_eq!(stats.baseline_cycles, 38730172);
    assert_eq!(stats.elapsed_cycles, 24049136);
    assert!((improvement - 37.91).abs() < 0.01);
    assert!((reward - 0.3791).abs() < 0.001);
}

#[test]
fn test_parse_rewards_csv() {
    let csv = "0.379,0.207,0.295,0.817";
    let fields: Vec<Option<Real>> = parse_rewards_csv(csv).iter().map(|t| number(t)).collect();
    let rewards = keep_numbers(&fields);
    assert_eq!(rewards.len(), 4);
    assert!((float(rewards[0]) - 0.379).abs() < 0.001);
}

#[test]
fn test_parse_optimization_plan() {
    let json = r#"[{"technique":"register_blocking","relevance_score":0.95,"description":"test"}]"#;
    assert!(plan_readable(json));
    let plan: serde_json::Value = serde_json::from_str(parse_optimization_plan(json)).unwrap();
    assert_eq!(plan.as_array().unwrap().len(), 1);
    assert_eq!(plan[0]["technique"], "register_blocking");
}

#[test]
fn test_parse_optimization_plan_with_code_fence() {
    let json = "```json\n[{\"technique\":\"test\",\"relevance_score\":0.5,\"description\":\"d\"}]\n```";
    assert!(plan_readable(json));
    let plan: serde_json::Value = serde_json::from_str(parse_optimization_plan(json)).unwrap();
    assert_eq!(plan.as_array().unwrap().len(), 1);
}

#[test]
fn later_lines_of_stats_count() {
    let stats = parse_stats("reward: 1\nbaseline: x\n no colon\nreward : 2%%\r\n:9\nelapsed: +7");
    assert_eq!(stats.baseline_cycles, 0);
    assert_eq!(stats.elapsed_cycles, 7);
    assert_eq!(stats.improvement, None);
    assert_eq!(stats.reward, Some("2".to_string()));
    assert_eq!(parse_stats("baseline: 5\nbaseline: 18446744073709551616").baseline_cycles, 0);
}

#[test]
fn a_value_keeps_what_follows_its_first_colon() {
    let stats = parse_stats("reward: 1:2");
    assert_eq!(stats.reward, Some("1:2".to_string()));
}

#[test]
fn fenced_plans_are_cut_at_their_brackets() {
    assert_eq!(parse_optimization_plan("  [1] "), "[1]");
    assert_eq!(parse_optimization_plan("```[1] x] y"), "[1] x]");
    assert_eq!(parse_optimization_plan("```no list"), "```no list");
    assert_eq!(parse_optimization_plan("```]["), "");
    assert!(!plan_readable("```] ["));
    assert!(plan_readable("] ["));
}

#[test]
fn fields_that_are_no_numbers_are_dropped() {
    let fields = parse_rewards_csv(" 1, x ,,2 \n");
    assert_eq!(fields, vec!["1", "x", "", "2"]);
    let numbers: Vec<Option<Real>> = fields.iter().map(|t| number(t)).collect();
    let kept: Vec<f64> = keep_numbers(&numbers).iter().map(|x| float(*x)).collect();
    assert_eq!(kept, vec![1.0, 2.0]);
    assert_eq!(float(or_zero(None)), 0.0);
}

#[test]
fn logs_are_judged_by_their_words() {
    assert!(compiled_cleanly("0 warnings"));
    assert!(!compiled_cleanly("fatal error: x"));
    assert!(ran_well("test passed"));
    assert!(!ran_well("failed"));
}

#[test]
fn directories_come_by_their_numbers() {
    let entries = vec![
        dir("trajectory_10_x", vec![]),
        dir("trajectory_2_a_b", vec![]),
        file("trajectory_1_file", ""),
        dir("trajectory_2", vec![]),
        dir("trajectory_x_y", vec![]),
        dir("trajectory_2_again", vec![]),
        dir("step_3", vec![]),
        dir("step_+1", vec![]),
        dir("step_", vec![]),
    ];
    assert_eq!(discover_trajectories(&entries), vec![(2, 1), (2, 5), (10, 0)]);
    assert_eq!(discover_steps(&entries), vec![(1, 7), (3, 6)]);
    assert_eq!(parse_trajectory_name(&entries[1]), Some((2, "a_b")));
    assert_eq!(parse_trajectory_name(&entries[3]), None);
    assert_eq!(parse_step_name(&entries[6]), Some(3));
    assert_eq!(parse_step_name(&entries[0]), None);
}

#[test]
fn files_are_found_by_their_exact_names() {
    let mut entries = step_files("tiling", "0.5");
    assert_eq!(find_prompt_file(&entries), Some(("tiling".to_string(), 1)));
    assert_eq!(find_response_file(&entries, "tiling"), Some(2));
    assert_eq!(find_response_file(&entries, "other"), None);
    assert_eq!(find_named(&entries, "stats.txt"), Some(3));
    assert_eq!(read_file_optional(&entries, "compile.txt"), Some("0 warnings".to_string()));
    entries[3].exists = false;
    assert_eq!(find_existing(&entries, "stats.txt"), None);
    entries[2].exact = false;
    assert_eq!(find_response_file(&entries, "tiling"), None);
    entries[5].content = Err("denied".to_string());
    assert_eq!(read_file_optional(&entries, "compile.txt"), None);
}

#[test]
fn repeated_endings_are_no_part_of_the_technique() {
    let entries = vec![file("a.prompt.prompt", "")];
    assert_eq!(find_prompt_file(&entries), Some(("a".to_string(), 0)));
    assert_eq!(find_prompt_file(&Vec::new()), None);
}

#[test]
fn a_step_is_read_from_its_files() {
    let step = parse_step(&dir("step_4", step_files("tiling", "0.5")), 7, 4)
        .unwrap()
        .unwrap();
    assert_eq!(step.trajectory_id, 7);
    assert_eq!(step.step_id, 4);
    assert_eq!(step.technique, "tiling");
    assert_eq!(step.prompt_text, "the prompt");
    assert_eq!(step.response_text, "the response");
    assert_eq!(step.cuda_code, "__global__");
    assert_eq!(step.baseline_cycles, 10);
    assert_eq!(step.optimized_cycles, 8);
    assert_eq!(step.improvement, Some("20".to_string()));
    assert_eq!(step.reward, Some("0.5".to_string()));
    assert!(step.compiled);
    assert!(step.executed);
    let score = StepScore {
        improvement: number("20"),
        reward: None,
    };
    let scored = score_step(&step, score);
    assert_eq!(float(scored.improvement_pct), 20.0);
    assert_eq!(float(scored.reward), 0.0);
    assert_eq!(scored.technique, "tiling");
}

#[test]
fn a_step_reads_no_other_files() {
    let all = step_files("tiling", "0.5");
    let mut wanted = wanted_files(&all);
    wanted.sort();
    assert_eq!(wanted, vec![1, 2, 3, 4, 5, 6]);
    let expected = parse_step(&dir("step_0", step_files("tiling", "0.5")), 1, 0).unwrap().unwrap();
    let mut entries = step_files("tiling", "0.5");
    entries.insert(0, file("core.dump", "-"));
    entries.push(file("other.prompt", "-"));
    for entry in &mut entries {
        entry.content = Err("not read".to_string());
    }
    let mut read = step_files("tiling", "0.5");
    read.insert(0, file("core.dump", "-"));
    for k in wanted_files(&entries) {
        entries[k].content = read[k].content.clone();
    }
    let step = parse_step(&dir("step_0", entries), 1, 0).unwrap().unwrap();
    assert_eq!(step.prompt_text, expected.prompt_text);
    assert_eq!(step.response_text, expected.response_text);
    assert_eq!(step.cuda_code, expected.cuda_code);
    assert_eq!(step.reward, expected.reward);
    assert!(step.compiled && step.executed);
    assert!(wanted_files(&vec![file("stats.txt", "")]).is_empty());
}

#[test]
fn upper_case_errors_count() {
    let mut entries = step_files("tiling", "0.5");
    entries[5] = file("compile.txt", "ERROR: no kernel");
    entries[6] = file("execute.txt", "FAILED");
    let step = parse_step(&dir("step_0", entries), 0, 0).unwrap().unwrap();
    assert!(!step.compiled);
    assert!(!step.executed);
}

#[test]
fn optional_files_may_be_missing() {
    let mut entries = step_files("tiling", "0.5");
    entries.truncate(4);
    let step = parse_step(&dir("step_0", entries), 0, 0).unwrap().unwrap();
    assert_eq!(step.cuda_code, "");
    assert!(!step.compiled);
    assert!(!step.executed);
}

#[test]
fn a_step_without_its_files_is_none() {
    for missing in [1usize, 2, 3] {
        let mut entries = step_files("tiling", "0.5");
        entries.remove(missing);
        assert!(parse_step(&dir("step_0", entries), 0, 0).unwrap().is_none());
    }
    let mut unlisted = dir("step_0", vec![]);
    unlisted.listing = Err("denied".to_string());
    assert!(parse_step(&unlisted, 0, 0).unwrap().is_none());
}

#[test]
fn an_unreadable_file_stops_a_step() {
    for broken in [1usize, 2, 3] {
        let mut entries = step_files("tiling", "0.5");
        entries[broken].content = Err("denied".to_string());
        let path = entries[broken].path.clone();
        match parse_step(&dir("step_0", entries), 0, 0) {
            Err(IngestError::Io { path: p, message }) => {
                assert_eq!(p, path);
                assert_eq!(message, "denied");
            }
            _ => panic!("expected an error"),
        }
    }
}

#[test]
fn a_baseline_may_lack_its_files() {
    let raw = parse_baseline(&baseline());
    assert_eq!(raw.init_code, "int main() {}");
    assert_eq!(raw.profile, "");
    assert_eq!(raw.plan, "[]");
    assert_eq!(raw.state_response, "state");
    let mut files = baseline();
    files.plan = Some("```] [".to_string());
    assert!(!baseline_readable(&files));
    files.plan = Some("``` [2] ```".to_string());
    assert!(baseline_readable(&files));
    assert_eq!(parse_baseline(&files).plan, "[2]");
}

#[test]
fn an_experiment_holds_its_trajectories_in_order() {
    let entries = vec![
        dir(
            "trajectory_3_cc",
            vec![
                dir("step_2", step_files("b", "0.2")),
                dir("step_1", step_files("a", "0.1")),
            ],
        ),
        dir("trajectory_1_aa", vec![dir("step_0", step_files("c", "0.3"))]),
        dir("trajectory_2_bb", vec![dir("step_0", vec![])]),
    ];
    let raw = ingest_experiment(&experiment(entries)).unwrap().unwrap();
    assert_eq!(raw.problem_name, "gemm");
    assert_eq!(raw.level, "level1");
    assert_eq!(raw.model_name, "model");
    assert_eq!(raw.trajectories.len(), 2);
    assert_eq!(raw.trajectories[0].id, 1);
    assert_eq!(raw.trajectories[0].hash, "aa");
    assert_eq!(raw.trajectories[1].id, 3);
    let steps: Vec<usize> = raw.trajectories[1].steps.iter().map(|s| s.step_id).collect();
    assert_eq!(steps, vec![1, 2]);
    assert_eq!(raw.trajectories[1].steps[0].trajectory_id, 3);
}

#[test]
fn an_experiment_gets_its_numbers() {
    let entries = vec![dir(
        "trajectory_1_aa",
        vec![dir("step_0", step_files("c", "0.3")), dir("step_1", step_files("c", "bad"))],
    )];
    let mut files = experiment(entries);
    files.rewards = Some(TextFile {
        path: "rewards.csv".to_string(),
        content: Ok("0.3,bad".to_string()),
    });
    let raw = ingest_experiment(&files).unwrap().unwrap();
    assert_eq!(raw.rewards, vec!["0.3", "bad"]);
    let scores: Vec<Vec<StepScore>> = raw
        .trajectories
        .iter()
        .map(|t| {
            t.steps
                .iter()
                .map(|s| StepScore {
                    improvement: s.improvement.as_ref().and_then(|x| number(x)),
                    reward: s.reward.as_ref().and_then(|x| number(x)),
                })
                .collect()
        })
        .collect();
    let rewards: Vec<Option<Real>> = raw.rewards.iter().map(|x| number(x)).collect();
    let plan = vec![OptimizationTechnique {
        technique: "tiling".to_string(),
        relevance_score: number("0.5").unwrap(),
        description: "d".to_string(),
    }];
    let full = score_experiment(&raw, Some(plan), &rewards, &scores);
    assert_eq!(full.baseline.optimization_plan.len(), 1);
    assert_eq!(full.all_rewards.len(), 1);
    assert_eq!(full.trajectories[0].hash, "aa");
    assert_eq!(float(full.trajectories[0].steps[0].reward), 0.3);
    assert_eq!(float(full.trajectories[0].steps[1].reward), 0.0);
    assert_eq!(float(full.trajectories[0].steps[1].improvement_pct), 20.0);
    assert!(score_experiment(&raw, None, &rewards, &scores).baseline.optimization_plan.is_empty());
}

#[test]
fn short_paths_have_unknown_parts() {
    let mut files = experiment(vec![]);
    files.components = vec!["gemm".to_string(), "rl-ncu".to_string()];
    let raw = ingest_experiment(&files).unwrap().unwrap();
    assert_eq!(raw.problem_name, "gemm");
    assert_eq!(raw.level, "unknown");
    assert_eq!(raw.model_name, "unknown");
}

#[test]
fn an_experiment_needs_a_baseline() {
    let mut files = experiment(vec![]);
    files.has_baseline = false;
    assert!(ingest_experiment(&files).unwrap().is_none());
}

#[test]
fn an_experiment_fails_on_what_it_cannot_read() {
    let mut files = experiment(vec![]);
    files.listing = Err("denied".to_string());
    let e = ingest_experiment(&files).err().unwrap();
    assert_eq!(e.message(), "IO error at logs/model/level1/gemm/rl-ncu: denied");

    files.rewards = Some(TextFile {
        path: "rewards.csv".to_string(),
        content: Err("not text".to_string()),
    });
    let e = ingest_experiment(&files).err().unwrap();
    assert_eq!(e.message(), "IO error at rewards.csv: not text");

    let mut broken = dir("trajectory_0_x", vec![]);
    broken.listing = Err("denied".to_string());
    let e = ingest_experiment(&experiment(vec![broken])).err().unwrap();
    assert_eq!(e.message(), "IO error at logs/trajectory_0_x: denied");
}

#[test]
fn experiments_that_fail_are_skipped() {
    let raw = ingest_experiment(&experiment(vec![])).unwrap().unwrap();
    let good = score_experiment(&raw, None, &Vec::new(), &Vec::new());
    let outcomes = vec![
        Err(IngestError::NoData("x".to_string())),
        Ok(None),
        Ok(Some(good)),
    ];
    assert_eq!(ingest_logs("logs", outcomes).unwrap().experiments.len(), 1);
    let e = ingest_logs("logs", vec![Ok(None)]).err().unwrap();
    assert_eq!(e.message(), "no experiments found in logs");
    assert_eq!(
        plan_error("oops".to_string()).message(),
        "parse error in optimization-plan.json: oops"
    );
}

#[test]
fn the_walk_finds_experiments() {
    let inner = folder(3, "rl-ncu", true, vec![folder(4, "rl-ncu", true, vec![])]);
    let plain = folder(5, "rl-ncu", false, vec![folder(6, "rl-ncu", true, vec![])]);
    let root = folder(0, "logs", true, vec![folder(1, "model", false, vec![inner, plain])]);
    let found: Vec<usize> = walkdir(&root).unwrap().iter().map(|f| f.id).collect();
    assert_eq!(found, vec![3, 6]);
    assert_eq!(walkdir(&folder(9, "rl-ncu", true, vec![])).unwrap().len(), 1);
}

#[test]
fn the_walk_goes_six_levels_down() {
    for (depth, expected) in [(6usize, 1usize), (7, 0)] {
        let mut f = folder(100, "rl-ncu", true, vec![]);
        for level in 0..depth {
            f = folder(level, "d", false, vec![f]);
        }
        assert_eq!(walkdir(&f).unwrap().len(), expected);
    }
    let plain = folder(0, "d", true, vec![]);
    assert!(plain.is_searched_at(6));
    assert!(!plain.is_searched_at(7));
    assert!(!folder(0, "rl-ncu", true, vec![]).is_searched_at(0));
    assert!(folder(0, "rl-ncu", false, vec![]).is_searched_at(0));
}

#[test]
fn the_walk_stops_at_an_unreadable_directory() {
    let mut closed = folder(1, "closed", false, vec![]);
    closed.folders = Err("denied".to_string());
    let root = folder(0, "logs", false, vec![folder(2, "rl-ncu", true, vec![]), closed]);
    let e = walkdir(&root).err().unwrap();
    assert_eq!(e.message(), "IO error at /1: denied");
}
