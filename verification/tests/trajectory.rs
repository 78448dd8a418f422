use orl::double::Real;
use orl::trajectory::{BaselineData, Dataset, Experiment, StepData, Trajectory};

fn r(x: f64) -> Real {
    Real::from_bits(x.to_bits())
}

fn float(x: Real) -> f64 {
    f64::from_bits(x.bits)
}

fn step(technique: &str, reward: f64, step_id: usize) -> StepData {
    StepData {
        trajectory_id: 0,
        step_id,
        technique: technique.to_string(),
        prompt_text: String::new(),
        response_text: String::new(),
        cuda_code: String::new(),
        reward: r(reward),
        baseline_cycles: 0,
        optimized_cycles: 0,
        improvement_pct: r(0.0),
        compiled: true,
        executed: true,
    }
}

fn trajectory(id: usize, steps: Vec<StepData>) -> Trajectory {
    Trajectory {
        id,
        hash: format!("h{}", id),
        steps,
    }
}

fn experiment(trajectories: Vec<Trajectory>) -> Experiment {
    Experiment {
        problem_name: "gemm".to_string(),
        model_name: "m".to_string(),
        level: "level1".to_string(),
        baseline: BaselineData {
            init_code: String::new(),
            profile: String::new(),
            optimization_plan: Vec::new(),
            state_response: String::new(),
        },
        trajectories,
        all_rewards: Vec::new(),
    }
}

fn sample() -> Experiment {
    experiment(vec![
        trajectory(0, vec![step("tiling", 0.5, 0), step("fusion", -0.25, 1)]),
        trajectory(1, vec![]),
        trajectory(2, vec![step("tiling", 0.75, 2)]),
    ])
}

#[test]
fn the_best_reward_is_the_largest() {
    let t = trajectory(0, vec![step("a", -2.0, 0), step("b", f64::NAN, 1), step("c", -1.0, 2)]);
    assert_eq!(float(t.best_reward()), -1.0);
    assert_eq!(float(trajectory(0, vec![]).best_reward()), f64::NEG_INFINITY);
}

#[test]
fn steps_come_trajectory_by_trajectory() {
    let e = sample();
    let ids: Vec<usize> = e.all_steps().iter().map(|s| s.step_id).collect();
    assert_eq!(ids, vec![0, 1, 2]);
    assert_eq!(e.total_steps(), 3);
    let d = Dataset {
        experiments: vec![sample(), experiment(vec![]), sample()],
    };
    assert_eq!(d.all_steps().len(), 6);
    assert_eq!(d.total_steps(), 6);
    assert_eq!(d.total_trajectories(), 6);
}

#[test]
fn techniques_are_listed_once_with_their_rewards() {
    let e = sample();
    assert_eq!(e.unique_techniques(), vec!["fusion", "tiling"]);
    let uses = e.technique_uses();
    assert_eq!(uses.len(), 2);
    assert_eq!(uses[1].technique, "tiling");
    let rewards: Vec<f64> = uses[1].rewards.iter().map(|x| float(*x)).collect();
    assert_eq!(rewards, vec![0.5, 0.75]);
    let counted: usize = uses.iter().map(|u| u.rewards.len()).sum();
    assert_eq!(counted, e.total_steps());
}

#[test]
fn rewards_range_from_smallest_to_largest() {
    let d = Dataset {
        experiments: vec![sample()],
    };
    let (low, high) = d.reward_range();
    assert_eq!((float(low), float(high)), (-0.25, 0.75));
    let none = Dataset {
        experiments: vec![experiment(vec![])],
    };
    let (low, high) = none.reward_range();
    assert_eq!((float(low), float(high)), (0.0, 0.0));
}
