use orl::double::Real;
use orl::dpo::DpoConfig;
use orl::eval::metrics_without_examples;
use orl::ilql::IlqlConfig;
use orl::rw_sft::RwSftConfig;
use orl::scheduler::{Rate, SchedulerConfig};
use orl::trainer::{
    choose_algorithm, AdamWConfig, Algorithm, DataSectionConfig, FullConfig, ModelConfig, Phase,
    RunPlan, TrainingConfig, TrainingRun,
};

fn r(x: f64) -> Real {
    Real::from_bits(x.to_bits())
}

fn config(algorithm: &str) -> FullConfig {
    FullConfig {
        model: ModelConfig {
            model_id: "Qwen/Qwen3-0.6B".to_string(),
            dtype: "bf16".to_string(),
            max_prompt_length: 100,
            max_response_length: 200,
        },
        data: DataSectionConfig {
            logs_dir: "logs".to_string(),
            train_split: r(0.8),
            prompt_truncation: "tail".to_string(),
            min_reward: r(-0.5),
        },
        training: TrainingConfig {
            algorithm: algorithm.to_string(),
            num_epochs: 1,
            batch_size: 4,
            gradient_accumulation_steps: 2,
            learning_rate: r(0.001),
            warmup_steps: 1,
            max_steps: 10,
            save_every: 3,
            eval_every: 2,
            output_dir: "out".to_string(),
            seed: 1,
            adamw: AdamWConfig {
                beta1: r(0.9),
                beta2: r(0.999),
                eps: r(1e-8),
                weight_decay: r(0.01),
            },
            scheduler: SchedulerConfig::default(),
        },
        dpo: DpoConfig::default(),
        rw_sft: RwSftConfig::default(),
        ilql: IlqlConfig::default(),
    }
}

/// The pieces of work of a run, when step `s` is evaluated with the loss `losses[s]`.
fn work(plan: &RunPlan, losses: &[f64]) -> Vec<(usize, Phase)> {
    let mut done = Vec::new();
    let mut p = plan.begin();
    while p.phase != Phase::Finished {
        done.push((p.step, p.phase));
        p = if p.phase == Phase::Evaluate {
            plan.judge(p, r(losses[p.step]))
        } else {
            plan.proceed(p)
        };
    }
    done
}

#[test]
fn a_run_does_its_work_in_order() {
    let plan = RunPlan {
        total_steps: 5,
        accumulation: 0,
        eval_every: 2,
        save_every: 4,
        train_len: 2,
    };
    assert_eq!(
        work(&plan, &[0.0, 0.0, 3.0, 0.0, 1.0]),
        vec![
            (0, Phase::Update),
            (1, Phase::Update),
            (2, Phase::Update),
            (2, Phase::Evaluate),
            (2, Phase::SaveBest),
            (3, Phase::Update),
            (4, Phase::Update),
            (4, Phase::Evaluate),
            (4, Phase::SaveBest),
            (4, Phase::SavePeriodic),
            (5, Phase::SaveFinal),
        ]
    );
}

#[test]
fn only_a_better_loss_is_saved() {
    let plan = RunPlan {
        total_steps: 5,
        accumulation: 2,
        eval_every: 1,
        save_every: 100,
        train_len: 0,
    };
    let saved: Vec<usize> = work(&plan, &[0.0, 2.0, 2.0, f64::NAN, 1.0])
        .iter()
        .filter(|w| w.1 == Phase::SaveBest)
        .map(|w| w.0)
        .collect();
    assert_eq!(saved, vec![1, 4]);
}

#[test]
fn every_step_is_updated_once() {
    let plan = RunPlan {
        total_steps: 20,
        accumulation: 4,
        eval_every: 3,
        save_every: 4,
        train_len: 7,
    };
    let losses: Vec<f64> = (0..20).map(|s| 100.0 - s as f64).collect();
    let done = work(&plan, &losses);
    let updated: Vec<usize> = done
        .iter()
        .filter(|w| w.1 == Phase::Update)
        .map(|w| w.0)
        .collect();
    assert_eq!(updated, (0..20).collect::<Vec<usize>>());
    let periodic: Vec<usize> = done
        .iter()
        .filter(|w| w.1 == Phase::SavePeriodic)
        .map(|w| w.0)
        .collect();
    assert_eq!(periodic, vec![4, 8, 12, 16]);
    assert_eq!(done.last(), Some(&(20, Phase::SaveFinal)));
}

#[test]
fn the_rate_of_an_update_is_that_of_its_step() {
    let c = config("dpo");
    let plan = RunPlan {
        total_steps: 6,
        accumulation: 2,
        eval_every: 2,
        save_every: 3,
        train_len: 1,
    };
    let mut run = TrainingRun::start(plan, c.lr_scheduler());
    let mut rates = Vec::new();
    while run.progress.phase != Phase::Finished {
        match run.progress.phase {
            Phase::Evaluate => run.judge(r(1.0)),
            Phase::Update => {
                rates.push(run.rate());
                run.proceed();
            }
            _ => run.proceed(),
        }
    }
    let mut scheduler = c.lr_scheduler();
    let expected: Vec<Rate> = (0..6).map(|_| scheduler.step()).collect();
    assert_eq!(rates, expected);
    assert_eq!(run.scheduler.current_step(), 6);
    assert_eq!(f64::from_bits(run.progress.best_eval_loss.bits), 1.0);
}

#[test]
fn short_runs_need_no_intervals() {
    for total_steps in [0usize, 1] {
        let plan = RunPlan {
            total_steps,
            accumulation: 1,
            eval_every: 0,
            save_every: 0,
            train_len: 1,
        };
        assert!(plan.is_valid());
        assert_eq!(work(&plan, &[]).last(), Some(&(total_steps, Phase::SaveFinal)));
    }
    let plan = RunPlan {
        total_steps: 2,
        accumulation: 1,
        eval_every: 0,
        save_every: 1,
        train_len: 1,
    };
    assert!(!plan.is_valid());
    assert!(!RunPlan { eval_every: 1, save_every: 0, ..plan }.is_valid());
}

#[test]
fn an_update_gathers_all_small_batches() {
    let plan = RunPlan {
        total_steps: 3,
        accumulation: 3,
        eval_every: 2,
        save_every: 5,
        train_len: 2,
    };
    let mut gathered = Vec::new();
    let mut p = plan.begin();
    while p.phase != Phase::Finished {
        if p.phase == Phase::Accumulate || p.phase == Phase::Update {
            gathered.push((p.step, p.phase, p.gathered));
        }
        p = if p.phase == Phase::Evaluate {
            plan.judge(p, r(1.0))
        } else {
            plan.proceed(p)
        };
    }
    let mut expected = Vec::new();
    for step in 0..3 {
        for k in 0..3 {
            expected.push((step, Phase::Accumulate, k));
        }
        expected.push((step, Phase::Update, 3));
    }
    assert_eq!(gathered, expected);
}

#[test]
fn a_checkpoint_records_the_epoch() {
    let plan = RunPlan {
        total_steps: 9,
        accumulation: 1,
        eval_every: 1,
        save_every: 1,
        train_len: 4,
    };
    let mut p = plan.begin();
    assert_eq!(f64::from_bits(p.best_eval_loss.bits), f64::INFINITY);
    p.step = 9;
    let state = plan.train_state(p, "dpo");
    assert_eq!(state.global_step, 9);
    assert_eq!(state.epoch, 2);
    assert_eq!(state.algorithm, "dpo");
    let empty = RunPlan { train_len: 0, ..plan };
    assert_eq!(empty.train_state(p, "dpo").epoch, 9);
}

#[test]
fn the_algorithm_is_chosen_by_name() {
    match choose_algorithm(config("dpo")) {
        Ok(Algorithm::Dpo(c)) => assert_eq!(c.batch_size, 4),
        _ => panic!("expected dpo"),
    }
    match choose_algorithm(config("rw_sft")) {
        Ok(Algorithm::RwSft(c)) => assert_eq!(c.batch_size, 4),
        _ => panic!("expected rw_sft"),
    }
    let ilql = choose_algorithm(config("ilql")).unwrap();
    assert_eq!(ilql.name(), "ilql");
    assert!(ilql.has_value_heads());
    match ilql {
        Algorithm::Ilql(c) => assert_eq!(c.batch_size, 4),
        _ => panic!("expected ilql"),
    }
    assert!(!choose_algorithm(config("dpo")).unwrap().has_value_heads());
}

#[test]
fn an_unknown_algorithm_is_refused() {
    let e = choose_algorithm(config("ppo")).err().unwrap();
    assert_eq!(e, "unknown algorithm: ppo");
}

#[test]
fn overrides_replace_what_they_name() {
    let c = config("dpo").with_overrides(Some("ilql".to_string()), None, Some(3));
    assert_eq!(c.training.algorithm, "ilql");
    assert_eq!(c.training.max_steps, 3);
    assert_eq!(f64::from_bits(c.training.learning_rate.bits), 0.001);
    let c = config("dpo").with_overrides(None, Some(r(0.5)), None);
    assert_eq!(c.training.algorithm, "dpo");
    assert_eq!(f64::from_bits(c.training.learning_rate.bits), 0.5);
    assert_eq!(c.training.max_steps, 10);
}

#[test]
fn settings_reach_the_buffer_and_the_schedule() {
    let c = config("dpo");
    let data = c.data_config();
    assert_eq!(data.max_prompt_length, 100);
    assert_eq!(data.max_response_length, 200);
    assert_eq!(f64::from_bits(data.min_reward.bits), -0.5);
    assert_eq!(f64::from_bits(data.train_split.bits), 0.8);
    let plan = c.run_plan(7);
    assert_eq!((plan.total_steps, plan.accumulation), (10, 2));
    assert_eq!((plan.eval_every, plan.save_every, plan.train_len), (2, 3, 7));
    let mut scheduler = c.lr_scheduler();
    assert_eq!(scheduler.step(), Rate::Warmup { done: 0, of: 1 });
    assert_eq!(scheduler.step(), Rate::Cosine { done: 0, of: 9 });
}

#[test]
fn an_evaluation_without_examples_has_an_outcome() {
    let m = metrics_without_examples();
    assert_eq!(f64::from_bits(m.eval_loss.bits), 0.0);
    assert_eq!(f64::from_bits(m.perplexity.bits), 1.0);
    assert_eq!(m.num_examples, 0);
}
