use orl::double::Real;
use orl::scheduler::{LrScheduler, Rate, SchedulerConfig};

fn r(x: f64) -> Real {
    Real::from_bits(x.to_bits())
}

fn config(scheduler_type: &str, min_lr: f64) -> SchedulerConfig {
    SchedulerConfig {
        scheduler_type: scheduler_type.to_string(),
        min_lr: r(min_lr),
    }
}

fn lr(sched: &LrScheduler, rate: Rate) -> f64 {
    let min = f64::from_bits(sched.config.min_lr.bits);
    let base = f64::from_bits(sched.base_lr.bits);
    let share = match rate {
        Rate::Warmup { done, of } => done as f64 / of as f64,
        Rate::Cosine { done, of } => {
            (1.0 + (std::f64::consts::PI * done as f64 / of as f64).cos()) / 2.0
        }
        Rate::Linear { done, of } => 1.0 - done as f64 / of as f64,
        Rate::Constant => return base,
    };
    min + (base - min) * share
}

#[test]
fn test_warmup() {
    let mut sched = LrScheduler::new(config("cosine", 0.0), r(1.0), 10, 100);

    let rate0 = sched.step();
    let lr0 = lr(&sched, rate0);
    assert!(lr0 < 0.2, "first step lr should be small: {}", lr0);

    for _ in 1..10 {
        sched.step();
    }
    let lr10 = lr(&sched, sched.get_lr());
    assert!((lr10 - 1.0).abs() < 0.01, "after warmup lr should be ~1.0: {}", lr10);
}

#[test]
fn test_cosine_decay() {
    let mut sched = LrScheduler::new(config("cosine", 0.0), r(1.0), 0, 100);

    let rate = sched.step();
    let lr_start = lr(&sched, rate);
    assert!((lr_start - 1.0).abs() < 0.05);

    for _ in 1..50 {
        sched.step();
    }
    let lr_mid = lr(&sched, sched.get_lr());
    assert!((lr_mid - 0.5).abs() < 0.1, "mid lr should be ~0.5: {}", lr_mid);
}

#[test]
fn rates_are_fractions_of_steps() {
    let mut sched = LrScheduler::new(config("linear", 0.1), r(1.1), 2, 6);
    let rates: Vec<Rate> = (0..7).map(|_| sched.step()).collect();
    assert_eq!(rates[0], Rate::Warmup { done: 0, of: 2 });
    assert_eq!(rates[1], Rate::Warmup { done: 1, of: 2 });
    assert_eq!(rates[2], Rate::Linear { done: 0, of: 4 });
    assert_eq!(rates[6], Rate::Linear { done: 4, of: 4 });
    assert_eq!(sched.current_step(), 7);
    assert_eq!(lr(&sched, rates[0]), 0.1);
    assert_eq!(lr(&sched, rates[2]), 1.1);
}

#[test]
fn other_schedules_are_constant() {
    let mut sched = LrScheduler::new(config("none", 0.0), r(0.5), 1, 10);
    assert_eq!(sched.step(), Rate::Warmup { done: 0, of: 1 });
    assert_eq!(sched.step(), Rate::Constant);
    assert_eq!(lr(&sched, Rate::Constant), 0.5);
}

#[test]
fn a_warmup_longer_than_the_run_decays_over_one_step() {
    let mut sched = LrScheduler::new(config("cosine", 0.0), r(1.0), 3, 2);
    for _ in 0..3 {
        sched.step();
    }
    assert_eq!(sched.get_lr(), Rate::Cosine { done: 0, of: 1 });
}

#[test]
fn the_default_decays_along_a_cosine() {
    let c = SchedulerConfig::default();
    assert_eq!(c.scheduler_type, "cosine");
    assert_eq!(f64::from_bits(c.min_lr.bits), 1e-6);
}
