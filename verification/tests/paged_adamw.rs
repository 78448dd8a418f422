use orl::double::Real;
use orl::paged_adamw::{PagedAdamW, ParamsPagedAdamW};

fn float(x: Real) -> f64 {
    f64::from_bits(x.bits)
}

#[test]
fn test_set_learning_rate() {
    let params = ParamsPagedAdamW::default();
    let mut optimizer = PagedAdamW::new(params);
    assert!((float(optimizer.learning_rate()) - 0.001).abs() < 1e-10);
    optimizer.set_learning_rate(Real::from_bits(0.01f64.to_bits()));
    assert!((float(optimizer.learning_rate()) - 0.01).abs() < 1e-10);
}

#[test]
fn defaults_are_the_usual_ones() {
    let p = ParamsPagedAdamW::default();
    assert_eq!(float(p.lr), 0.001);
    assert_eq!(float(p.beta1), 0.9);
    assert_eq!(float(p.beta2), 0.999);
    assert_eq!(float(p.eps), 1e-8);
    assert_eq!(float(p.weight_decay), 0.01);
}

#[test]
fn steps_are_counted_from_one() {
    let mut optimizer = PagedAdamW::new(ParamsPagedAdamW::default());
    assert_eq!(optimizer.begin_step(), 1);
    assert_eq!(optimizer.begin_step(), 2);
    optimizer.set_learning_rate(Real::zero());
    assert_eq!(optimizer.begin_step(), 3);
    assert_eq!(float(optimizer.params().beta1), 0.9);
}
