use ml_lib_rust::budget::{BudgetMeter, StopReason, TrainBudget};

#[test]
fn budget_builders_set_limits() {
    let b = TrainBudget::steps(50).with_max_millis(30_000).with_max_bytes(1024);
    assert_eq!(b.max_steps, Some(50));
    assert_eq!(b.max_millis, Some(30_000));
    assert_eq!(b.max_bytes, Some(1024));
    let u = TrainBudget::unlimited();
    assert_eq!(u.max_steps, None);
    assert_eq!(u.max_millis, None);
    assert_eq!(u.max_bytes, None);
    let m = TrainBudget::millis(7).with_max_steps(3);
    assert_eq!(m.max_steps, Some(3));
    assert_eq!(m.max_millis, Some(7));
}

#[test]
fn step_budget_exhausts_after_n_ticks() {
    let mut m = BudgetMeter::start(TrainBudget::steps(2));
    assert!(!m.exhausted(0));
    assert_eq!(m.stop_reason(0), None);
    m.tick_step();
    assert!(!m.exhausted(0));
    m.tick_step();
    assert_eq!(m.steps_done, 2);
    assert!(m.exhausted(0));
    assert_eq!(m.stop_reason(0), Some(StopReason::MaxSteps));
}

#[test]
fn byte_budget_is_strictly_greater() {
    let m = BudgetMeter::start(TrainBudget::unlimited().with_max_bytes(100));
    assert!(!m.exhausted(100));
    assert!(m.exhausted(101));
    assert_eq!(m.stop_reason(101), Some(StopReason::MaxBytes));
}

#[test]
fn stop_reason_priority_at_clock_reading() {
    let b = TrainBudget::steps(1).with_max_millis(10).with_max_bytes(5);
    let mut m = BudgetMeter::start(b);
    assert_eq!(m.stop_reason_at(6, 10), Some(StopReason::MaxMillis));
    assert_eq!(m.stop_reason_at(6, 9), Some(StopReason::MaxBytes));
    assert_eq!(m.stop_reason_at(5, 9), None);
    assert!(!m.exhausted_at(5, 9));
    assert!(m.exhausted_at(5, 10));
    m.tick_step();
    assert_eq!(m.stop_reason_at(6, 10), Some(StopReason::MaxSteps));
}

#[test]
fn exhausted_agrees_with_stop_reason() {
    let b = TrainBudget::steps(3).with_max_millis(20).with_max_bytes(8);
    let mut m = BudgetMeter::start(b);
    for step in 0..5u64 {
        for ms in [0u64, 19, 20, 25] {
            for bytes in [0u64, 8, 9] {
                assert_eq!(m.exhausted_at(bytes, ms), m.stop_reason_at(bytes, ms).is_some());
                assert_ne!(m.stop_reason_at(bytes, ms), Some(StopReason::Completed));
            }
        }
        assert_eq!(m.steps_done, step);
        m.tick_step();
    }
}

#[test]
fn unlimited_budget_never_stops() {
    let m = BudgetMeter::start(TrainBudget::unlimited());
    assert!(!m.exhausted_at(u64::MAX, u64::MAX));
    assert!(!m.exhausted(u64::MAX));
    assert_eq!(m.budget().max_steps, None);
    assert_eq!(StopReason::default(), StopReason::Completed);
    let _ = m.elapsed();
    let _ = m.elapsed_millis();
}
