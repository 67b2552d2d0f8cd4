use reactive_core::engine::{Engine, EngineError};
use reactive_core::expr::{Expr, SourceId};

fn read_src(s: SourceId) -> Expr {
    Expr::Read(s)
}

#[test]
fn end_to_end_count() {
    // Create a cell holding 0, an effect recording it, write 1, flush:
    // the recorded sequence is exactly [0, 1].
    let mut eng = Engine::new();
    let count = eng.create_cell(0);
    let eff = eng.create_effect(read_src(SourceId::Cell(count))).unwrap();
    assert_eq!(eng.log_len(eff), Ok(1));
    assert_eq!(eng.log_get(eff, 0), Ok(0));
    eng.write_cell(count, 1).unwrap();
    eng.flush();
    assert_eq!(eng.log_len(eff), Ok(2));
    assert_eq!(eng.log_get(eff, 0), Ok(0));
    assert_eq!(eng.log_get(eff, 1), Ok(1));
}

#[test]
fn tracking_follows_the_taken_branch() {
    // An effect with branching reads is subscribed to exactly the cells the
    // taken branch read; switching the branch re-subscribes it.
    let mut eng = Engine::new();
    let cond = eng.create_cell(1);
    let left = eng.create_cell(10);
    let right = eng.create_cell(20);
    let body = Expr::If(
        Box::new(read_src(SourceId::Cell(cond))),
        Box::new(read_src(SourceId::Cell(left))),
        Box::new(read_src(SourceId::Cell(right))),
    );
    let eff = eng.create_effect(body).unwrap();
    assert_eq!(eng.depends_on(eff, SourceId::Cell(cond)), Ok(true));
    assert_eq!(eng.depends_on(eff, SourceId::Cell(left)), Ok(true));
    assert_eq!(eng.depends_on(eff, SourceId::Cell(right)), Ok(false));
    eng.write_cell(cond, 0).unwrap();
    eng.flush();
    assert_eq!(eng.depends_on(eff, SourceId::Cell(cond)), Ok(true));
    assert_eq!(eng.depends_on(eff, SourceId::Cell(left)), Ok(false));
    assert_eq!(eng.depends_on(eff, SourceId::Cell(right)), Ok(true));
    // The stale edge is gone: writing the abandoned branch does nothing.
    eng.write_cell(left, 11).unwrap();
    eng.flush();
    assert_eq!(eng.log_len(eff), Ok(2));
}

#[test]
fn diamond_runs_downstream_once_with_fresh_values() {
    // x feeds derived a and b; effect d reads both. One write to x re-runs
    // d exactly once, observing the post-update values of both.
    let mut eng = Engine::new();
    let x = eng.create_cell(2);
    let a = eng
        .create_derived(Expr::Plus(
            Box::new(read_src(SourceId::Cell(x))),
            Box::new(Expr::Const(1)),
        ))
        .unwrap();
    let b = eng
        .create_derived(Expr::Plus(
            Box::new(read_src(SourceId::Cell(x))),
            Box::new(Expr::Const(2)),
        ))
        .unwrap();
    let d = eng
        .create_effect(Expr::Plus(
            Box::new(read_src(SourceId::Comp(a))),
            Box::new(read_src(SourceId::Comp(b))),
        ))
        .unwrap();
    assert_eq!(eng.log_len(d), Ok(1));
    assert_eq!(eng.log_get(d, 0), Ok(7)); // (2+1) + (2+2)
    eng.write_cell(x, 10).unwrap();
    eng.flush();
    assert_eq!(eng.log_len(d), Ok(2));
    assert_eq!(eng.log_get(d, 1), Ok(23)); // (10+1) + (10+2), never a mix
    assert_eq!(eng.read_derived(a), Ok(11));
    assert_eq!(eng.read_derived(b), Ok(12));
}

#[test]
fn two_writes_one_batch_one_rerun() {
    let mut eng = Engine::new();
    let x = eng.create_cell(0);
    let eff = eng.create_effect(read_src(SourceId::Cell(x))).unwrap();
    eng.write_cell(x, 5).unwrap();
    eng.write_cell(x, 5).unwrap();
    eng.flush();
    assert_eq!(eng.log_len(eff), Ok(2));
    assert_eq!(eng.log_get(eff, 1), Ok(5));
    assert_eq!(eng.version_of(x), Ok(2));
}

#[test]
fn disposing_a_queued_effect_prevents_its_run() {
    let mut eng = Engine::new();
    let x = eng.create_cell(0);
    let eff = eng.create_effect(read_src(SourceId::Cell(x))).unwrap();
    eng.write_cell(x, 1).unwrap();
    eng.dispose(eff).unwrap();
    eng.flush();
    assert_eq!(eng.log_len(eff), Ok(1));
    assert_eq!(eng.log_get(eff, 0), Ok(0));
}

#[test]
fn failure_is_isolated_to_one_computation() {
    let mut eng = Engine::new();
    let x = eng.create_cell(0);
    let fragile = eng
        .create_effect(Expr::Plus(
            Box::new(read_src(SourceId::Cell(x))),
            Box::new(Expr::Const(i64::MAX)),
        ))
        .unwrap();
    let sturdy = eng.create_effect(read_src(SourceId::Cell(x))).unwrap();
    assert_eq!(eng.log_len(fragile), Ok(1));
    eng.write_cell(x, 1).unwrap();
    eng.flush();
    // The fragile effect overflowed and recorded nothing new; the
    // independent effect still ran.
    assert_eq!(eng.log_len(fragile), Ok(1));
    assert_eq!(eng.log_len(sturdy), Ok(2));
    assert_eq!(eng.log_get(sturdy, 1), Ok(1));
}

#[test]
fn failed_derived_keeps_last_good_value_hidden() {
    let mut eng = Engine::new();
    let x = eng.create_cell(1);
    let d = eng
        .create_derived(Expr::Plus(
            Box::new(read_src(SourceId::Cell(x))),
            Box::new(Expr::Const(i64::MAX - 1)),
        ))
        .unwrap();
    assert_eq!(eng.read_derived(d), Ok(i64::MAX));
    eng.write_cell(x, 2).unwrap();
    eng.flush();
    assert_eq!(eng.read_derived(d), Err(EngineError::ComputationFailure));
    // Recovery: a later good value re-runs it.
    eng.write_cell(x, 0).unwrap();
    eng.flush();
    assert_eq!(eng.read_derived(d), Ok(i64::MAX - 1));
}

#[test]
fn out_of_scope_operations_are_refused() {
    let mut eng = Engine::new();
    let x = eng.create_cell(0);
    assert_eq!(eng.read_cell(7), Err(EngineError::TrackingViolation));
    assert_eq!(eng.write_cell(7, 1), Err(EngineError::TrackingViolation));
    assert_eq!(eng.read_derived(0), Err(EngineError::TrackingViolation));
    assert_eq!(eng.version_of(9), Err(EngineError::TrackingViolation));
    // A body naming an unknown source is rejected at creation.
    let bad = eng.create_effect(read_src(SourceId::Cell(3)));
    assert_eq!(bad, Err(EngineError::TrackingViolation));
    // A body reading an effect (not a derived computation) is rejected.
    let eff = eng.create_effect(read_src(SourceId::Cell(x))).unwrap();
    let bad2 = eng.create_effect(read_src(SourceId::Comp(eff)));
    assert_eq!(bad2, Err(EngineError::TrackingViolation));
}

#[test]
fn derived_is_memoized_between_batches() {
    let mut eng = Engine::new();
    let x = eng.create_cell(3);
    let d = eng
        .create_derived(Expr::Plus(
            Box::new(read_src(SourceId::Cell(x))),
            Box::new(Expr::Const(4)),
        ))
        .unwrap();
    assert_eq!(eng.read_derived(d), Ok(7));
    assert_eq!(eng.read_derived(d), Ok(7));
    eng.write_cell(x, 5).unwrap();
    eng.flush();
    assert_eq!(eng.read_derived(d), Ok(9));
}

#[test]
fn update_applies_in_one_step() {
    let mut eng = Engine::new();
    let x = eng.create_cell(10);
    let eff = eng.create_effect(read_src(SourceId::Cell(x))).unwrap();
    eng.update_cell(x, |v| v + 5).unwrap();
    eng.flush();
    assert_eq!(eng.read_cell(x), Ok(15));
    assert_eq!(eng.version_of(x), Ok(1));
    assert_eq!(eng.log_len(eff), Ok(2));
    assert_eq!(eng.log_get(eff, 1), Ok(15));
    assert_eq!(
        eng.update_cell(42, |v| v),
        Err(EngineError::TrackingViolation)
    );
}

#[test]
fn failure_is_reported_per_computation() {
    let mut eng = Engine::new();
    let x = eng.create_cell(0);
    let fragile = eng
        .create_effect(Expr::Plus(
            Box::new(read_src(SourceId::Cell(x))),
            Box::new(Expr::Const(i64::MAX)),
        ))
        .unwrap();
    let sturdy = eng.create_effect(read_src(SourceId::Cell(x))).unwrap();
    assert_eq!(eng.failed_of(fragile), Ok(false));
    eng.write_cell(x, 1).unwrap();
    eng.flush();
    assert_eq!(eng.failed_of(fragile), Ok(true));
    assert_eq!(eng.failed_of(sturdy), Ok(false));
    assert_eq!(eng.failed_of(99), Err(EngineError::TrackingViolation));
}
