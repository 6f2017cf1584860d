use reactive_core::boundary::{finish_effect, Boundaries, Fault};
use reactive_core::error::ReactiveError;
use reactive_core::runtime::{Runtime, Scope, Step};

#[test]
fn error_inside_boundary_is_captured() {
    let mut bs = Boundaries::new();
    let b = bs.create_boundary();
    bs.attach(Scope::Effect(0), b);
    assert!(!bs.failed(b));
    assert_eq!(bs.report(Scope::Effect(0), Fault::Body(42)), None);
    assert!(bs.failed(b));
    assert_eq!(bs.errors[b], vec![(Scope::Effect(0), Fault::Body(42))]);
}

#[test]
fn error_outside_boundary_goes_to_caller() {
    let mut bs = Boundaries::new();
    let b = bs.create_boundary();
    bs.attach(Scope::Effect(0), b);
    assert_eq!(bs.report(Scope::Memo(0), Fault::Body(7)), Some(Fault::Body(7)));
    assert_eq!(bs.report(Scope::Effect(1), Fault::Body(8)), Some(Fault::Body(8)));
    assert!(!bs.failed(b));
}

#[test]
fn clean_run_withdraws_only_its_own_errors() {
    let mut bs = Boundaries::new();
    let b = bs.create_boundary();
    bs.attach(Scope::Effect(0), b);
    bs.attach(Scope::Memo(3), b);
    bs.report(Scope::Effect(0), Fault::Body(1));
    bs.report(Scope::Memo(3), Fault::Body(2));
    bs.clear(Scope::Effect(0));
    assert_eq!(bs.errors[b], vec![(Scope::Memo(3), Fault::Body(2))]);
    assert!(bs.failed(b));
    bs.clear(Scope::Memo(3));
    assert!(!bs.failed(b));
}

#[test]
fn later_attachment_overrides_earlier() {
    let mut bs = Boundaries::new();
    let outer = bs.create_boundary();
    let inner = bs.create_boundary();
    bs.attach(Scope::Effect(2), outer);
    bs.attach(Scope::Effect(2), inner);
    assert_eq!(bs.find(Scope::Effect(2)), Some(inner));
    bs.report(Scope::Effect(2), Fault::Body(5));
    assert!(bs.failed(inner));
    assert!(!bs.failed(outer));
}

fn spin_until_suspended(rt: &mut Runtime, bs: &mut Boundaries, e: usize, c: usize) -> Option<Fault> {
    let mut last = None;
    while rt.dirty_effects().contains(&e) {
        assert!(rt.begin_effect(e));
        let v = rt.track(c).unwrap();
        rt.write(c, v + 1).unwrap();
        last = finish_effect(rt, bs, e);
    }
    last
}

#[test]
fn reactive_cycle_goes_to_boundary() {
    let mut rt = Runtime::new();
    let mut bs = Boundaries::new();
    let c = rt.create_cell(0);
    let e = rt.create_effect();
    let b = bs.create_boundary();
    bs.attach(Scope::Effect(e), b);
    assert_eq!(spin_until_suspended(&mut rt, &mut bs, e, c), None);
    assert!(rt.effects[e].stopped);
    assert_eq!(bs.errors[b], vec![(Scope::Effect(e), Fault::Reactive(ReactiveError::ReactiveCycle))]);
}

#[test]
fn reactive_cycle_without_boundary_goes_to_caller() {
    let mut rt = Runtime::new();
    let mut bs = Boundaries::new();
    let c = rt.create_cell(0);
    let e = rt.create_effect();
    assert_eq!(
        spin_until_suspended(&mut rt, &mut bs, e, c),
        Some(Fault::Reactive(ReactiveError::ReactiveCycle))
    );
}

#[test]
fn effect_is_not_reentered() {
    let mut rt = Runtime::new();
    let e = rt.create_effect();
    assert!(rt.begin_effect(e));
    assert!(!rt.begin_effect(e));
    assert_eq!(rt.frames.len(), 1);
    rt.end_effect(e).unwrap();
}

#[test]
fn write_reaches_effect_through_memo_before_it_runs() {
    // Diamond: two memos on one cell, one effect reading both.
    let mut rt = Runtime::new();
    let c = rt.create_cell(1);
    let m1 = rt.create_memo();
    let m2 = rt.create_memo();
    let e = rt.create_effect();
    let n1 = rt.memos[m1].node;
    let n2 = rt.memos[m2].node;
    let mut runs = 0;
    let mut seen = (0, 0);
    let mut settle = |rt: &mut Runtime, runs: &mut i32, seen: &mut (i64, i64)| loop {
        match rt.next_step() {
            Step::EvaluateMemo(m) => {
                rt.begin_memo(m).unwrap();
                let v = rt.track(c).unwrap();
                let value = if m == m1 { v + 1 } else { v * 2 };
                rt.end_memo(m, value).unwrap();
            }
            Step::RunEffect(x) => {
                assert!(rt.begin_effect(x));
                *seen = (rt.track(n1).unwrap(), rt.track(n2).unwrap());
                rt.end_effect(x).unwrap();
                *runs += 1;
            }
            Step::Settled => break,
        }
    };
    settle(&mut rt, &mut runs, &mut seen);
    assert_eq!((runs, seen), (1, (2, 2)));
    rt.write(c, 5).unwrap();
    let mut stale = rt.stale_memos();
    stale.sort();
    assert_eq!(stale, vec![m1, m2]);
    assert_eq!(rt.next_step(), Step::EvaluateMemo(m1));
    settle(&mut rt, &mut runs, &mut seen);
    assert_eq!((runs, seen), (2, (6, 10)));
    assert!(rt.stale_memos().is_empty());
    assert_eq!(rt.next_step(), Step::Settled);
    let _ = e;
}
