use reactive_core::error::ReactiveError;
use reactive_core::keyed::KeyedList;
use reactive_core::resource::{Action, Resource, ResourceState};
use reactive_core::runtime::{Runtime, Scope, MAX_RETRIGGERS};
use reactive_core::watch::Watch;

const A: u64 = 1;
const B: u64 = 2;
const C: u64 = 3;
const D: u64 = 4;

/// Runs effect `e` once, reading the given nodes.
fn run_effect(rt: &mut Runtime, e: usize, reads: &[usize]) -> Result<(), ReactiveError> {
    assert!(rt.begin_effect(e));
    for &n in reads {
        rt.track(n).unwrap();
    }
    rt.end_effect(e)
}

#[test]
fn write_to_unrelated_cell_does_not_dirty_effect() {
    let mut rt = Runtime::new();
    let a = rt.create_cell(1);
    let b = rt.create_cell(2);
    let e = rt.create_effect();
    assert_eq!(rt.dirty_effects(), vec![e]);
    run_effect(&mut rt, e, &[a]).unwrap();
    assert!(rt.dirty_effects().is_empty());
    for v in 0..5 {
        rt.write(b, v).unwrap();
        assert!(rt.dirty_effects().is_empty());
    }
    assert!(rt.subscribers(b).is_empty());
    rt.write(a, 10).unwrap();
    assert_eq!(rt.dirty_effects(), vec![e]);
    assert_eq!(rt.subscribers(a), vec![e]);
}

#[test]
fn equal_memo_value_does_not_dirty_subscribers() {
    let mut rt = Runtime::new();
    let x = rt.create_cell(2);
    let m = rt.create_memo();
    let node = rt.memos[m].node;
    assert!(rt.memo_is_stale(m));
    // parity of x
    rt.begin_memo(m).unwrap();
    let v = rt.track(x).unwrap();
    assert_eq!(rt.end_memo(m, v % 2), Ok(true));
    assert!(!rt.memo_is_stale(m));
    let e = rt.create_effect();
    run_effect(&mut rt, e, &[node]).unwrap();
    assert!(rt.dirty_effects().is_empty());

    rt.write(x, 4).unwrap();
    assert!(rt.memo_is_stale(m));
    assert!(rt.dirty_effects().is_empty());
    rt.begin_memo(m).unwrap();
    let v = rt.track(x).unwrap();
    assert_eq!(rt.end_memo(m, v % 2), Ok(false));
    assert!(!rt.memo_is_stale(m));
    assert!(rt.dirty_effects().is_empty());
    assert_eq!(rt.read(node), Ok(0));

    rt.write(x, 5).unwrap();
    rt.begin_memo(m).unwrap();
    let v = rt.track(x).unwrap();
    assert_eq!(rt.end_memo(m, v % 2), Ok(true));
    assert_eq!(rt.dirty_effects(), vec![e]);
    assert_eq!(rt.read(node), Ok(1));
}

#[test]
fn keyed_reconcile_reuses_common_keys() {
    let mut list = KeyedList::new();
    let first = list.reconcile(&vec![A, B, C]).unwrap();
    assert!(first.disposed.is_empty());
    assert_eq!(first.created, vec![A, B, C]);
    let (_, ia) = list.entry(0);
    let (_, ib) = list.entry(1);
    let (_, ic) = list.entry(2);

    let patch = list.reconcile(&vec![B, C, D]).unwrap();
    assert_eq!(patch.disposed, vec![ia]);
    assert_eq!(patch.created, vec![D]);
    assert_eq!(list.len(), 3);
    assert_eq!(list.entry(0), (B, ib));
    assert_eq!(list.entry(1), (C, ic));
    let (kd, id) = list.entry(2);
    assert_eq!(kd, D);
    assert!(id != ia && id != ib && id != ic);
}

#[test]
fn keyed_reconcile_keeps_identity_across_moves() {
    let mut list = KeyedList::new();
    list.reconcile(&vec![A, B, C]).unwrap();
    let ids: Vec<u64> = (0..3).map(|i| list.entry(i).1).collect();
    let patch = list.reconcile(&vec![C, A, B]).unwrap();
    assert!(patch.disposed.is_empty());
    assert!(patch.created.is_empty());
    assert_eq!(list.entry(0), (C, ids[2]));
    assert_eq!(list.entry(1), (A, ids[0]));
    assert_eq!(list.entry(2), (B, ids[1]));
}

#[test]
fn keyed_reconcile_to_empty_disposes_all() {
    let mut list = KeyedList::new();
    list.reconcile(&vec![A, B]).unwrap();
    let ia = list.entry(0).1;
    let ib = list.entry(1).1;
    let patch = list.reconcile(&vec![]).unwrap();
    assert_eq!(patch.disposed, vec![ia, ib]);
    assert!(patch.created.is_empty());
    assert_eq!(list.len(), 0);
}

#[test]
fn duplicate_keys_are_refused_and_state_kept() {
    let mut list = KeyedList::new();
    list.reconcile(&vec![B, C]).unwrap();
    let before: Vec<(u64, u64)> = (0..2).map(|i| list.entry(i)).collect();
    let next = list.next_id;
    assert_eq!(list.reconcile(&vec![A, A]).unwrap_err(), ReactiveError::DuplicateKey);
    let after: Vec<(u64, u64)> = (0..2).map(|i| list.entry(i)).collect();
    assert_eq!(before, after);
    assert_eq!(list.len(), 2);
    assert_eq!(list.next_id, next);
}

#[test]
fn resource_keeps_latest_generation() {
    let mut r = Resource::new();
    assert_eq!(r.get(), ResourceState::Idle);
    let g1 = r.start();
    let g2 = r.start();
    assert!(r.is_pending());
    assert!(r.complete(g2, Ok(20)));
    assert!(!r.complete(g1, Ok(10)));
    assert_eq!(r.get(), ResourceState::Ready(20, g2));
    assert_eq!(r.value(), Some(20));
}

#[test]
fn resource_discards_early_stale_completion() {
    let mut r = Resource::new();
    let g1 = r.start();
    let g2 = r.start();
    assert!(!r.complete(g1, Ok(10)));
    assert_eq!(r.get(), ResourceState::Pending(g2));
    assert!(r.complete(g2, Err(7)));
    assert_eq!(r.get(), ResourceState::Failed(7, g2));
    assert_eq!(r.value(), None);
}

#[test]
fn action_tracks_most_recent_dispatch() {
    let mut a = Action::new();
    assert!(!a.pending());
    let g1 = a.dispatch(1);
    let g2 = a.dispatch(2);
    assert_eq!(a.input(), Some(2));
    assert!(a.pending());
    assert!(!a.resolve(g1, Ok(100)));
    assert!(a.pending());
    assert_eq!(a.value(), None);
    assert!(a.resolve(g2, Ok(200)));
    assert!(!a.pending());
    assert_eq!(a.value(), Some(Ok(200)));
    assert_eq!(a.history.len(), 2);
}

#[test]
fn action_ignores_resolution_after_newer_one() {
    let mut a = Action::new();
    let g1 = a.dispatch(1);
    let g2 = a.dispatch(2);
    assert!(a.resolve(g2, Err(5)));
    assert!(!a.resolve(g1, Ok(100)));
    assert!(!a.pending());
    assert_eq!(a.value(), Some(Err(5)));
}

#[test]
fn self_triggering_effect_is_suspended() {
    let mut rt = Runtime::new();
    let c = rt.create_cell(0);
    let e = rt.create_effect();
    let mut outcome = Ok(());
    let mut runs = 0u64;
    while rt.dirty_effects().contains(&e) {
        assert!(rt.begin_effect(e));
        let v = rt.track(c).unwrap();
        rt.write(c, v + 1).unwrap();
        outcome = rt.end_effect(e);
        runs += 1;
        assert!(runs <= MAX_RETRIGGERS + 1);
    }
    assert_eq!(outcome, Err(ReactiveError::ReactiveCycle));
    assert_eq!(runs, MAX_RETRIGGERS + 1);
    assert!(rt.effects[e].stopped);
    assert!(!rt.begin_effect(e));
    rt.write(c, 0).unwrap();
    assert!(rt.dirty_effects().is_empty());
}

#[test]
fn read_after_dispose_fails_every_time() {
    let mut rt = Runtime::new();
    let c = rt.create_cell(3);
    let other = rt.create_cell(4);
    assert_eq!(rt.read(c), Ok(3));
    rt.dispose(c).unwrap();
    for _ in 0..3 {
        assert_eq!(rt.read(c), Err(ReactiveError::UseAfterDispose));
        rt.write(other, 1).unwrap();
    }
    assert_eq!(rt.write(c, 1), Err(ReactiveError::UseAfterDispose));
    assert_eq!(rt.dispose(c), Err(ReactiveError::UseAfterDispose));
    assert_eq!(rt.track(c), Err(ReactiveError::UseAfterDispose));
    assert_eq!(rt.read(99), Err(ReactiveError::UseAfterDispose));
}

#[test]
fn dispose_removes_node_from_dependencies() {
    let mut rt = Runtime::new();
    let a = rt.create_cell(1);
    let b = rt.create_cell(2);
    let e = rt.create_effect();
    run_effect(&mut rt, e, &[a, b]).unwrap();
    assert_eq!(rt.subscribers(a), vec![e]);
    rt.dispose(a).unwrap();
    assert!(rt.subscribers(a).is_empty());
    assert_eq!(rt.effects[e].deps, vec![b]);
}

#[test]
fn nested_reads_stay_in_innermost_scope() {
    let mut rt = Runtime::new();
    let a = rt.create_cell(1);
    let b = rt.create_cell(2);
    let m = rt.create_memo();
    let e = rt.create_effect();
    assert!(rt.begin_effect(e));
    rt.track(a).unwrap();
    rt.begin_memo(m).unwrap();
    assert_eq!(rt.frames.last().unwrap().scope, Scope::Memo(m));
    let v = rt.track(b).unwrap();
    rt.end_memo(m, v * 10).unwrap();
    let node = rt.memos[m].node;
    assert_eq!(rt.track(node), Ok(20));
    rt.end_effect(e).unwrap();
    assert_eq!(rt.effects[e].deps, vec![a, node]);
    assert_eq!(rt.memos[m].deps.len(), 1);
    assert_eq!(rt.memos[m].deps[0].0, b);
    rt.write(b, 3).unwrap();
    assert!(rt.dirty_effects().is_empty());
    assert!(rt.memo_is_stale(m));
}

#[test]
fn stopped_effect_is_not_rerun() {
    let mut rt = Runtime::new();
    let a = rt.create_cell(1);
    let e = rt.create_effect();
    run_effect(&mut rt, e, &[a]).unwrap();
    rt.write(a, 2).unwrap();
    assert_eq!(rt.dirty_effects(), vec![e]);
    rt.stop_effect(e);
    assert!(rt.dirty_effects().is_empty());
    assert!(!rt.begin_effect(e));
    rt.write(a, 3).unwrap();
    assert!(rt.dirty_effects().is_empty());
}

#[test]
fn update_applies_function_and_notifies() {
    let mut rt = Runtime::new();
    let a = rt.create_cell(5);
    let e = rt.create_effect();
    run_effect(&mut rt, e, &[a]).unwrap();
    let gen = rt.nodes[a].generation;
    rt.update(a, |v| v * 3).unwrap();
    assert_eq!(rt.read(a), Ok(15));
    assert_eq!(rt.nodes[a].generation, gen + 1);
    assert_eq!(rt.dirty_effects(), vec![e]);
    rt.dispose(a).unwrap();
    assert_eq!(rt.update(a, |v| v + 1), Err(ReactiveError::UseAfterDispose));
}

#[test]
fn watch_fires_with_previous_and_new_values() {
    let mut lazy = Watch::new(false);
    assert_eq!(lazy.observe(1), None);
    assert_eq!(lazy.observe(2), Some((Some(1), 2)));
    let mut eager = Watch::new(true);
    assert_eq!(eager.observe(1), Some((None, 1)));
    assert_eq!(eager.observe(4), Some((Some(1), 4)));
}
