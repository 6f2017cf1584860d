use reactive_core::error::ReactiveError;
use reactive_core::resource::{Action, Resource, ResourceState};
use reactive_core::runtime::Runtime;

#[test]
fn resource_changes_notify_readers() {
    let mut rt = Runtime::new();
    let cell = rt.create_cell(0);
    let mut res = Resource::new();
    let e = rt.create_effect();
    assert!(rt.begin_effect(e));
    assert_eq!(res.get_tracked(&mut rt, cell), Ok(ResourceState::Idle));
    rt.end_effect(e).unwrap();
    assert!(rt.dirty_effects().is_empty());

    let g1 = res.start_tracked(&mut rt, cell).unwrap();
    assert_eq!(rt.read(cell), Ok(1));
    assert_eq!(rt.dirty_effects(), vec![e]);
    assert!(rt.begin_effect(e));
    res.get_tracked(&mut rt, cell).unwrap();
    rt.end_effect(e).unwrap();

    let g2 = res.start_tracked(&mut rt, cell).unwrap();
    assert!(rt.begin_effect(e));
    res.get_tracked(&mut rt, cell).unwrap();
    rt.end_effect(e).unwrap();
    assert_eq!(res.complete_tracked(&mut rt, cell, g1, Ok(10)), Ok(false));
    assert!(rt.dirty_effects().is_empty());
    assert_eq!(res.complete_tracked(&mut rt, cell, g2, Ok(20)), Ok(true));
    assert_eq!(rt.read(cell), Ok(2));
    assert_eq!(rt.dirty_effects(), vec![e]);
    assert!(rt.begin_effect(e));
    assert_eq!(res.get_tracked(&mut rt, cell), Ok(ResourceState::Ready(20, g2)));
    rt.end_effect(e).unwrap();
}

#[test]
fn resource_refuses_disposed_cell() {
    let mut rt = Runtime::new();
    let cell = rt.create_cell(0);
    rt.dispose(cell).unwrap();
    let mut res = Resource::new();
    assert_eq!(res.start_tracked(&mut rt, cell), Err(ReactiveError::UseAfterDispose));
    assert_eq!(res.latest, 0);
    assert_eq!(res.get_tracked(&mut rt, cell), Err(ReactiveError::UseAfterDispose));
}

#[test]
fn action_changes_notify_readers() {
    let mut rt = Runtime::new();
    let cell = rt.create_cell(0);
    let mut act = Action::new();
    let e = rt.create_effect();
    assert!(rt.begin_effect(e));
    assert!(!act.slot_tracked(&mut rt, cell).unwrap().pending);
    rt.end_effect(e).unwrap();

    let g1 = act.dispatch_tracked(&mut rt, cell, 1).unwrap();
    let g2 = act.dispatch_tracked(&mut rt, cell, 2).unwrap();
    assert_eq!(rt.dirty_effects(), vec![e]);
    assert!(rt.begin_effect(e));
    let slot = act.slot_tracked(&mut rt, cell).unwrap();
    assert!(slot.pending);
    assert_eq!(slot.input, Some(2));
    rt.end_effect(e).unwrap();

    assert_eq!(act.resolve_tracked(&mut rt, cell, g1, Ok(100)), Ok(false));
    assert!(rt.dirty_effects().is_empty());
    assert_eq!(act.resolve_tracked(&mut rt, cell, g2, Ok(200)), Ok(true));
    assert_eq!(rt.dirty_effects(), vec![e]);
    assert_eq!(act.value(), Some(Ok(200)));
    assert!(!act.pending());
    assert_eq!(act.history.len(), 2);
}
