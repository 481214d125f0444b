use ever_playground::cell::Cell;
use ever_playground::error::Error;
use ever_playground::stack::{Continuation, SaveList, StackItem};
use ever_playground::vm::{finish_run, Gas, Outcome, VmState};

#[test]
fn gas_counters() {
    let g = Gas::new(1000, 10, 2000, 5);
    assert_eq!(g.limit(), 1000);
    assert_eq!(g.credit(), 10);
    assert_eq!(g.used(), 0);
    assert_eq!(g.remaining(), 1010);
    let after = Gas::with_state(1000, 10, 2000, 5, 700, 1010).unwrap();
    assert_eq!(after.used(), 310);
    assert!(matches!(Gas::with_state(1, 0, 1, 1, 5, 4), Err(Error::Bounds)));
    assert_eq!(Gas::empty().used(), 0);
}

#[test]
fn run_results() {
    let state = VmState::new(Continuation::ordinary(), SaveList::new(), Gas::empty());
    assert_eq!(state.steps, 0);
    assert!(state.committed_c4.is_none());
    let ok = finish_run(Outcome::Exit(0), Continuation::ordinary(), SaveList::new(), 3, Gas::empty(), None).unwrap();
    assert_eq!(ok.exit_code, 0);
    assert!(ok.exception_value.is_none());
    assert!(ok.state.committed_c5.is_none());
    assert_eq!(ok.state.steps, 3);
    let exc = finish_run(
        Outcome::Exception(7, StackItem::Null),
        Continuation::ordinary(),
        SaveList::new(),
        1,
        Gas::empty(),
        Some((Cell::empty(), Cell::create("1", vec![]).unwrap())),
    )
    .unwrap();
    assert_eq!(exc.exit_code, 7);
    assert!(matches!(exc.exception_value, Some(StackItem::Null)));
    assert!(exc.state.committed_c5.unwrap().equals(&Cell::create("1", vec![]).unwrap()));
    assert!(matches!(
        finish_run(Outcome::Failure, Continuation::ordinary(), SaveList::new(), 0, Gas::empty(), None),
        Err(Error::Execution)
    ));
}
