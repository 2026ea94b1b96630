use ec_core::runtime_state::{poisoned_reason, FatalState, StateAccess};

#[test]
fn the_first_reason_stays() {
    let mut state = FatalState::new();
    assert_eq!(state.fatal_reason(), None);
    assert!(state.record_fatal("first".to_string()));
    assert!(!state.record_fatal("second".to_string()));
    assert_eq!(state.fatal_reason(), Some("first".to_string()));
    state.clear_fatal_reason();
    assert_eq!(state.fatal_reason(), None);
    assert!(state.record_fatal("third".to_string()));
    assert_eq!(state.fatal_reason(), Some("third".to_string()));
}

#[test]
fn poisoned_locks_have_their_reasons() {
    assert_eq!(
        poisoned_reason(StateAccess::LockPoisoned),
        "runtime fatal reason mutex poisoned"
    );
    assert_eq!(
        poisoned_reason(StateAccess::WaitPoisoned),
        "runtime fatal reason condvar wait poisoned"
    );
}
