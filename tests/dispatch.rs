use psylink::fakeinput::{Action, ConfigError, Effect, InputState, DEBOUNCE_THRESHOLD};

fn enabled_state() -> InputState {
    let mut state = InputState::new(false);
    state.enable();
    state
}

#[test]
fn new_state_has_default_keys() {
    let state = InputState::new(true);
    assert!(state.verbose);
    assert!(!state.enabled);
    assert_eq!(
        state.actions,
        vec![Action::Nothing, Action::Key('w'), Action::Key('a'), Action::Key('d'), Action::Key('s')]
    );
    assert_eq!(state.tap, vec![false; 5]);
    assert_eq!(state.active_prediction, 0);
}

#[test]
fn hysteresis_sequence_does_not_switch_early() {
    assert_eq!(DEBOUNCE_THRESHOLD, 2);
    let mut state = enabled_state();
    let mut effects = Vec::new();
    for p in [0u8, 1, 2, 1, 1] {
        effects.extend(state.set_predicted(p));
    }
    assert!(effects.is_empty());
    assert_eq!(state.active_prediction, 0);
    assert_eq!(state.debounce_count, 1);
    assert_eq!(state.set_predicted(1), vec![Effect::Press('w')]);
    assert_eq!(state.active_prediction, 1);
}

#[test]
fn new_class_switches_on_third_prediction() {
    let mut state = enabled_state();
    assert!(state.set_predicted(2).is_empty());
    assert!(state.set_predicted(2).is_empty());
    assert_eq!(state.set_predicted(2), vec![Effect::Press('a')]);
    assert!(state.set_predicted(3).is_empty());
    assert!(state.set_predicted(3).is_empty());
    assert_eq!(state.set_predicted(3), vec![Effect::Release('a'), Effect::Press('d')]);
}

#[test]
fn active_class_is_sticky() {
    let mut state = enabled_state();
    for _ in 0..3 {
        state.set_predicted(4);
    }
    assert_eq!(state.active_prediction, 4);
    for _ in 0..20 {
        assert!(state.set_predicted(4).is_empty());
        assert_eq!(state.active_prediction, 4);
    }
}

#[test]
fn flapping_classes_never_switch() {
    let mut state = enabled_state();
    for i in 0..50 {
        let p = if i % 2 == 0 { 1 } else { 2 };
        assert!(state.set_predicted(p).is_empty());
    }
    assert_eq!(state.active_prediction, 0);
}

#[test]
fn interruption_resets_confidence() {
    let mut state = enabled_state();
    state.set_predicted(1);
    state.set_predicted(1);
    state.set_predicted(0);
    assert_eq!(state.debounce_count, 1);
    assert!(state.set_predicted(1).is_empty());
    assert_eq!(state.debounce_count, DEBOUNCE_THRESHOLD);
    assert!(state.set_predicted(1).is_empty());
    assert_eq!(state.set_predicted(1), vec![Effect::Press('w')]);
}

#[test]
fn disabled_dispatcher_ignores_predictions() {
    let mut state = InputState::new(false);
    for _ in 0..5 {
        assert!(state.set_predicted(1).is_empty());
    }
    assert_eq!(state.active_prediction, 0);
    assert_eq!(state.last_prediction, 0);
}

#[test]
fn tapped_keys_click_and_never_release() {
    let mut state = enabled_state();
    state.set_tap(1, true).unwrap();
    for _ in 0..2 {
        state.set_predicted(1);
    }
    assert_eq!(state.set_predicted(1), vec![Effect::Click('w')]);
    for _ in 0..2 {
        state.set_predicted(2);
    }
    assert_eq!(state.set_predicted(2), vec![Effect::Press('a')]);
}

#[test]
fn sounds_play_on_invoke_only() {
    let mut state = enabled_state();
    state.set_action(3, Action::Sound(440)).unwrap();
    for _ in 0..2 {
        state.set_predicted(3);
    }
    assert_eq!(state.set_predicted(3), vec![Effect::Tone(440)]);
    for _ in 0..2 {
        state.set_predicted(0);
    }
    assert!(state.set_predicted(0).is_empty());
    assert_eq!(state.active_prediction, 0);
}

#[test]
fn classes_without_action_do_nothing() {
    let mut state = enabled_state();
    for _ in 0..2 {
        state.set_predicted(9);
    }
    assert!(state.set_predicted(9).is_empty());
    assert_eq!(state.active_prediction, 9);
    for _ in 0..2 {
        state.set_predicted(1);
    }
    assert_eq!(state.set_predicted(1), vec![Effect::Press('w')]);
}

#[test]
fn out_of_range_assignment_is_rejected() {
    let mut state = InputState::new(false);
    assert_eq!(state.set_action(5, Action::Key('x')), Err(ConfigError::IndexOutOfRange));
    assert_eq!(state.set_tap(7, true), Err(ConfigError::IndexOutOfRange));
    assert_eq!(state.actions.len(), 5);
    assert_eq!(state.set_action(4, Action::Key('x')), Ok(()));
    assert_eq!(state.actions[4], Action::Key('x'));
    assert_eq!(state.set_tap(0, true), Ok(()));
    assert_eq!(state.tap[0], true);
}

#[test]
fn reset_releases_active_key() {
    let mut state = enabled_state();
    for _ in 0..3 {
        state.set_predicted(2);
    }
    assert_eq!(state.reset(), vec![Effect::Release('a')]);
    assert!(!state.enabled);
    assert_eq!(state.active_prediction, 0);
    assert_eq!(state.last_prediction, 0);
    assert!(state.reset().is_empty());
}

#[test]
fn action_descriptions() {
    assert_eq!(Action::Key('w').to_string(), "Key \"w\"");
    assert_eq!(Action::Key(' ').to_string(), "Key \" \"");
    assert_eq!(Action::Sound(440).to_string(), "Sound");
    assert_eq!(Action::Nothing.to_string(), "(no action)");
}
