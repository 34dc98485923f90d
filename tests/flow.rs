use psylink::flow::{CalibrationFlow, CalibrationFlowState};

#[test]
fn session_visits_every_gesture() {
    let mut flow = CalibrationFlow::default();
    flow.start(3, 2);
    let mut gestures = 0;
    let mut labels: Vec<u8> = Vec::new();
    let mut steps = 0;
    while flow.state != CalibrationFlowState::Done {
        let changed = flow.tick(10_000);
        assert!(changed);
        steps += 1;
        match flow.state {
            CalibrationFlowState::NullAction => assert_eq!(flow.get_label(), Some(0)),
            CalibrationFlowState::GestureAction => {
                gestures += 1;
                let label = flow.get_label().unwrap();
                assert!((1..=3).contains(&label));
                labels.push(label);
            }
            _ => assert_eq!(flow.get_label(), None),
        }
        assert!(steps <= 100);
    }
    assert_eq!(gestures, 6);
    assert_eq!(steps, 4 * 6 + 4);
    assert_eq!(labels, vec![2, 3, 1, 2, 3, 1]);
    assert!(flow.remaining_key_presses.iter().all(|&r| r == 0));
    assert!(!flow.tick(10_000));
    assert_eq!(flow.state, CalibrationFlowState::Done);
}

#[test]
fn state_order_of_a_session() {
    let mut flow = CalibrationFlow::default();
    flow.start(1, 1);
    let mut states = vec![flow.state];
    while flow.state != CalibrationFlowState::Done {
        flow.tick(5_000);
        states.push(flow.state);
    }
    assert_eq!(
        states,
        vec![
            CalibrationFlowState::Init,
            CalibrationFlowState::Welcome,
            CalibrationFlowState::NullActionWait,
            CalibrationFlowState::NullAction,
            CalibrationFlowState::GestureActionWait,
            CalibrationFlowState::GestureAction,
            CalibrationFlowState::NullActionWait,
            CalibrationFlowState::NullAction,
            CalibrationFlowState::Done,
        ]
    );
}

#[test]
fn timer_runs_down_before_a_transition() {
    let mut flow = CalibrationFlow::default();
    flow.start(2, 1);
    assert!(flow.tick(0));
    assert_eq!(flow.state, CalibrationFlowState::Welcome);
    assert_eq!(flow.timer, 3000);
    assert!(!flow.tick(1000));
    assert_eq!(flow.timer, 2000);
    assert!(!flow.tick(1999));
    assert_eq!(flow.timer, 1);
    assert_eq!(flow.state, CalibrationFlowState::Welcome);
    assert!(flow.tick(1));
    assert_eq!(flow.state, CalibrationFlowState::NullActionWait);
    assert_eq!(flow.timer, 2500);
}

#[test]
fn gesture_entry_takes_one_repetition() {
    let mut flow = CalibrationFlow::default();
    flow.start(2, 3);
    for _ in 0..5 {
        flow.tick(u64::MAX);
    }
    assert_eq!(flow.state, CalibrationFlowState::GestureAction);
    assert_eq!(flow.remaining_key_presses, vec![2, 3]);
    assert_eq!(flow.current_action, 1);
    assert_eq!(flow.timer, 5000);
}

#[test]
fn no_classes_means_done_after_first_rest() {
    let mut flow = CalibrationFlow::default();
    flow.start(0, 5);
    for _ in 0..4 {
        flow.tick(10_000);
    }
    assert_eq!(flow.state, CalibrationFlowState::Done);
}

#[test]
fn labels_only_while_calibrating() {
    let mut flow = CalibrationFlow::default();
    flow.state = CalibrationFlowState::NullAction;
    assert_eq!(flow.get_label(), None);
    flow.start(1, 1);
    for _ in 0..3 {
        flow.tick(10_000);
    }
    assert_eq!(flow.state, CalibrationFlowState::NullAction);
    assert_eq!(flow.get_label(), Some(0));
    flow.stop();
    assert_eq!(flow.get_label(), None);
}

#[test]
fn stop_discards_progress() {
    let mut flow = CalibrationFlow::default();
    flow.start(4, 2);
    flow.currently_inferring = true;
    for _ in 0..6 {
        flow.tick(10_000);
    }
    flow.stop();
    assert!(!flow.currently_calibrating);
    assert!(!flow.currently_inferring);
    assert_eq!(flow.action_count, 0);
    assert_eq!(flow.current_action, 0);
    assert!(flow.remaining_key_presses.is_empty());
    assert_eq!(flow.timer, 0);
    assert_eq!(flow.state, CalibrationFlowState::Init);
}

#[test]
fn restart_owes_fresh_repetitions() {
    let mut flow = CalibrationFlow::default();
    flow.start(2, 1);
    for _ in 0..6 {
        flow.tick(10_000);
    }
    flow.start(3, 4);
    assert_eq!(flow.remaining_key_presses, vec![4, 4, 4]);
    assert_eq!(flow.current_action, 0);
    assert_eq!(flow.state, CalibrationFlowState::Init);
}

#[test]
fn messages_of_each_state() {
    let mut flow = CalibrationFlow::default();
    flow.start(12, 1);
    assert_eq!(flow.generate_message(), "Initializing...");
    flow.tick(0);
    assert_eq!(flow.generate_message(), "Please follow the instructions.");
    flow.tick(10_000);
    assert_eq!(flow.generate_message(), "⚠️ Prepare to rest your arm.");
    flow.tick(10_000);
    assert_eq!(flow.generate_message(), "⛔ Rest your arm now.");
    flow.tick(10_000);
    assert_eq!(flow.generate_message(), "⚠️ Prepare movement #1");
    flow.tick(10_000);
    assert_eq!(flow.generate_message(), "✋ Do movement #2 now.");
    flow.current_action = 9;
    assert_eq!(flow.generate_message(), "✋ Do movement #10 now.");
    flow.state = CalibrationFlowState::Done;
    assert_eq!(flow.generate_message(), "Data collected. Click 'Train AI'.");
}
