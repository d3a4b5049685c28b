use ziz::CallbackIndex;
use ziz::MachineError;
use ziz::State;
use ziz::StateIndex;
use ziz::StateMachine;
use ziz::Transition;

fn state(name: &str, on_enter: u32, on_exit: u32) -> State {
    State {
        on_enter: CallbackIndex(on_enter),
        name: name.to_string(),
        on_exit: CallbackIndex(on_exit),
    }
}

fn transition(from: &str, symbol: Option<&str>, output: u32, to: &str) -> Transition {
    Transition {
        previous_state: from.to_string(),
        symbol: symbol.map(|s| s.to_string()),
        output: CallbackIndex(output),
        following_state: to.to_string(),
    }
}

fn cbs(ids: &[u32]) -> Vec<CallbackIndex> {
    ids.iter().map(|&i| CallbackIndex(i)).collect()
}

fn sts(ids: &[u32]) -> Vec<StateIndex> {
    ids.iter().map(|&i| StateIndex(i)).collect()
}

#[test]
fn it_works() {
    assert_eq!(2, 2);
}

#[test]
fn start_transition_then_self_loop() {
    // Machine: {Idle, Running}, Idle --"start"--> Running, and an
    // empty-symbol self-loop on Running.
    let states = vec![state("Idle", 10, 11), state("Running", 20, 21)];
    let transitions = vec![
        transition("Idle", Some("start"), 30, "Running"),
        transition("Running", None, 31, "Running"),
    ];
    let mut m = StateMachine::new(states, transitions, vec!["Idle".to_string()]).unwrap();
    m.init();
    assert_eq!(*m.active_states(), sts(&[0]));

    // One step on "start": Idle exits, exactly one output fires, Running
    // is entered, and the active set becomes [Running].
    let log = m.step(Some("start".to_string())).unwrap();
    assert_eq!(log, cbs(&[11, 30, 20]));
    assert_eq!(*m.active_states(), sts(&[1]));

    // Another step on "start": no "start" transition from Running, but the
    // empty-symbol self-loop still fires; the active set stays [Running].
    let log = m.step(Some("start".to_string())).unwrap();
    assert_eq!(log, cbs(&[21, 31, 20]));
    assert_eq!(*m.active_states(), sts(&[1]));
}

#[test]
fn unknown_symbol_fails_and_leaves_active_set() {
    let states = vec![state("Idle", 10, 11), state("Running", 20, 21)];
    let transitions = vec![transition("Idle", Some("start"), 30, "Running")];
    let mut m = StateMachine::new(states, transitions, vec!["Idle".to_string()]).unwrap();
    m.init();
    let r = m.step(Some("bogus".to_string()));
    assert_eq!(r, Err(MachineError::UnknownSymbol));
    assert_eq!(*m.active_states(), sts(&[0]));
}

#[test]
fn rewind_restores_initial_set_with_duplicates() {
    let states = vec![state("A", 1, 2), state("B", 3, 4)];
    let transitions = vec![
        transition("A", Some("go"), 5, "B"),
        transition("B", Some("go"), 6, "A"),
    ];
    let initial = vec!["A".to_string(), "B".to_string(), "A".to_string()];
    let mut m = StateMachine::new(states, transitions, initial).unwrap();
    m.init();
    assert_eq!(*m.active_states(), sts(&[0, 1, 0]));
    m.step(Some("go".to_string())).unwrap();
    m.step(Some("go".to_string())).unwrap();
    m.rewind();
    assert_eq!(*m.active_states(), sts(&[0, 1, 0]));
}

#[test]
fn exit_fires_for_state_without_transitions() {
    // A state with no transitions at all: step still fires its exit
    // callback, and it contributes no successor.
    let states = vec![state("Lonely", 7, 8)];
    let mut m = StateMachine::new(states, vec![], vec!["Lonely".to_string()]).unwrap();
    m.init();
    let log = m.step(None).unwrap();
    assert_eq!(log, cbs(&[8]));
    assert_eq!(*m.active_states(), sts(&[]));
}

#[test]
fn ordering_exits_then_outputs_then_enters() {
    // Two active states: every exit fires before every transition output,
    // and every output before every enter.
    let states = vec![state("A", 1, 2), state("B", 3, 4)];
    let transitions = vec![
        transition("A", Some("go"), 5, "B"),
        transition("B", None, 6, "A"),
    ];
    let initial = vec!["A".to_string(), "B".to_string()];
    let mut m = StateMachine::new(states, transitions, initial).unwrap();
    m.init();
    let log = m.step(Some("go".to_string())).unwrap();
    assert_eq!(log, cbs(&[2, 4, 5, 6, 3, 1]));
    assert_eq!(*m.active_states(), sts(&[1, 0]));
}

#[test]
fn empty_symbol_fires_in_addition_to_input_symbol() {
    // For the same active state, the empty-symbol transition fires on
    // every step, before the input-symbol transition.
    let states = vec![state("A", 1, 2), state("B", 3, 4)];
    let transitions = vec![
        transition("A", None, 7, "A"),
        transition("A", Some("go"), 8, "B"),
    ];
    let mut m = StateMachine::new(states, transitions, vec!["A".to_string()]).unwrap();
    m.init();
    let log = m.step(Some("go".to_string())).unwrap();
    assert_eq!(log, cbs(&[2, 7, 8, 1, 3]));
    assert_eq!(*m.active_states(), sts(&[0, 1]));
}

#[test]
fn nondeterministic_branching_keeps_both_destinations() {
    // Two transitions on the same symbol from one state: both
    // destinations appear in the next active set, no merging.
    let states = vec![state("A", 1, 2), state("B", 3, 4), state("C", 5, 6)];
    let transitions = vec![
        transition("A", Some("go"), 7, "B"),
        transition("A", Some("go"), 8, "C"),
    ];
    let mut m = StateMachine::new(states, transitions, vec!["A".to_string()]).unwrap();
    m.init();
    let log = m.step(Some("go".to_string())).unwrap();
    assert_eq!(log, cbs(&[2, 7, 8, 3, 5]));
    assert_eq!(*m.active_states(), sts(&[1, 2]));
}

#[test]
fn duplicate_destination_enters_twice() {
    let states = vec![state("A", 1, 2), state("B", 3, 4)];
    let transitions = vec![
        transition("A", Some("go"), 7, "B"),
        transition("A", Some("go"), 8, "B"),
    ];
    let mut m = StateMachine::new(states, transitions, vec!["A".to_string()]).unwrap();
    m.init();
    let log = m.step(Some("go".to_string())).unwrap();
    assert_eq!(log, cbs(&[2, 7, 8, 3, 3]));
    assert_eq!(*m.active_states(), sts(&[1, 1]));
}

#[test]
fn unknown_state_in_transition_is_rejected() {
    let states = vec![state("A", 1, 2)];
    let transitions = vec![transition("A", Some("go"), 3, "Ghost")];
    let r = StateMachine::new(states, transitions, vec!["A".to_string()]);
    assert!(matches!(r, Err(MachineError::UnknownState)));
}

#[test]
fn unknown_state_in_initial_set_is_rejected() {
    let states = vec![state("A", 1, 2)];
    let r = StateMachine::new(states, vec![], vec!["Ghost".to_string()]);
    assert!(matches!(r, Err(MachineError::UnknownState)));
}

#[test]
fn empty_machine_steps_on_empty_symbol() {
    let mut m = StateMachine::new(vec![], vec![], vec![]).unwrap();
    m.init();
    let log = m.step(None).unwrap();
    assert_eq!(log, cbs(&[]));
    assert_eq!(*m.active_states(), sts(&[]));
}

#[test]
fn empty_symbol_step_fires_empty_transitions_twice() {
    // Stepping on the empty symbol evaluates the empty-symbol range both
    // as the always-on range and as the input range, so its transitions
    // fire twice.
    let states = vec![state("A", 1, 2)];
    let transitions = vec![transition("A", None, 7, "A")];
    let mut m = StateMachine::new(states, transitions, vec!["A".to_string()]).unwrap();
    m.init();
    let log = m.step(None).unwrap();
    assert_eq!(log, cbs(&[2, 7, 7, 1, 1]));
    assert_eq!(*m.active_states(), sts(&[0, 0]));
}
