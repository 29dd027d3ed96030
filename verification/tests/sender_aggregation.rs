use timelock_vault::aggregate::{process_sender_state, SenderState};
use timelock_vault::outcome::{sender_key_states, PingOutcome, SenderKeyState};
use timelock_vault::records::Key;

fn key(name: &str) -> Key {
    Key {
        host: format!("https://{name}.example"),
        pk: format!("pk-{name}"),
        id: format!("id-{name}"),
    }
}

#[test]
fn transport_failure_counts_as_locked() {
    let results = vec![
        (key("a"), Ok(PingOutcome::Unlocked)),
        (key("b"), Err("connection refused".to_string())),
        (key("c"), Ok(PingOutcome::Locked)),
    ];
    let states = sender_key_states(&results);
    assert_eq!(states[0], SenderKeyState::Unlocked(key("a")));
    assert_eq!(states[1], SenderKeyState::Locked(key("b")));
    assert_eq!(states[2], SenderKeyState::Locked(key("c")));
}

#[test]
fn failed_key_never_unlocks_its_combinations() {
    let results = vec![
        (key("a"), Ok(PingOutcome::Unlocked)),
        (key("b"), Err("timeout".to_string())),
    ];
    let states = sender_key_states(&results);
    let sets = vec![vec![0, 1], vec![1]];
    match process_sender_state(states, &sets) {
        SenderState::Locked { .. } => {}
        SenderState::Unlocked { .. } => panic!("a failed key must stay locked"),
    }
}

#[test]
fn spec_example_one_locked_key_blocks_both_combinations() {
    let states = vec![
        SenderKeyState::Unlocked(key("a")),
        SenderKeyState::Locked(key("b")),
        SenderKeyState::Unlocked(key("c")),
    ];
    let sets = vec![vec![0, 1], vec![1, 2]];
    match process_sender_state(states, &sets) {
        SenderState::Locked { keys, sets: locked } => {
            assert_eq!(keys.len(), 3);
            assert_eq!(locked.len(), 2);
        }
        SenderState::Unlocked { .. } => panic!("no combination is satisfied"),
    }
}

#[test]
fn spec_example_unlocking_the_shared_key_satisfies_both() {
    let states = vec![
        SenderKeyState::Unlocked(key("a")),
        SenderKeyState::Unlocked(key("b")),
        SenderKeyState::Unlocked(key("c")),
    ];
    let sets = vec![vec![0, 1], vec![1, 2]];
    match process_sender_state(states, &sets) {
        SenderState::Unlocked {
            keys,
            locked_sets,
            unlocked_sets,
        } => {
            assert_eq!(keys.len(), 3);
            assert_eq!(locked_sets.len(), 0);
            assert_eq!(unlocked_sets.len(), 2);
            assert_eq!(unlocked_sets[0], vec![key("a"), key("b")]);
            assert_eq!(unlocked_sets[1], vec![key("b"), key("c")]);
        }
        SenderState::Locked { .. } => panic!("both combinations are satisfied"),
    }
}

#[test]
fn empty_combination_family_stays_locked() {
    let states = vec![SenderKeyState::Unlocked(key("a"))];
    let sets: Vec<Vec<u64>> = vec![];
    match process_sender_state(states, &sets) {
        SenderState::Locked { sets: locked, .. } => assert!(locked.is_empty()),
        SenderState::Unlocked { .. } => panic!("no combination can be satisfied"),
    }
}

#[test]
fn one_satisfied_combination_suffices() {
    let states = vec![
        SenderKeyState::Locked(key("a")),
        SenderKeyState::Unlocked(key("b")),
    ];
    let sets = vec![vec![0], vec![1]];
    match process_sender_state(states, &sets) {
        SenderState::Unlocked {
            locked_sets,
            unlocked_sets,
            ..
        } => {
            assert_eq!(locked_sets.len(), 1);
            assert_eq!(unlocked_sets, vec![vec![key("b")]]);
        }
        SenderState::Locked { .. } => panic!("the second combination is satisfied"),
    }
}
