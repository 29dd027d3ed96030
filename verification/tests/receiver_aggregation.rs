use timelock_vault::aggregate::{process_receiver_state, ReceiverState};
use timelock_vault::outcome::{receiver_key_states, GetOutcome, ReceiverKeyState};
use timelock_vault::records::{Key, ReceiverKeySet};

fn key(name: &str) -> Key {
    Key {
        host: format!("https://{name}.example"),
        pk: format!("pk-{name}"),
        id: format!("id-{name}"),
    }
}

fn material(seed: u8) -> String {
    format!("{:02x}", seed).repeat(32)
}

fn seal(message: &str, materials: &[String]) -> String {
    let refs: Vec<&str> = materials.iter().map(|m| m.as_str()).collect();
    wingedcap::client::encrypt(message, refs).unwrap()
}

#[test]
fn satisfied_combination_decrypts() {
    let m0 = material(1);
    let m1 = material(2);
    let data = seal("the secret", &[m0.clone(), m1.clone()]);
    let results = vec![
        (key("a"), Ok(GetOutcome::Unlocked(m0))),
        (key("b"), Ok(GetOutcome::Unlocked(m1))),
    ];
    let states = receiver_key_states(&results);
    let sets = vec![ReceiverKeySet {
        keys: vec![0, 1],
        data,
    }];
    match process_receiver_state(states, &sets) {
        ReceiverState::Unlocked { unlocked_sets, .. } => {
            assert_eq!(unlocked_sets.len(), 1);
            assert_eq!(unlocked_sets[0].decrypted_data, "the secret");
            assert_eq!(unlocked_sets[0].keys, vec![key("a"), key("b")]);
        }
        ReceiverState::Locked { .. } => panic!("the combination is satisfied and decrypts"),
    }
}

#[test]
fn two_satisfied_combinations_yield_two_entries() {
    let m0 = material(3);
    let m1 = material(4);
    let d0 = seal("twice", &[m0.clone()]);
    let d1 = seal("twice", &[m1.clone()]);
    let results = vec![
        (key("a"), Ok(GetOutcome::Unlocked(m0))),
        (key("b"), Ok(GetOutcome::Unlocked(m1))),
    ];
    let states = receiver_key_states(&results);
    let sets = vec![
        ReceiverKeySet {
            keys: vec![0],
            data: d0,
        },
        ReceiverKeySet {
            keys: vec![1],
            data: d1,
        },
    ];
    match process_receiver_state(states, &sets) {
        ReceiverState::Unlocked { unlocked_sets, .. } => {
            assert_eq!(unlocked_sets.len(), 2);
            assert_eq!(unlocked_sets[0].decrypted_data, "twice");
            assert_eq!(unlocked_sets[1].decrypted_data, "twice");
        }
        ReceiverState::Locked { .. } => panic!("both combinations decrypt"),
    }
}

#[test]
fn transport_failure_keeps_the_combination_locked() {
    let m0 = material(5);
    let m1 = material(6);
    let data = seal("unreached", &[m0.clone(), m1]);
    let results = vec![
        (key("a"), Ok(GetOutcome::Unlocked(m0))),
        (key("b"), Err("connection reset".to_string())),
    ];
    let states = receiver_key_states(&results);
    assert!(matches!(states[1], ReceiverKeyState::Locked(_)));
    let sets = vec![ReceiverKeySet {
        keys: vec![0, 1],
        data,
    }];
    match process_receiver_state(states, &sets) {
        ReceiverState::Locked { sets: locked, .. } => assert_eq!(locked.len(), 1),
        ReceiverState::Unlocked { .. } => panic!("a failed fetch must not unlock"),
    }
}

#[test]
fn corrupted_combination_is_skipped_but_another_succeeds() {
    let m0 = material(7);
    let m1 = material(8);
    let good = seal("rescued", &[m1.clone()]);
    let results = vec![
        (key("a"), Ok(GetOutcome::Unlocked(m0))),
        (key("b"), Ok(GetOutcome::Unlocked(m1))),
    ];
    let states = receiver_key_states(&results);
    let sets = vec![
        ReceiverKeySet {
            keys: vec![0],
            data: "00ff00ff".to_string(),
        },
        ReceiverKeySet {
            keys: vec![1],
            data: good,
        },
    ];
    match process_receiver_state(states, &sets) {
        ReceiverState::Unlocked {
            locked_sets,
            unlocked_sets,
            ..
        } => {
            assert_eq!(locked_sets.len(), 1);
            assert_eq!(unlocked_sets.len(), 1);
            assert_eq!(unlocked_sets[0].decrypted_data, "rescued");
        }
        ReceiverState::Locked { .. } => panic!("the second combination decrypts"),
    }
}

#[test]
fn all_combinations_failing_to_combine_is_locked() {
    let m0 = material(9);
    let results = vec![(key("a"), Ok(GetOutcome::Unlocked(m0)))];
    let states = receiver_key_states(&results);
    let sets = vec![ReceiverKeySet {
        keys: vec![0],
        data: "deadbeef".to_string(),
    }];
    match process_receiver_state(states, &sets) {
        ReceiverState::Locked { sets: locked, .. } => assert_eq!(locked.len(), 1),
        ReceiverState::Unlocked { .. } => panic!("nothing decrypts"),
    }
}

#[test]
fn receiver_with_no_combinations_stays_locked() {
    let results = vec![(key("a"), Ok(GetOutcome::Unlocked(material(10))))];
    let states = receiver_key_states(&results);
    let sets: Vec<ReceiverKeySet> = vec![];
    match process_receiver_state(states, &sets) {
        ReceiverState::Locked { sets: locked, .. } => assert!(locked.is_empty()),
        ReceiverState::Unlocked { .. } => panic!("nothing can combine"),
    }
}
