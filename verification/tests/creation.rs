use timelock_vault::aggregate::{process_receiver_state, ReceiverState};
use timelock_vault::create::{collect_created, process_new_secret, CreatedKey};
use timelock_vault::outcome::receiver_key_states;
use timelock_vault::outcome::GetOutcome;
use timelock_vault::records::Server;
use timelock_vault::vault::generate_standard_vault_sets;

fn server(name: &str) -> Server {
    Server {
        host: format!("https://{name}.example"),
        pk: format!("pk-{name}"),
    }
}

fn created(name: &str, seed: u8) -> CreatedKey {
    CreatedKey {
        sender: format!("send-{name}"),
        receiver: format!("recv-{name}"),
        key: format!("{:02x}", seed).repeat(32),
    }
}

#[test]
fn one_failed_server_aborts_the_whole_creation() {
    let results = vec![
        (server("a"), Ok(created("a", 1))),
        (server("b"), Err("no route to host".to_string())),
        (server("c"), Ok(created("c", 2))),
    ];
    let out = collect_created(results);
    assert_eq!(out.unwrap_err(), "no route to host");
}

#[test]
fn all_servers_succeeding_keeps_input_order() {
    let results = vec![
        (server("a"), Ok(created("a", 1))),
        (server("b"), Ok(created("b", 2))),
    ];
    let pairs = collect_created(results).unwrap();
    assert_eq!(pairs.len(), 2);
    assert_eq!(pairs[0].0, server("a"));
    assert_eq!(pairs[0].1, created("a", 1));
    assert_eq!(pairs[1].0, server("b"));
    assert_eq!(pairs[1].1, created("b", 2));
}

#[test]
fn new_secret_binds_ids_and_sets() {
    let keys = vec![
        (server("a"), created("a", 1)),
        (server("b"), created("b", 2)),
        (server("c"), created("c", 3)),
    ];
    let sets = generate_standard_vault_sets(3, 2).unwrap();
    let (sender, receiver) = process_new_secret("payload".to_string(), keys, sets).unwrap();
    assert_eq!(sender.keys.len(), 3);
    assert_eq!(receiver.keys.len(), 3);
    assert_eq!(sender.keys[0].id, "send-a");
    assert_eq!(receiver.keys[0].id, "recv-a");
    assert_eq!(sender.keys[2].host, "https://c.example");
    assert_eq!(sender.sets, vec![vec![0, 1], vec![0, 2], vec![1, 2]]);
    assert_eq!(receiver.sets.len(), 3);
    assert_eq!(receiver.sets[0].keys, vec![0, 1]);
    assert_eq!(receiver.sets[1].keys, vec![0, 2]);
    assert_eq!(receiver.sets[2].keys, vec![1, 2]);
}

#[test]
fn new_secret_fails_when_material_is_not_usable() {
    let mut bad = created("a", 1);
    bad.key = "not hex at all".to_string();
    let keys = vec![(server("a"), bad)];
    let sets = generate_standard_vault_sets(1, 1).unwrap();
    assert!(process_new_secret("payload".to_string(), keys, sets).is_err());
}

#[test]
fn created_secret_can_be_received_once_keys_unlock() {
    let keys = vec![(server("a"), created("a", 4)), (server("b"), created("b", 5))];
    let sets = generate_standard_vault_sets(2, 2).unwrap();
    let (_, receiver) = process_new_secret("round trip".to_string(), keys, sets).unwrap();
    let results = vec![
        (
            receiver.keys[0].clone(),
            Ok(GetOutcome::Unlocked(created("a", 4).key)),
        ),
        (
            receiver.keys[1].clone(),
            Ok(GetOutcome::Unlocked(created("b", 5).key)),
        ),
    ];
    let states = receiver_key_states(&results);
    match process_receiver_state(states, &receiver.sets) {
        ReceiverState::Unlocked { unlocked_sets, .. } => {
            assert_eq!(unlocked_sets.len(), 1);
            assert_eq!(unlocked_sets[0].decrypted_data, "round trip");
        }
        ReceiverState::Locked { .. } => panic!("every key of the only combination unlocked"),
    }
}
