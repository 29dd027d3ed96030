use timelock_vault::codec::{encode_sender, parse_sender};
use timelock_vault::records::{
    sender_without_meta, Key, KeyWithMeta, Sender, SenderStored, ServerMeta,
};

fn key(name: &str) -> Key {
    Key {
        host: format!("https://{name}.example"),
        pk: format!("pk-{name}"),
        id: format!("id-{name}"),
    }
}

#[test]
fn encoding_matches_the_canonical_shape() {
    let sender = Sender {
        keys: vec![Key {
            host: "h".to_string(),
            pk: "p".to_string(),
            id: "i".to_string(),
        }],
        sets: vec![vec![0]],
    };
    let text = encode_sender(&sender);
    assert_eq!(
        text,
        "{\"keys\":[{\"host\":\"h\",\"pk\":\"p\",\"id\":\"i\"}],\"sets\":[[0]]}"
    );
}

#[test]
fn encode_then_parse_returns_the_same_record() {
    let sender = Sender {
        keys: vec![key("a"), key("b"), key("c")],
        sets: vec![vec![0, 1], vec![0, 2], vec![1, 2]],
    };
    let parsed = parse_sender(&encode_sender(&sender)).unwrap();
    assert_eq!(parsed, sender);
}

#[test]
fn quotes_and_backslashes_round_trip() {
    let sender = Sender {
        keys: vec![Key {
            host: "a\"b\\c".to_string(),
            pk: "\\\\".to_string(),
            id: "\"".to_string(),
        }],
        sets: vec![vec![0]],
    };
    let parsed = parse_sender(&encode_sender(&sender)).unwrap();
    assert_eq!(parsed, sender);
}

#[test]
fn large_indices_round_trip() {
    let sender = Sender {
        keys: vec![],
        sets: vec![vec![0, 18446744073709551615, 1024]],
    };
    let parsed = parse_sender(&encode_sender(&sender)).unwrap();
    assert_eq!(parsed, sender);
}

#[test]
fn stripped_sender_parses_back_as_receiver_reference() {
    let stored = SenderStored {
        label: "my vault".to_string(),
        keys: vec![KeyWithMeta {
            host: "https://a.example".to_string(),
            pk: "pk-a".to_string(),
            id: "id-a".to_string(),
            meta: Some(ServerMeta {
                provider: Some("acme".to_string()),
                hoster: None,
                location: Some("earth".to_string()),
            }),
        }],
        sets: vec![vec![0]],
    };
    let stripped = sender_without_meta(&stored);
    let reference = parse_sender(&encode_sender(&stripped)).unwrap();
    assert_eq!(reference.keys.len(), 1);
    assert_eq!(reference.keys[0].host, "https://a.example");
    assert_eq!(reference.keys[0].pk, "pk-a");
    assert_eq!(reference.keys[0].id, "id-a");
    assert_eq!(reference.sets, vec![vec![0]]);
}

#[test]
fn foreign_text_is_rejected() {
    assert!(parse_sender("").is_none());
    assert!(parse_sender("junk").is_none());
    assert!(parse_sender("{\"keys\":[],\"sets\":[]}junk").is_none());
    assert!(parse_sender("{\"keys\":[],\"sets\":[[12x]]}").is_none());
}

#[test]
fn empty_record_round_trips() {
    let sender = Sender {
        keys: vec![],
        sets: vec![],
    };
    let text = encode_sender(&sender);
    assert_eq!(text, "{\"keys\":[],\"sets\":[]}");
    assert_eq!(parse_sender(&text).unwrap(), sender);
}

#[test]
fn canonical_form_matches_the_wire_format() {
    let sender = Sender {
        keys: vec![key("a")],
        sets: vec![vec![0]],
    };
    let expected: serde_json::Value = serde_json::from_str(
        "{\"keys\":[{\"host\":\"https://a.example\",\"pk\":\"pk-a\",\"id\":\"id-a\"}],\"sets\":[[0]]}",
    )
    .unwrap();
    let ours: serde_json::Value = serde_json::from_str(&encode_sender(&sender)).unwrap();
    assert_eq!(ours, expected);
}
