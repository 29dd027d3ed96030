use timelock_vault::records::{receiver_stored_from, Key, Receiver, Sender};
use timelock_vault::time::{
    get_time_unit_from_name, get_time_unit_name, time_to_seconds, time_units, Time, TimeUnit,
};

#[test]
fn seconds_per_unit_are_exact() {
    let cases = [
        (TimeUnit::Second, 1u64),
        (TimeUnit::Minute, 60),
        (TimeUnit::Hour, 3600),
        (TimeUnit::Day, 86400),
        (TimeUnit::Week, 604800),
    ];
    for (unit, factor) in cases {
        let time = Time {
            magnitude: 3,
            unit,
        };
        assert_eq!(time_to_seconds(time), 3 * factor);
    }
}

#[test]
fn unit_names_round_trip() {
    for unit in time_units() {
        let name = get_time_unit_name(unit.clone());
        assert_eq!(get_time_unit_from_name(name).unwrap(), unit);
    }
}

#[test]
fn unknown_unit_name_is_rejected() {
    let err = get_time_unit_from_name("fortnights".to_string()).unwrap_err();
    assert_eq!(err, "Invalid time unit: fortnights");
}

#[test]
fn all_units_are_listed_in_order() {
    assert_eq!(
        time_units(),
        vec![
            TimeUnit::Second,
            TimeUnit::Minute,
            TimeUnit::Hour,
            TimeUnit::Day,
            TimeUnit::Week,
        ]
    );
}

#[test]
fn labelling_a_receiver_keeps_its_content() {
    let receiver = Receiver {
        keys: vec![Key {
            host: "https://a.example".to_string(),
            pk: "pk-a".to_string(),
            id: "recv-a".to_string(),
        }],
        sets: vec![],
    };
    let stored = receiver_stored_from("gift".to_string(), receiver.clone());
    assert_eq!(stored.label, "gift");
    assert_eq!(stored.keys, receiver.keys);
    assert_eq!(stored.sets, receiver.sets);
}

#[test]
fn out_of_range_combination_fails_the_invariant() {
    let sender = Sender {
        keys: vec![Key {
            host: "https://a.example".to_string(),
            pk: "pk-a".to_string(),
            id: "id-a".to_string(),
        }],
        sets: vec![vec![0, 1]],
    };
    assert!(!sender.check_wf());
    let good = Sender {
        keys: sender.keys.clone(),
        sets: vec![vec![0]],
    };
    assert!(good.check_wf());
}
