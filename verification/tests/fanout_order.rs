use timelock_vault::fanout::restore_order;

#[test]
fn reverse_completion_order_restores_input_order() {
    let completions = vec![(3usize, "d"), (2, "c"), (1, "b"), (0, "a")];
    let ordered = restore_order(4, completions);
    assert_eq!(ordered, vec!["a", "b", "c", "d"]);
}

#[test]
fn shuffled_completion_order_restores_input_order() {
    let completions = vec![(2usize, 20), (0, 0), (3, 30), (1, 10)];
    let ordered = restore_order(4, completions);
    assert_eq!(ordered, vec![0, 10, 20, 30]);
}

#[test]
fn in_order_completions_stay_in_order() {
    let completions = vec![(0usize, 'x'), (1, 'y')];
    assert_eq!(restore_order(2, completions), vec!['x', 'y']);
}

#[test]
fn empty_round_restores_nothing() {
    let completions: Vec<(usize, u8)> = vec![];
    assert_eq!(restore_order(0, completions), Vec::<u8>::new());
}
