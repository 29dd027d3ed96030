use timelock_vault::vault::{generate_standard_vault_sets, get_vault_conf, VaultConf};

#[test]
fn generate_three_choose_two_is_lexicographic() {
    let sets = generate_standard_vault_sets(3, 2).unwrap();
    assert_eq!(sets, vec![vec![0, 1], vec![0, 2], vec![1, 2]]);
}

#[test]
fn generate_counts_match_binomial() {
    assert_eq!(generate_standard_vault_sets(4, 2).unwrap().len(), 6);
    assert_eq!(generate_standard_vault_sets(5, 3).unwrap().len(), 10);
    assert_eq!(generate_standard_vault_sets(6, 1).unwrap().len(), 6);
    assert_eq!(generate_standard_vault_sets(6, 6).unwrap().len(), 1);
}

#[test]
fn generate_one_of_one() {
    let sets = generate_standard_vault_sets(1, 1).unwrap();
    assert_eq!(sets, vec![vec![0]]);
}

#[test]
fn generate_rejects_zero_required() {
    assert!(generate_standard_vault_sets(3, 0).is_err());
}

#[test]
fn generate_rejects_required_above_total() {
    assert!(generate_standard_vault_sets(2, 3).is_err());
}

#[test]
fn classify_standard_round_trip() {
    for total in 1..6u64 {
        for required in 1..=total {
            let sets = generate_standard_vault_sets(total, required).unwrap();
            assert_eq!(
                get_vault_conf(&sets, total),
                VaultConf::Standard { total, required }
            );
        }
    }
}

#[test]
fn classify_ignores_order_inside_and_between_combinations() {
    let shuffled = vec![vec![2, 1], vec![0, 2], vec![1, 0]];
    assert_eq!(
        get_vault_conf(&shuffled, 3),
        VaultConf::Standard {
            total: 3,
            required: 2
        }
    );
}

#[test]
fn classify_mixed_sizes_is_custom() {
    let sets = vec![vec![0], vec![0, 1]];
    assert_eq!(get_vault_conf(&sets, 2), VaultConf::Custom);
}

#[test]
fn classify_incomplete_family_is_custom() {
    let sets = vec![vec![0, 1]];
    assert_eq!(get_vault_conf(&sets, 3), VaultConf::Custom);
}

#[test]
fn classify_empty_vault_is_custom() {
    let sets: Vec<Vec<u64>> = vec![];
    assert_eq!(get_vault_conf(&sets, 0), VaultConf::Custom);
}
