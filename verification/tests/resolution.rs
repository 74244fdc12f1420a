use account_resolver::accounts::{AccountMeta, InstructionAccount, PubKey, ResolutionError};
use account_resolver::resolver::{
    canonical_index_of, deduplicate_accounts_hashmap, deduplicate_accounts_hashmap_as_tuple,
    deduplicate_accounts_nested, prepare_instruction_new, resolve,
};

fn meta(key: &str, is_signer: bool, is_writable: bool) -> AccountMeta {
    AccountMeta { pubkey: PubKey(key.to_string()), is_signer, is_writable }
}

fn mixed_input() -> Vec<AccountMeta> {
    vec![
        meta("Account1", true, false),
        meta("Account2", false, false),
        meta("Account3", false, false),
        meta("Account2", true, true),
        meta("Account1", false, true),
    ]
}

#[test]
fn dedup_nested_mixed_flags() {
    let deduplicated = deduplicate_accounts_nested(mixed_input());
    let expected =
        vec![meta("Account1", true, true), meta("Account2", true, true), meta("Account3", false, false)];
    assert_eq!(deduplicated, expected);
}

#[test]
fn dedup_hashmap_mixed_flags() {
    let deduplicated = deduplicate_accounts_hashmap(mixed_input());
    let expected =
        vec![meta("Account1", true, true), meta("Account2", true, true), meta("Account3", false, false)];
    assert_eq!(deduplicated, expected);
}

#[test]
fn dedup_hashmap_as_tuple_mixed_flags() {
    let deduplicated = deduplicate_accounts_hashmap_as_tuple(mixed_input());
    let expected =
        vec![meta("Account1", true, true), meta("Account2", true, true), meta("Account3", false, false)];
    assert_eq!(deduplicated, expected);
}

#[test]
fn resolve_mixed_flags_fourth_reference() {
    let resolved = resolve(&mixed_input()).unwrap();
    assert_eq!(resolved.len(), 5);
    let fourth = resolved[3];
    assert_eq!(fourth.index_in_transaction, 1);
    assert_eq!(fourth.index_in_caller, 1);
    assert_eq!(fourth.index_in_callee, 3);
    assert!(fourth.is_signer);
    assert!(fourth.is_writable);
}

#[test]
fn resolve_merged_flags_grow_along_the_pass() {
    let resolved = resolve(&mixed_input()).unwrap();
    // The first reference to Account1 sees only its own flags; the last sees
    // the fully merged ones.
    assert!(resolved[0].is_signer);
    assert!(!resolved[0].is_writable);
    assert_eq!(resolved[4].index_in_transaction, 0);
    assert_eq!(resolved[4].index_in_callee, 4);
    assert!(resolved[4].is_signer);
    assert!(resolved[4].is_writable);
}

#[test]
fn prepare_instruction_mixed_flags() {
    let canonical = prepare_instruction_new(&mixed_input()).unwrap();
    let expected = vec![
        InstructionAccount {
            index_in_transaction: 0,
            index_in_caller: 0,
            index_in_callee: 0,
            is_signer: true,
            is_writable: true,
        },
        InstructionAccount {
            index_in_transaction: 1,
            index_in_caller: 1,
            index_in_callee: 1,
            is_signer: true,
            is_writable: true,
        },
        InstructionAccount {
            index_in_transaction: 2,
            index_in_caller: 2,
            index_in_callee: 2,
            is_signer: false,
            is_writable: false,
        },
    ];
    assert_eq!(canonical, expected);
}

#[test]
fn repeated_key_shares_its_transaction_index() {
    let references = vec![meta("A", true, false), meta("B", false, true), meta("A", false, true)];
    let deduplicated = deduplicate_accounts_nested(references.clone());
    let expected = vec![meta("A", true, true), meta("B", false, true)];
    assert_eq!(deduplicated, expected);
    let resolved = resolve(&references).unwrap();
    assert_eq!(resolved[2].index_in_transaction, resolved[0].index_in_transaction);
    assert_eq!(resolved[0].index_in_transaction, 0);
}

#[test]
fn empty_input_resolves_to_nothing() {
    let references: Vec<AccountMeta> = Vec::new();
    assert_eq!(deduplicate_accounts_nested(Vec::new()), Vec::new());
    assert_eq!(deduplicate_accounts_hashmap(Vec::new()), Vec::new());
    assert_eq!(deduplicate_accounts_hashmap_as_tuple(Vec::new()), Vec::new());
    let resolved = resolve(&references).unwrap();
    assert!(resolved.is_empty());
    let canonical = prepare_instruction_new(&references).unwrap();
    assert!(canonical.is_empty());
}

#[test]
fn all_unique_keys_keep_their_positions() {
    let references =
        vec![meta("K0", true, false), meta("K1", false, true), meta("K2", false, false), meta("K3", true, true)];
    let deduplicated = deduplicate_accounts_nested(references.clone());
    assert_eq!(deduplicated.len(), 4);
    let resolved = resolve(&references).unwrap();
    let mut seen = [false; 4];
    for (position, account) in resolved.iter().enumerate() {
        assert_eq!(account.index_in_transaction as usize, position);
        assert_eq!(account.index_in_transaction, account.index_in_callee);
        assert!(!seen[account.index_in_transaction as usize]);
        seen[account.index_in_transaction as usize] = true;
    }
    assert!(seen.iter().all(|&hit| hit));
}

#[test]
fn single_key_repeated_with_alternating_flags() {
    let references = vec![
        meta("OnlyKey", true, false),
        meta("OnlyKey", false, true),
        meta("OnlyKey", true, false),
        meta("OnlyKey", false, true),
        meta("OnlyKey", false, false),
    ];
    let deduplicated = deduplicate_accounts_nested(references.clone());
    assert_eq!(deduplicated, vec![meta("OnlyKey", true, true)]);
    let resolved = resolve(&references).unwrap();
    assert_eq!(resolved.len(), 5);
    for account in &resolved {
        assert_eq!(account.index_in_transaction, 0);
    }
}

#[test]
fn single_key_never_signer_stays_unsigned() {
    let references = vec![meta("OnlyKey", false, true), meta("OnlyKey", false, false)];
    let deduplicated = deduplicate_accounts_hashmap(references);
    assert_eq!(deduplicated, vec![meta("OnlyKey", false, true)]);
}

#[test]
fn resolution_is_deterministic() {
    let first = resolve(&mixed_input()).unwrap();
    let second = resolve(&mixed_input()).unwrap();
    assert_eq!(first, second);
}

#[test]
fn rededuplication_is_a_fixed_point() {
    let canonical = deduplicate_accounts_nested(mixed_input());
    let again = deduplicate_accounts_nested(canonical.clone());
    assert_eq!(again, canonical);
}

#[test]
fn canonical_index_of_known_key() {
    let canonical = deduplicate_accounts_nested(mixed_input());
    let index = canonical_index_of(&canonical, &PubKey("Account3".to_string())).unwrap();
    assert_eq!(index, 2);
}

#[test]
fn canonical_index_of_unknown_key_fails() {
    let canonical = deduplicate_accounts_nested(mixed_input());
    let outcome = canonical_index_of(&canonical, &PubKey("Absent".to_string()));
    match outcome {
        Err(ResolutionError::UnknownAccount(key)) => assert_eq!(key.0, "Absent"),
        other => panic!("expected an unknown-account failure, got {:?}", other),
    }
}
