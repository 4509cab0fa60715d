use ledger_mirror::account::AccountRecord;
use ledger_mirror::account::CanisterId;
use ledger_mirror::account::NamedCanister;
use ledger_mirror::map_store::AccountsDb;
use ledger_mirror::map_store::AccountsDbAsMap;
use ledger_mirror::map_store::SchemaLabel;
use ledger_mirror::proxy::AccountsDbAsProxy;
use ledger_mirror::proxy::MigrationError;
use ledger_mirror::proxy::MIGRATION_STEP_SIZE;

fn toy_account(index: u64, canisters: u64) -> AccountRecord {
    let mut named = Vec::new();
    for i in 0..canisters {
        named.push(NamedCanister {
            name: format!("canister_{i}"),
            canister_id: CanisterId::from_u64(i),
        });
    }
    AccountRecord {
        canisters: named,
        payload: index.to_be_bytes().to_vec(),
    }
}

fn empty_map_db() -> AccountsDb {
    AccountsDb::InMemoryMap(AccountsDbAsMap::default())
}

#[test]
fn migration_from_map_to_map_should_work() {
    let mut accounts_db = AccountsDbAsProxy::default();
    // Test migration when there are no accounts, repeat with a few accounts,
    // a few more and so on.
    let mut toy_account_index: u64 = 0;
    let canisters_per_toy_account = 4;
    for _ in 0..2 {
        let new_accounts_db = empty_map_db();
        let before = accounts_db.range();
        let len = accounts_db.db_accounts_len();
        let expected_steps_needed =
            (len + u64::from(MIGRATION_STEP_SIZE) - 1) / u64::from(MIGRATION_STEP_SIZE) + 1;
        let steps =
            AccountsDbAsProxy::migration_steps_should_work(&mut accounts_db, new_accounts_db);
        assert_eq!(steps, expected_steps_needed);
        assert!(
            !accounts_db.migration_in_progress(),
            "After completing a migration, there should be no migration in progress"
        );
        assert_eq!(accounts_db.migration_countdown(), 0);
        assert_eq!(accounts_db.range(), before);
        assert_eq!(accounts_db.db_accounts_len(), len);
        // Add a few more accounts.
        for _ in 0..3 {
            toy_account_index += 1;
            let toy_account = toy_account(toy_account_index, canisters_per_toy_account);
            accounts_db.db_insert_account(toy_account_index.to_be_bytes().to_vec(), toy_account);
        }
    }
}

#[test]
fn migrating_zero_accounts_takes_exactly_one_step() {
    let mut db = AccountsDbAsProxy::default();
    let r = db.start_migrating_accounts_to(empty_map_db());
    assert!(r.is_ok());
    assert!(db.migration_in_progress());
    assert_eq!(db.migration_countdown(), 1);
    db.step_migration();
    assert!(!db.migration_in_progress());
    assert_eq!(db.migration_countdown(), 0);
    assert_eq!(db.db_accounts_len(), 0);
}

#[test]
fn migration_moves_step_size_accounts_at_a_time() {
    let mut db = AccountsDbAsProxy::default();
    let n: u64 = 2 * u64::from(MIGRATION_STEP_SIZE) + 500;
    for i in 0..n {
        db.db_insert_account(i.to_be_bytes().to_vec(), toy_account(i, 0));
    }
    let before = db.range();
    db.start_migrating_accounts_to(empty_map_db()).unwrap();
    // ceil(n / step) + 1 steps: 2 full chunks, one partial, one swap.
    assert_eq!(db.migration_countdown(), 4);
    db.step_migration();
    assert_eq!(db.db_accounts_len(), n, "contents must not change mid-migration");
    assert_eq!(db.migration_countdown(), 3);
    db.step_migration();
    db.step_migration();
    // Everything has moved, but the swap has not run yet.
    assert!(db.migration_in_progress());
    assert_eq!(db.migration_countdown(), 1);
    assert_eq!(db.range(), before);
    db.step_migration();
    assert!(!db.migration_in_progress());
    assert_eq!(db.migration_countdown(), 0);
    assert_eq!(db.range(), before);
    // Idempotent tail: further steps change nothing.
    db.step_migration();
    assert!(!db.migration_in_progress());
    assert_eq!(db.range(), before);
}

#[test]
fn migration_is_transparent_to_interleaved_operations() {
    let mut db = AccountsDbAsProxy::default();
    let mut reference = AccountsDbAsProxy::default();
    for i in 0..25u64 {
        let key = (i * 7 % 31).to_be_bytes().to_vec();
        db.db_insert_account(key.clone(), toy_account(i, 2));
        reference.db_insert_account(key, toy_account(i, 2));
    }
    assert_eq!(db.range(), reference.range());
    db.start_migrating_accounts_to(empty_map_db()).unwrap();
    let mut op: u64 = 0;
    while db.migration_in_progress() {
        assert!(op < 1000, "the migration must eventually complete");
        match op % 4 {
            0 => db.step_migration(),
            // Stop inserting after a few rounds so the migration can drain.
            1 if op >= 8 => db.step_migration(),
            1 => {
                // Insert the same fresh record into both stores.
                let key = (1000 + op).to_be_bytes().to_vec();
                db.db_insert_account(key.clone(), toy_account(op, 1));
                reference.db_insert_account(key, toy_account(op, 1));
            }
            2 => {
                // Update an existing record identically in both stores.
                let key = (op % 31).to_be_bytes().to_vec();
                if let Some(mut account) = db.db_get_account(&key) {
                    account.canisters.push(NamedCanister {
                        name: "test".to_string(),
                        canister_id: CanisterId::from_u64(op),
                    });
                    db.db_insert_account(key.clone(), account.clone());
                    reference.db_insert_account(key, account);
                }
            }
            _ => {
                // Delete the same key from both stores.
                let key = (op % 31).to_be_bytes().to_vec();
                let a = db.db_remove_account(&key);
                let b = reference.db_remove_account(&key);
                assert_eq!(a, b);
            }
        }
        assert_eq!(db.range(), reference.range());
        assert_eq!(db.db_accounts_len(), reference.db_accounts_len());
        op += 1;
    }
    assert_eq!(db.range(), reference.range());
    assert_eq!(db.schema_label(), SchemaLabel::InMemoryMap);
}

#[test]
fn reads_and_writes_route_correctly_mid_migration() {
    let mut db = AccountsDbAsProxy::default();
    for i in 1..10u64 {
        db.db_insert_account(i.to_be_bytes().to_vec(), toy_account(i, 1));
    }
    db.start_migrating_accounts_to(empty_map_db()).unwrap();
    db.step_migration();
    // All nine accounts moved; the cursor now sits at the greatest key.
    assert!(db.migration_in_progress());
    // A key at or below the cursor routes to the target, one above it to the
    // current backend; both stay visible through the proxy.
    let low_key = 0u64.to_be_bytes().to_vec();
    let high_key = 20u64.to_be_bytes().to_vec();
    db.db_insert_account(low_key.clone(), toy_account(100, 1));
    db.db_insert_account(high_key.clone(), toy_account(200, 1));
    assert_eq!(db.db_accounts_len(), 11);
    assert_eq!(db.db_get_account(&low_key), Some(toy_account(100, 1)));
    assert_eq!(db.db_get_account(&high_key), Some(toy_account(200, 1)));
    assert_eq!(db.db_get_account(&5u64.to_be_bytes().to_vec()), Some(toy_account(5, 1)));
    assert!(db.db_remove_account(&low_key));
    assert!(!db.db_remove_account(&low_key), "removing an absent key is a no-op");
    assert_eq!(db.db_accounts_len(), 10);
    // The range is the ordered merge of both backends.
    let keys: Vec<Vec<u8>> = db.range().into_iter().map(|(k, _)| k).collect();
    let mut sorted = keys.clone();
    sorted.sort();
    assert_eq!(keys, sorted);
    assert_eq!(keys.len(), 10);
}

#[test]
fn start_migrating_rejects_non_empty_target() {
    let mut db = AccountsDbAsProxy::default();
    let mut target = AccountsDbAsMap::default();
    target.insert_account(vec![1], toy_account(1, 0));
    let r = db.start_migrating_accounts_to(AccountsDb::InMemoryMap(target));
    assert_eq!(r, Err(MigrationError::TargetNotEmpty));
    assert!(!db.migration_in_progress());
}

#[test]
fn start_migrating_rejects_concurrent_migration() {
    let mut db = AccountsDbAsProxy::default();
    db.db_insert_account(vec![1], toy_account(1, 0));
    assert!(db.start_migrating_accounts_to(empty_map_db()).is_ok());
    let r = db.start_migrating_accounts_to(empty_map_db());
    assert_eq!(r, Err(MigrationError::MigrationAlreadyInProgress));
    assert!(db.migration_in_progress());
    assert_eq!(db.db_accounts_len(), 1);
}

#[test]
fn bounded_range_merges_both_backends_in_order() {
    let mut db = AccountsDbAsProxy::default();
    for i in 0..8u64 {
        db.db_insert_account(i.to_be_bytes().to_vec(), toy_account(i, 0));
    }
    db.start_migrating_accounts_to(empty_map_db()).unwrap();
    db.step_migration();
    // All eight accounts moved; one more lands above the cursor, in the
    // current backend.
    assert!(db.migration_in_progress());
    db.db_insert_account(9u64.to_be_bytes().to_vec(), toy_account(9, 0));
    let lower = 2u64.to_be_bytes().to_vec();
    let upper = 9u64.to_be_bytes().to_vec();
    let within = db.range_between(Some(&lower), Some(&upper));
    let keys: Vec<u64> = within
        .iter()
        .map(|(k, _)| u64::from_be_bytes(k.as_slice().try_into().unwrap()))
        .collect();
    assert_eq!(keys, vec![2, 3, 4, 5, 6, 7, 9]);
    // Unbounded on both sides, it is the full ordered range.
    assert_eq!(db.range_between(None, None), db.range());
}

#[test]
fn insert_overwrites_and_get_misses_absent_keys() {
    let mut db = AccountsDbAsProxy::default();
    db.db_insert_account(vec![1, 2], toy_account(1, 1));
    db.db_insert_account(vec![1, 2], toy_account(2, 3));
    assert_eq!(db.db_accounts_len(), 1);
    assert_eq!(db.db_get_account(&vec![1, 2]), Some(toy_account(2, 3)));
    assert_eq!(db.db_get_account(&vec![9]), None);
}

#[test]
fn removing_the_cursor_key_mid_migration_is_harmless() {
    let mut db = AccountsDbAsProxy::default();
    for i in 0..5u64 {
        db.db_insert_account(i.to_be_bytes().to_vec(), toy_account(i, 1));
    }
    db.start_migrating_accounts_to(empty_map_db()).unwrap();
    db.step_migration();
    assert!(db.migration_in_progress());
    // The cursor now sits at the greatest migrated key; even that key may be
    // removed while the migration is still in flight.
    let cursor_key = 4u64.to_be_bytes().to_vec();
    assert!(db.db_remove_account(&cursor_key));
    assert_eq!(db.db_accounts_len(), 4);
    db.step_migration();
    assert!(!db.migration_in_progress());
    assert_eq!(db.db_accounts_len(), 4);
    assert_eq!(db.db_get_account(&cursor_key), None);
}
