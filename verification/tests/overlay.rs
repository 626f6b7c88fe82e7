use evaporchain_execution::ledger::Account;
use evaporchain_execution::overlay::{key_lt, BaseRead, KeyedStore, StateOverlay};
use evaporchain_execution::partition::AccessKey;

fn id(byte: u8) -> [u8; 32] {
    let mut a = [0u8; 32];
    a[0] = byte;
    a
}

fn account(byte: u8, balance: u64) -> Account {
    Account {
        address: id(byte),
        balance,
        nonce: 0,
        storage_deposit: 0,
        storage_bytes: 0,
        last_touched_epoch: 0,
    }
}

#[test]
fn key_order_is_lexicographic() {
    assert!(key_lt(&id(1), &id(2)));
    assert!(!key_lt(&id(2), &id(1)));
    assert!(!key_lt(&id(3), &id(3)));
    let mut a = id(1);
    a[31] = 9;
    assert!(key_lt(&id(1), &a), "the first differing byte decides");
    assert!(key_lt(&a, &id(2)));
}

#[test]
fn keyed_store_reads_back_writes() {
    let mut s: KeyedStore<u64> = KeyedStore::new();
    s.insert(id(5), 50);
    s.insert(id(1), 10);
    s.insert(id(5), 55);
    assert_eq!(s.get(&id(5)), Some(&55));
    assert_eq!(s.get(&id(1)), Some(&10));
    assert_eq!(s.get(&id(2)), None);
    assert!(s.contains(&id(1)));
    assert_eq!(s.remove(&id(1)), Some(10));
    assert_eq!(s.remove(&id(1)), None);
    assert!(!s.contains(&id(1)));
    let e = s.into_entries();
    assert_eq!(e, vec![(id(5), 55)]);
}

#[test]
fn keyed_store_lists_in_ascending_order() {
    let mut s: KeyedStore<u8> = KeyedStore::new();
    for b in [9u8, 3, 7, 1, 5] {
        s.insert(id(b), b);
    }
    let keys: Vec<u8> = s.into_entries().iter().map(|(k, _)| k[0]).collect();
    assert_eq!(keys, vec![1, 3, 5, 7, 9]);
}

#[test]
fn get_or_create_makes_a_fresh_account_once() {
    let mut o: StateOverlay<String, u8> = StateOverlay::new();
    let a = o.get_or_create_account(&id(4));
    assert_eq!(a, account(4, 0));
    let mut b = a;
    b.balance = 70;
    o.put_account(b);
    assert_eq!(o.get_or_create_account(&id(4)).balance, 70);
    assert_eq!(o.delete_account(&id(4)), Some(b));
    assert_eq!(o.get_account(&id(4)), None);
}

#[test]
fn populate_copies_base_state_without_recording_creation() {
    let mut o: StateOverlay<String, u8> = StateOverlay::new();
    o.populate_key(&AccessKey::Account(id(1)), BaseRead::Account(Some(account(1, 100))));
    o.populate_key(&AccessKey::Account(id(2)), BaseRead::Account(None));
    o.populate_key(&AccessKey::Object(id(3)), BaseRead::Object(Some("obj".to_string()), Some(7)));
    o.populate_key(&AccessKey::ContractEngine, BaseRead::Engine);
    assert_eq!(o.get_account(&id(1)).map(|a| a.balance), Some(100));
    assert_eq!(o.get_account(&id(2)), None);
    assert_eq!(o.get_object(&id(3)), Some(&"obj".to_string()));
    assert_eq!(o.get_ghost(&id(3)), Some(&7));
    let plan = o.into_merge_plan();
    assert!(plan.deleted_objects.is_empty());
    assert_eq!(plan.accounts.len(), 1);
    assert_eq!(plan.objects.len(), 1);
}

#[test]
fn merge_plan_orders_writes_by_key() {
    let mut o: StateOverlay<String, u8> = StateOverlay::new();
    o.put_account(account(9, 1));
    o.put_account(account(2, 2));
    o.put_object(id(8), "b".to_string());
    o.put_object(id(4), "a".to_string());
    o.delete_object(&id(6));
    o.delete_object(&id(4));
    o.put_ghost(id(5), 1);
    o.remove_ghost(&id(3));
    let plan = o.into_merge_plan();
    let account_keys: Vec<u8> = plan.accounts.iter().map(|(k, _)| k[0]).collect();
    assert_eq!(account_keys, vec![2, 9]);
    assert_eq!(plan.deleted_objects, vec![id(4), id(6)]);
    assert_eq!(plan.objects, vec![(id(8), "b".to_string())]);
    assert_eq!(plan.removed_ghosts, vec![id(3)]);
    assert_eq!(plan.ghosts, vec![(id(5), 1)]);
}

#[test]
fn deleted_then_recreated_object_survives_the_merge() {
    let mut o: StateOverlay<String, u8> = StateOverlay::new();
    o.put_object(id(1), "old".to_string());
    assert_eq!(o.delete_object(&id(1)), Some("old".to_string()));
    o.put_object(id(1), "new".to_string());
    let plan = o.into_merge_plan();
    // Deletions are applied before puts, so the object is written back.
    assert_eq!(plan.deleted_objects, vec![id(1)]);
    assert_eq!(plan.objects, vec![(id(1), "new".to_string())]);
}
