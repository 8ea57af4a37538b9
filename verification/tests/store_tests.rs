use taskstore::store::{Error, Store};
use taskstore::MAX_CONTENT_BYTES;

const PROGRAM_ID: [u8; 32] = [7u8; 32];
const DEPOSIT: u64 = 1_000;

fn owner_a() -> [u8; 32] {
    [1u8; 32]
}

fn owner_b() -> [u8; 32] {
    [2u8; 32]
}

fn funded_store() -> Store {
    let mut store = Store::new(PROGRAM_ID, DEPOSIT);
    assert!(store.open_account(owner_a(), 10_000));
    assert!(store.open_account(owner_b(), 10_000));
    store
}

fn create(store: &mut Store, owner: [u8; 32], content: &[u8]) -> Result<[u8; 32], Error> {
    store
        .try_add_task(owner, content.to_vec())
        .expect("no viable address for these seeds")
}

#[test]
fn derive_is_deterministic() {
    let content = b"buy milk".to_vec();
    let first = taskstore::deriver::derive(&PROGRAM_ID, &owner_a(), &content).unwrap();
    let second = taskstore::deriver::derive(&PROGRAM_ID, &owner_a(), &content).unwrap();
    assert_eq!(first.0, second.0);
    assert_eq!(first.1, second.1);
}

#[test]
fn derive_depends_on_its_inputs() {
    let content = b"buy milk".to_vec();
    let other_content = b"buy bread".to_vec();
    let a = taskstore::deriver::derive(&PROGRAM_ID, &owner_a(), &content).unwrap();
    let b = taskstore::deriver::derive(&PROGRAM_ID, &owner_a(), &other_content).unwrap();
    let c = taskstore::deriver::derive(&PROGRAM_ID, &owner_b(), &content).unwrap();
    assert_ne!(a.0, b.0);
    assert_ne!(a.0, c.0);
    assert_ne!(a.0, owner_a());
}

#[test]
fn create_stores_an_unmarked_record() {
    let mut store = funded_store();
    let addr = create(&mut store, owner_a(), b"buy milk").unwrap();
    let task = store.get_task(&addr).unwrap();
    assert_eq!(task.authority, owner_a());
    assert_eq!(task.content, b"buy milk".to_vec());
    assert!(!task.marked);
    assert_eq!(store.balance(&owner_a()), 10_000 - DEPOSIT);
}

#[test]
fn duplicate_creation_is_rejected() {
    let mut store = funded_store();
    create(&mut store, owner_a(), b"buy milk").unwrap();
    let second = create(&mut store, owner_a(), b"buy milk");
    assert_eq!(second, Err(Error::DuplicateRecord));
}

#[test]
fn same_content_different_owners_coexist() {
    let mut store = funded_store();
    let a = create(&mut store, owner_a(), b"buy milk").unwrap();
    let b = create(&mut store, owner_b(), b"buy milk").unwrap();
    assert_ne!(a, b);
    assert!(store.get_task(&a).is_some());
    assert!(store.get_task(&b).is_some());
}

#[test]
fn recreate_after_delete_succeeds() {
    let mut store = funded_store();
    let addr = create(&mut store, owner_a(), b"buy milk").unwrap();
    store.remove_task(owner_a(), addr).unwrap();
    assert!(store.get_task(&addr).is_none());
    let again = create(&mut store, owner_a(), b"buy milk").unwrap();
    assert_eq!(again, addr);
    assert!(!store.get_task(&again).unwrap().marked);
}

#[test]
fn toggle_pair_restores_the_flag() {
    let mut store = funded_store();
    let addr = create(&mut store, owner_a(), b"buy milk").unwrap();
    store.mark_task(owner_a(), addr).unwrap();
    assert!(store.get_task(&addr).unwrap().marked);
    store.mark_task(owner_a(), addr).unwrap();
    assert!(!store.get_task(&addr).unwrap().marked);
    store.mark_task(owner_a(), addr).unwrap();
    assert!(store.get_task(&addr).unwrap().marked);
}

#[test]
fn foreign_identity_cannot_toggle_or_delete() {
    let mut store = funded_store();
    let addr = create(&mut store, owner_a(), b"buy milk").unwrap();
    store.mark_task(owner_a(), addr).unwrap();

    assert_eq!(store.mark_task(owner_b(), addr), Err(Error::Unauthorized));
    assert_eq!(store.remove_task(owner_b(), addr), Err(Error::Unauthorized));

    let task = store.get_task(&addr).unwrap();
    assert_eq!(task.authority, owner_a());
    assert_eq!(task.content, b"buy milk".to_vec());
    assert!(task.marked);
}

#[test]
fn content_bound_is_exact() {
    let mut store = funded_store();
    let at_limit = vec![b'x'; MAX_CONTENT_BYTES];
    let over_limit = vec![b'x'; MAX_CONTENT_BYTES + 1];
    assert!(create(&mut store, owner_a(), &at_limit).is_ok());
    let rejected = create(&mut store, owner_a(), &over_limit);
    assert_eq!(rejected, Err(Error::ContentTooLarge));
}

#[test]
fn missing_record_is_reported() {
    let mut store = funded_store();
    let addr = taskstore::deriver::derive(&PROGRAM_ID, &owner_a(), &b"never created".to_vec())
        .unwrap()
        .0;
    assert_eq!(store.mark_task(owner_a(), addr), Err(Error::RecordNotFound));
    assert_eq!(store.remove_task(owner_a(), addr), Err(Error::RecordNotFound));
}

#[test]
fn underfunded_creation_is_rejected() {
    let mut store = Store::new(PROGRAM_ID, DEPOSIT);
    assert!(store.open_account(owner_a(), DEPOSIT - 1));
    let rejected = create(&mut store, owner_a(), b"buy milk");
    assert_eq!(rejected, Err(Error::InsufficientFunds));
    assert_eq!(store.balance(&owner_a()), DEPOSIT - 1);
}

#[test]
fn deposit_is_refunded_in_full() {
    let mut store = funded_store();
    let before = store.balance(&owner_a());
    let addr = create(&mut store, owner_a(), b"buy milk").unwrap();
    assert_eq!(store.balance(&owner_a()), before - DEPOSIT);
    store.remove_task(owner_a(), addr).unwrap();
    assert_eq!(store.balance(&owner_a()), before);
    assert_eq!(store.balance(&owner_b()), 10_000);
}

#[test]
fn full_lifecycle_scenario() {
    let mut store = funded_store();
    let a = owner_a();
    let b = owner_b();
    let balance_at_start = store.balance(&a);

    // A creates "buy milk": succeeds, unmarked.
    let addr = create(&mut store, a, b"buy milk").unwrap();
    assert!(!store.get_task(&addr).unwrap().marked);

    // A tries the identical content again: duplicate.
    assert_eq!(create(&mut store, a, b"buy milk"), Err(Error::DuplicateRecord));

    // A toggles: marked.
    store.mark_task(a, addr).unwrap();
    assert!(store.get_task(&addr).unwrap().marked);

    // B attempts to toggle A's record: unauthorized, flag untouched.
    assert_eq!(store.mark_task(b, addr), Err(Error::Unauthorized));
    assert!(store.get_task(&addr).unwrap().marked);

    // A deletes: the record is gone and the deposit is back.
    store.remove_task(a, addr).unwrap();
    assert!(store.get_task(&addr).is_none());
    assert_eq!(store.balance(&a), balance_at_start);

    // A recreates the same content: succeeds, unmarked again.
    let again = create(&mut store, a, b"buy milk").unwrap();
    assert_eq!(again, addr);
    assert!(!store.get_task(&again).unwrap().marked);
}

#[test]
fn open_account_is_once_per_identity() {
    let mut store = Store::new(PROGRAM_ID, DEPOSIT);
    assert!(store.open_account(owner_a(), 5));
    assert!(!store.open_account(owner_a(), 99));
    assert_eq!(store.balance(&owner_a()), 5);
}

#[test]
fn derivation_matches_the_platform_for_short_content() {
    // A content no longer than one seed goes through the derivation exactly
    // as a single seed would.
    let content = b"buy milk".to_vec();
    let pid = solana_pubkey::Pubkey::new_from_array(PROGRAM_ID);
    let owner = owner_a();
    let expected = solana_pubkey::Pubkey::find_program_address(
        &[b"task", &owner, &content],
        &pid,
    );
    let got = taskstore::deriver::derive(&PROGRAM_ID, &owner, &content).unwrap();
    assert_eq!(got.0, expected.0.to_bytes());
    assert_eq!(got.1, expected.1);
}
