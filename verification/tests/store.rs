use customer_store::customer::Customer;
use customer_store::store::{CustomerStore, StoreError};

fn record(guid: &str, name: &str) -> Customer {
    Customer {
        guid: guid.to_string(),
        name: name.to_string(),
        email: format!("{}@example.com", name.to_lowercase()),
        address: format!("{} Main Street", name.len()),
    }
}

fn key(guid: &str) -> String {
    guid.to_string()
}

fn store_of(records: Vec<Customer>) -> CustomerStore {
    let mut store = CustomerStore::new();
    for customer in records {
        assert_eq!(store.create(customer), Ok(()));
    }
    store
}

#[test]
fn new_store_is_empty() {
    let store = CustomerStore::new();
    assert_eq!(store.len(), 0);
    assert_eq!(store.list(), Vec::<Customer>::new());
}

#[test]
fn default_store_is_empty() {
    let store = CustomerStore::default();
    assert_eq!(store.len(), 0);
    assert_eq!(store.list(), Vec::<Customer>::new());
}

#[test]
fn create_appends_in_insertion_order() {
    let mut store = CustomerStore::new();
    assert_eq!(store.create(record("c", "Carol")), Ok(()));
    assert_eq!(store.create(record("a", "Alice")), Ok(()));
    assert_eq!(store.create(record("b", "Bob")), Ok(()));
    assert_eq!(store.len(), 3);
    assert_eq!(
        store.list(),
        vec![record("c", "Carol"), record("a", "Alice"), record("b", "Bob")]
    );
}

#[test]
fn create_rejects_a_guid_that_is_present() {
    let mut store = store_of(vec![record("a", "Alice"), record("b", "Bob")]);
    assert_eq!(
        store.create(record("a", "Mallory")),
        Err(StoreError::DuplicateKey)
    );
    assert_eq!(
        store.create(record("b", "Bob")),
        Err(StoreError::DuplicateKey)
    );
    assert_eq!(store.list(), vec![record("a", "Alice"), record("b", "Bob")]);
}

#[test]
fn read_finds_the_record_with_all_its_fields() {
    let store = store_of(vec![record("a", "Alice"), record("b", "Bob")]);
    assert_eq!(store.read(&key("b")), Ok(&record("b", "Bob")));
    assert_eq!(store.read(&key("a")), Ok(&record("a", "Alice")));
}

#[test]
fn read_of_an_absent_guid_is_not_found() {
    let store = store_of(vec![record("a", "Alice")]);
    assert_eq!(store.read(&key("z")), Err(StoreError::NotFound));
    assert_eq!(
        CustomerStore::new().read(&key("a")),
        Err(StoreError::NotFound)
    );
}

#[test]
fn update_replaces_the_whole_record_in_place() {
    let mut store = store_of(vec![
        record("a", "Alice"),
        record("b", "Bob"),
        record("c", "Carol"),
    ]);
    let new_b = Customer {
        guid: key("b"),
        name: key("Robert"),
        email: String::new(),
        address: key("elsewhere"),
    };
    assert_eq!(store.update(&key("b"), new_b.clone()), Ok(()));
    assert_eq!(
        store.list(),
        vec![record("a", "Alice"), new_b.clone(), record("c", "Carol")]
    );
    assert_eq!(store.read(&key("b")), Ok(&new_b));
}

#[test]
fn update_of_an_absent_guid_is_not_found_and_changes_nothing() {
    let mut store = store_of(vec![record("a", "Alice")]);
    assert_eq!(
        store.update(&key("z"), record("z", "Zed")),
        Err(StoreError::NotFound)
    );
    assert_eq!(
        store.update(&key("z"), record("a", "Zed")),
        Err(StoreError::NotFound)
    );
    assert_eq!(store.list(), vec![record("a", "Alice")]);
}

#[test]
fn update_takes_the_guid_of_the_new_record_as_it_comes() {
    let mut store = store_of(vec![record("a", "Alice"), record("b", "Bob")]);
    assert_eq!(store.update(&key("a"), record("x", "Xena")), Ok(()));
    assert_eq!(store.list(), vec![record("x", "Xena"), record("b", "Bob")]);
    assert_eq!(store.read(&key("a")), Err(StoreError::NotFound));
    assert_eq!(store.read(&key("x")), Ok(&record("x", "Xena")));
}

#[test]
fn update_to_the_guid_of_another_record_leaves_both() {
    let mut store = store_of(vec![record("a", "Alice"), record("b", "Bob")]);
    assert_eq!(store.update(&key("a"), record("b", "Second Bob")), Ok(()));
    assert_eq!(
        store.list(),
        vec![record("b", "Second Bob"), record("b", "Bob")]
    );
    assert_eq!(store.len(), 2);
}

#[test]
fn read_and_update_go_by_the_first_of_two_records_with_one_guid() {
    let mut store = store_of(vec![record("a", "Alice"), record("b", "Bob")]);
    assert_eq!(store.update(&key("a"), record("b", "Second Bob")), Ok(()));

    assert_eq!(store.read(&key("b")), Ok(&record("b", "Second Bob")));
    assert_eq!(store.update(&key("b"), record("b", "Third Bob")), Ok(()));
    assert_eq!(
        store.list(),
        vec![record("b", "Third Bob"), record("b", "Bob")]
    );
    assert_eq!(
        store.create(record("b", "Fourth Bob")),
        Err(StoreError::DuplicateKey)
    );
}

#[test]
fn delete_removes_the_record_and_keeps_the_order_of_the_rest() {
    let mut store = store_of(vec![
        record("a", "Alice"),
        record("b", "Bob"),
        record("c", "Carol"),
        record("d", "Dave"),
    ]);
    store.delete(&key("b"));
    assert_eq!(
        store.list(),
        vec![record("a", "Alice"), record("c", "Carol"), record("d", "Dave")]
    );
    store.delete(&key("a"));
    assert_eq!(store.list(), vec![record("c", "Carol"), record("d", "Dave")]);
    store.delete(&key("d"));
    assert_eq!(store.list(), vec![record("c", "Carol")]);
    store.delete(&key("c"));
    assert_eq!(store.len(), 0);
}

#[test]
fn delete_of_an_absent_guid_changes_nothing() {
    let mut store = store_of(vec![record("a", "Alice"), record("b", "Bob")]);
    store.delete(&key("z"));
    assert_eq!(store.list(), vec![record("a", "Alice"), record("b", "Bob")]);

    let mut empty = CustomerStore::new();
    empty.delete(&key("a"));
    assert_eq!(empty.len(), 0);
}

#[test]
fn delete_removes_every_record_with_the_guid() {
    let mut store = store_of(vec![
        record("a", "Alice"),
        record("b", "Bob"),
        record("c", "Carol"),
    ]);
    assert_eq!(store.update(&key("a"), record("c", "First Carol")), Ok(()));
    assert_eq!(store.len(), 3);
    store.delete(&key("c"));
    assert_eq!(store.list(), vec![record("b", "Bob")]);
}

#[test]
fn a_deleted_guid_can_be_created_again() {
    let mut store = store_of(vec![record("a", "Alice"), record("b", "Bob")]);
    store.delete(&key("a"));
    assert_eq!(store.create(record("a", "Anna")), Ok(()));
    assert_eq!(store.list(), vec![record("b", "Bob"), record("a", "Anna")]);
}

#[test]
fn guids_are_compared_character_by_character() {
    let mut store = store_of(vec![record("abc", "Alice")]);
    assert_eq!(store.create(record("ABC", "Upper")), Ok(()));
    assert_eq!(store.create(record("abc ", "Spaced")), Ok(()));
    assert_eq!(store.create(record("", "Nameless")), Ok(()));
    assert_eq!(store.create(record("ab", "Shorter")), Ok(()));
    assert_eq!(store.create(record("\u{e4}bc", "Umlaut")), Ok(()));
    assert_eq!(store.len(), 6);

    assert_eq!(
        store.create(record("", "Again")),
        Err(StoreError::DuplicateKey)
    );
    assert_eq!(store.read(&key("")), Ok(&record("", "Nameless")));
    assert_eq!(store.read(&key("ABC")), Ok(&record("ABC", "Upper")));
    assert_eq!(store.read(&key("Abc")), Err(StoreError::NotFound));
    assert_eq!(store.read(&key("a")), Err(StoreError::NotFound));

    store.delete(&key("abc"));
    assert_eq!(store.len(), 5);
    assert_eq!(store.read(&key("abc ")), Ok(&record("abc ", "Spaced")));
}

#[test]
fn only_the_guid_decides_what_a_duplicate_is() {
    let mut store = store_of(vec![record("a", "Alice")]);
    let same_fields_other_guid = Customer {
        guid: key("b"),
        ..record("a", "Alice")
    };
    assert_eq!(store.create(same_fields_other_guid.clone()), Ok(()));
    assert_eq!(store.list(), vec![record("a", "Alice"), same_fields_other_guid]);
}

#[test]
fn a_clone_of_a_customer_is_equal_to_it() {
    let customer = record("a", "Alice");
    let copy = customer.clone();
    assert_eq!(copy, customer);
    assert_eq!(copy.guid, "a");
    assert_eq!(copy.name, "Alice");
    assert_eq!(copy.email, "alice@example.com");
    assert_eq!(copy.address, "5 Main Street");
}

#[test]
fn has_guid_tells_the_guid_of_the_record() {
    let customer = record("a", "Alice");
    assert!(customer.has_guid(&key("a")));
    assert!(!customer.has_guid(&key("A")));
    assert!(!customer.has_guid(&key("Alice")));
    assert!(!customer.has_guid(&key("")));
}
