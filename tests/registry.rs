use event_registry::contract::{Contract, EventError};
use event_registry::event::{Event, GuestSet};
use event_registry::event_json::EventJSON;
use event_registry::price::{parse_price, price_to_string};
use event_registry::storage_key::StorageKey;

#[allow(deprecated)]
fn act_as(account: &str) {
    let mut builder = near_sdk::test_utils::VMContextBuilder::new();
    builder.predecessor_account_id(account.parse().unwrap());
    near_sdk::test_utils::testing_env_with_promise_results(
        builder.build(),
        near_sdk::PromiseResult::Failed,
    );
}

fn view(price: &str, guests: &[&str]) -> EventJSON {
    EventJSON {
        price: price.to_string(),
        guests: guests.iter().map(|g| g.to_string()).collect(),
    }
}

fn sorted(mut v: Vec<String>) -> Vec<String> {
    v.sort();
    v
}

#[test]
fn test_event() {
    let mut contract = Contract::default();

    contract
        .insert_event(EventJSON {
            price: price_to_string(1000000000000000000000000),
            guests: vec!["alice.testnet".to_string(), "bob.testnet".to_string()],
        })
        .unwrap();

    let event = contract
        .get_event(near_sdk::env::predecessor_account_id().to_string())
        .unwrap();

    assert_eq!(parse_price(&event.price), Some(1000000000000000000000000));
    assert_eq!(event.guests.len(), 2);
    assert_eq!(event.guests[0].to_string(), "alice.testnet".to_string());
}

#[test]
fn basic_insert_and_read() {
    act_as("alice.testnet");
    let mut contract = Contract::new();
    contract
        .insert_event(view("1000000000000000000000000", &["alice.testnet", "bob.testnet"]))
        .unwrap();
    let event = contract.get_event("alice.testnet".to_string()).unwrap();
    assert_eq!(event.price, "1000000000000000000000000");
    assert_eq!(event.guests.len(), 2);
    assert_eq!(
        sorted(event.guests),
        vec!["alice.testnet".to_string(), "bob.testnet".to_string()]
    );
}

#[test]
fn duplicate_guests_collapse() {
    act_as("carol.testnet");
    let mut contract = Contract::new();
    contract.insert_event(view("0", &["x", "x", "y"])).unwrap();
    let event = contract.get_event("carol.testnet".to_string()).unwrap();
    assert_eq!(event.price, "0");
    assert_eq!(event.guests, vec!["x".to_string(), "y".to_string()]);
}

#[test]
fn repeated_guest_added_once() {
    act_as("carol.testnet");
    let mut contract = Contract::new();
    contract.insert_event(view("5", &[])).unwrap();
    contract
        .set_guests(vec!["g".to_string(), "g".to_string(), "g".to_string()])
        .unwrap();
    let event = contract.get_event("carol.testnet".to_string()).unwrap();
    assert_eq!(event.guests, vec!["g".to_string()]);
    contract.set_guests(vec!["h".to_string(), "g".to_string()]).unwrap();
    let event = contract.get_event("carol.testnet".to_string()).unwrap();
    assert_eq!(event.guests, vec!["g".to_string(), "h".to_string()]);
    assert_eq!(event.price, "5");
}

#[test]
fn overwrite_replaces_event() {
    act_as("carol.testnet");
    let mut contract = Contract::new();
    contract.insert_event(view("10", &["a"])).unwrap();
    contract.insert_event(view("20", &["b"])).unwrap();
    let event = contract.get_event("carol.testnet".to_string()).unwrap();
    assert_eq!(event.price, "20");
    assert_eq!(event.guests, vec!["b".to_string()]);
}

#[test]
fn missing_event() {
    let contract = Contract::new();
    assert_eq!(
        contract.get_event("never-seen".to_string()).err(),
        Some(EventError::MissingEvent)
    );
}

#[test]
fn set_guests_without_event() {
    act_as("dave.testnet");
    let mut contract = Contract::new();
    assert_eq!(
        contract.set_guests(vec!["a".to_string()]),
        Err(EventError::MissingEvent)
    );
    assert!(contract.get_event("dave.testnet".to_string()).is_err());
}

#[test]
fn overflow_price_rejected() {
    act_as("erin.testnet");
    let mut contract = Contract::new();
    assert_eq!(
        contract.insert_event(view("340282366920938463463374607431768211456", &[])),
        Err(EventError::InvalidPrice)
    );
    assert_eq!(
        contract.get_event("erin.testnet".to_string()).err(),
        Some(EventError::MissingEvent)
    );
}

#[test]
fn invalid_price_leaves_event() {
    act_as("erin.testnet");
    let mut contract = Contract::new();
    contract.insert_event(view("7", &["a"])).unwrap();
    assert_eq!(contract.insert_event(view("-1", &["b"])), Err(EventError::InvalidPrice));
    assert_eq!(contract.insert_event(view("12x", &["b"])), Err(EventError::InvalidPrice));
    assert_eq!(contract.insert_event(view("", &["b"])), Err(EventError::InvalidPrice));
    let event = contract.get_event("erin.testnet".to_string()).unwrap();
    assert_eq!(event.price, "7");
    assert_eq!(event.guests, vec!["a".to_string()]);
}

#[test]
fn largest_price_accepted() {
    act_as("erin.testnet");
    let mut contract = Contract::new();
    contract
        .insert_event(view("340282366920938463463374607431768211455", &[]))
        .unwrap();
    let event = contract.get_event("erin.testnet".to_string()).unwrap();
    assert_eq!(event.price, "340282366920938463463374607431768211455");
    assert!(event.guests.is_empty());
}

#[test]
fn price_text_normalized() {
    act_as("erin.testnet");
    let mut contract = Contract::new();
    assert_eq!(contract.insert_event(view("+42", &[])), Err(EventError::InvalidPrice));
    contract.insert_event(view("0042", &[])).unwrap();
    let event = contract.get_event("erin.testnet".to_string()).unwrap();
    assert_eq!(event.price, "42");
}

#[test]
fn accounts_isolated() {
    let mut contract = Contract::new();
    act_as("c1.testnet");
    contract.insert_event(view("1", &["a"])).unwrap();
    act_as("c2.testnet");
    contract.insert_event(view("2", &["b"])).unwrap();
    let first = contract.get_event("c1.testnet".to_string()).unwrap();
    let second = contract.get_event("c2.testnet".to_string()).unwrap();
    assert_eq!(first.price, "1");
    assert_eq!(first.guests, vec!["a".to_string()]);
    assert_eq!(second.price, "2");
    assert_eq!(second.guests, vec!["b".to_string()]);
}

#[test]
fn price_round_trip() {
    for p in [0u128, 1, 9, 10, 99, 100, 1000000000000000000000000, u128::MAX] {
        assert_eq!(parse_price(&price_to_string(p)), Some(p));
    }
    assert_eq!(price_to_string(0), "0");
    assert_eq!(price_to_string(1200), "1200");
    assert_eq!(price_to_string(u128::MAX), "340282366920938463463374607431768211455");
}

#[test]
fn price_parsing() {
    assert_eq!(parse_price("123"), Some(123));
    assert_eq!(parse_price("+5"), None);
    assert_eq!(parse_price("007"), Some(7));
    assert_eq!(parse_price(""), None);
    assert_eq!(parse_price("+"), None);
    assert_eq!(parse_price("-1"), None);
    assert_eq!(parse_price("1 2"), None);
    assert_eq!(parse_price("١٢"), None);
    assert_eq!(parse_price("340282366920938463463374607431768211456"), None);
    assert_eq!(parse_price("9999999999999999999999999999999999999999"), None);
}

#[test]
fn storage_keys() {
    assert_eq!(StorageKey::Events.into_storage_key(), vec![0u8]);
    let key = StorageKey::Guests { event_owner_id: "ab".to_string() }.into_storage_key();
    assert_eq!(key, vec![1u8, 2, 0, 0, 0, b'a', b'b']);
    let other = StorageKey::Guests { event_owner_id: "ba".to_string() }.into_storage_key();
    assert_ne!(key, other);
    let long = StorageKey::Guests { event_owner_id: "x".repeat(300) }.into_storage_key();
    assert_eq!(&long[..5], &[1u8, 44, 1, 0, 0]);
    assert_eq!(long.len(), 305);
}

#[test]
fn guest_set_operations() {
    let mut set = GuestSet::new(vec![9u8]);
    assert_eq!(set.len(), 0);
    assert!(set.insert(&"x".to_string()));
    assert!(!set.insert(&"x".to_string()));
    assert!(set.insert(&"y".to_string()));
    assert!(set.contains(&"y".to_string()));
    assert!(!set.contains(&"z".to_string()));
    assert_eq!(set.len(), 2);
    assert_eq!(set.to_vec(), vec!["x".to_string(), "y".to_string()]);
}

#[test]
fn event_view_conversion() {
    let mut guests = GuestSet::new(vec![1u8]);
    guests.insert(&"x".to_string());
    guests.insert(&"x".to_string());
    let view = EventJSON::from(Event { price: 42, guests });
    assert_eq!(view.price, "42");
    assert_eq!(view.guests, vec!["x".to_string()]);
    let max = EventJSON::from(Event { price: u128::MAX, guests: GuestSet::new(vec![2u8]) });
    assert_eq!(max.price, "340282366920938463463374607431768211455");
    assert!(max.guests.is_empty());
}
