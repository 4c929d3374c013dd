use car_registry::record::{Car, CarPayload, Error};
use car_registry::store::CarStore;

fn payload(name: &str, model: &str, price_per_hour: u64) -> CarPayload {
    CarPayload { name: name.to_string(), model: model.to_string(), price_per_hour }
}

#[test]
fn fresh_store_is_empty() {
    let store = CarStore::new();
    assert_eq!(store.peek_next_id(), 0);
    assert_eq!(store.list_cars().len(), 0);
}

#[test]
fn create_ids_start_at_zero_and_increase() {
    let mut store = CarStore::new();
    let a = store.add_car(payload("Civic", "2020", 10), 100);
    let b = store.add_car(payload("Corolla", "2021", 12), 200);
    let c = store.add_car(payload("Model 3", "2022", 30), 300);
    assert_eq!(a.id, 0);
    assert_eq!(b.id, 1);
    assert_eq!(c.id, 2);
    assert_eq!(store.peek_next_id(), 3);
}

#[test]
fn fetch_after_create_returns_equal_record() {
    let mut store = CarStore::new();
    let created = store.add_car(payload("Civic", "2020", 10), 42);
    let fetched = store.get_car(created.id).unwrap();
    assert_eq!(fetched, created);
    assert_eq!(fetched.name, "Civic");
    assert_eq!(fetched.model, "2020");
    assert_eq!(fetched.price_per_hour, 10);
    assert!(fetched.is_available);
    assert_eq!(fetched.created_at, 42);
    assert_eq!(fetched.updated_at, None);
}

#[test]
fn fetch_unissued_id_is_not_found() {
    let mut store = CarStore::new();
    assert_eq!(store.get_car(0), Err(Error::NotFound(0)));
    store.add_car(payload("Civic", "2020", 10), 1);
    assert_eq!(store.get_car(5), Err(Error::NotFound(5)));
}

#[test]
fn rent_twice_is_already_unavailable() {
    let mut store = CarStore::new();
    let car = store.add_car(payload("Civic", "2020", 10), 1);
    let rented = store.rent_car(car.id, 2).unwrap();
    assert!(!rented.is_available);
    assert_eq!(store.rent_car(car.id, 3), Err(Error::AlreadyUnavailable(car.id)));
}

#[test]
fn return_twice_is_already_available() {
    let mut store = CarStore::new();
    let car = store.add_car(payload("Civic", "2020", 10), 1);
    store.rent_car(car.id, 2).unwrap();
    let returned = store.return_car(car.id, 3).unwrap();
    assert!(returned.is_available);
    assert_eq!(store.return_car(car.id, 4), Err(Error::AlreadyAvailable(car.id)));
}

#[test]
fn return_without_rent_is_already_available() {
    let mut store = CarStore::new();
    let car = store.add_car(payload("Civic", "2020", 10), 1);
    assert_eq!(store.return_car(car.id, 2), Err(Error::AlreadyAvailable(car.id)));
}

#[test]
fn rent_then_return_restores_availability_and_advances_stamp() {
    let mut store = CarStore::new();
    let car = store.add_car(payload("Civic", "2020", 10), 100);
    let rented = store.rent_car(car.id, 200).unwrap();
    assert_eq!(rented.updated_at, Some(200));
    let returned = store.return_car(car.id, 350).unwrap();
    assert!(returned.is_available);
    assert_eq!(returned.updated_at, Some(350));
    assert!(returned.updated_at.unwrap() >= rented.updated_at.unwrap());
    assert_eq!(store.get_car(car.id).unwrap(), returned);
}

#[test]
fn list_returns_every_created_record_once() {
    let mut store = CarStore::new();
    let mut ids = Vec::new();
    for i in 0..5u64 {
        let car = store.add_car(payload("Car", "Model", i), i);
        ids.push(car.id);
    }
    let listed = store.list_cars();
    assert_eq!(listed.len(), 5);
    let listed_ids: Vec<u64> = listed.iter().map(|c| c.id).collect();
    assert_eq!(listed_ids, ids);
}

#[test]
fn list_reflects_transitions() {
    let mut store = CarStore::new();
    store.add_car(payload("Civic", "2020", 10), 1);
    store.add_car(payload("Corolla", "2021", 12), 2);
    store.rent_car(0, 9).unwrap();
    let listed = store.list_cars();
    assert_eq!(listed.len(), 2);
    assert!(!listed[0].is_available);
    assert_eq!(listed[0].updated_at, Some(9));
    assert!(listed[1].is_available);
    assert_eq!(listed[1].updated_at, None);
}

#[test]
fn example_scenario() {
    let mut store = CarStore::new();
    let first = store.add_car(payload("Civic", "2020", 10), 1000);
    assert_eq!(first.id, 0);
    assert!(first.is_available);
    assert_eq!(first.updated_at, None);
    let second = store.add_car(payload("Corolla", "2021", 12), 2000);
    assert_eq!(second.id, 1);
    let rented = store.rent_car(0, 3000).unwrap();
    assert_eq!(rented.id, 0);
    assert!(!rented.is_available);
    assert_eq!(rented.updated_at, Some(3000));
    assert_eq!(store.rent_car(0, 4000), Err(Error::AlreadyUnavailable(0)));
    assert_eq!(store.get_car(5), Err(Error::NotFound(5)));
}

#[test]
fn empty_fields_and_zero_price_are_accepted() {
    let mut store = CarStore::new();
    let car = store.add_car(payload("", "", 0), 0);
    assert_eq!(car.id, 0);
    assert_eq!(car.name, "");
    assert_eq!(car.model, "");
    assert_eq!(car.price_per_hour, 0);
    assert_eq!(store.get_car(0).unwrap(), car);
}

#[test]
fn extreme_values_round_trip_through_the_store() {
    let mut store = CarStore::new();
    let car = store.add_car(payload("Grand Tourer \u{263a} \u{1f697}", "Touriste \u{e9}t\u{e9}", u64::MAX), u64::MAX);
    let fetched = store.get_car(car.id).unwrap();
    assert_eq!(fetched, car);
    assert_eq!(fetched.price_per_hour, u64::MAX);
    assert_eq!(fetched.created_at, u64::MAX);
}

#[test]
fn encoding_round_trips() {
    let car = Car {
        id: 7,
        name: "Kona \u{263a}".to_string(),
        model: "EV".to_string(),
        price_per_hour: 55,
        is_available: false,
        created_at: 123456789,
        updated_at: Some(987654321),
    };
    let bytes = car.to_bytes();
    assert_eq!(Car::from_bytes(&bytes), Some(car));
}

#[test]
fn decoding_rejects_garbage() {
    assert_eq!(Car::from_bytes(&[]), None);
    assert_eq!(Car::from_bytes(&[0u8; 49]), None);
    let car = Car {
        id: 1,
        name: "a".to_string(),
        model: "b".to_string(),
        price_per_hour: 2,
        is_available: true,
        created_at: 3,
        updated_at: None,
    };
    let mut bytes = car.to_bytes();
    // an extra trailing byte breaks the exact-length framing
    bytes.push(0);
    assert_eq!(Car::from_bytes(&bytes), None);
    let mut bytes2 = car.to_bytes();
    // an availability byte other than 0 or 1 encodes no record
    bytes2[16] = 2;
    assert_eq!(Car::from_bytes(&bytes2), None);
}
