use juno::collections::map::FixedMap;
use juno::error::Error;

fn full_text(e: &Error) -> String {
    match e {
        Error::CollectionsError(text) => {
            text.as_str().unwrap().trim_end_matches('\0').to_string()
        }
    }
}

#[test]
fn test_set_get() {
    let mut map = FixedMap::<4, i32, i32>::new();
    // get on an empty map returns None.
    assert_eq!(map.get(&10).unwrap(), None);

    // Inserting a key-value pair.
    map.set(10, 100).unwrap();
    // Retrieving returns the correct value.
    assert_eq!(map.get(&10).unwrap(), Some(&100));
}

#[test]
fn test_get_mut_update() {
    let mut map = FixedMap::<4, i32, i32>::new();
    map.set(20, 200).unwrap();
    // Use get_mut to modify the value.
    if let Some(value) = map.get_mut(&20).unwrap() {
        *value = 250;
    }
    assert_eq!(map.get(&20).unwrap(), Some(&250));
}

#[test]
fn test_non_existent_key() {
    let mut map = FixedMap::<4, i32, i32>::new();
    map.set(30, 300).unwrap();
    // Requesting an unknown key returns Ok(None)
    assert_eq!(map.get(&40).unwrap(), None);
}

#[test]
fn test_map_full() {
    // Use a small capacity map to force a full table.
    let mut map = FixedMap::<2, i32, i32>::new();
    // Fill the map.
    map.set(1, 10).unwrap();
    map.set(2, 20).unwrap();
    // Inserting a new key should result in an error.
    let err = map.set(3, 30).unwrap_err();
    match err {
        Error::CollectionsError(_) => {}
    }
}

#[test]
fn full_map_reports_its_message() {
    let mut map = FixedMap::<2, i32, i32>::new();
    map.set(1, 10).unwrap();
    map.set(2, 20).unwrap();
    let err = map.set(3, 30).unwrap_err();
    assert_eq!(full_text(&err), "Map is full");
    // The failed store has changed nothing.
    assert_eq!(map.get(&1).unwrap(), Some(&10));
    assert_eq!(map.get(&2).unwrap(), Some(&20));
    assert_eq!(map.get(&3).unwrap(), None);
}

#[test]
fn every_stored_key_is_retrievable() {
    let mut map = FixedMap::<8, i32, i32>::new();
    let keys = [10, 30, 3, 20, 40, -7, 0, 1000];
    for (n, key) in keys.iter().enumerate() {
        map.set(*key, n as i32).unwrap();
    }
    // A second round of stores under four of the keys.
    for key in [30, 20, -7, 0] {
        map.set(key, key * 2).unwrap();
    }
    assert_eq!(map.get(&10).unwrap(), Some(&0));
    assert_eq!(map.get(&30).unwrap(), Some(&60));
    assert_eq!(map.get(&3).unwrap(), Some(&2));
    assert_eq!(map.get(&20).unwrap(), Some(&40));
    assert_eq!(map.get(&40).unwrap(), Some(&4));
    assert_eq!(map.get(&-7).unwrap(), Some(&-14));
    assert_eq!(map.get(&0).unwrap(), Some(&0));
    assert_eq!(map.get(&1000).unwrap(), Some(&7));
}

#[test]
fn absent_key_is_absent_in_any_state() {
    let mut map = FixedMap::<3, i32, i32>::new();
    assert_eq!(map.get(&5).unwrap(), None);
    map.set(1, 1).unwrap();
    assert_eq!(map.get(&5).unwrap(), None);
    map.set(2, 2).unwrap();
    map.set(3, 3).unwrap();
    // The table is full: a lookup of a key that is not there is still no error.
    assert_eq!(map.get(&5).unwrap(), None);
    assert!(map.get_mut(&5).unwrap().is_none());
}

#[test]
fn one_store_too_many_fails() {
    let mut map = FixedMap::<5, u32, u32>::new();
    for key in 0..5u32 {
        assert!(map.set(key * 11, key).is_ok());
    }
    assert!(map.set(99, 0).is_err());
    // A key that is in the full table can still be stored under.
    assert!(map.set(22, 7).is_ok());
    assert_eq!(map.get(&22).unwrap(), Some(&7));
}

#[test]
fn second_store_replaces_the_first() {
    let mut map = FixedMap::<2, i32, i32>::new();
    map.set(7, 1).unwrap();
    map.set(7, 2).unwrap();
    assert_eq!(map.get(&7).unwrap(), Some(&2));
    // The key has taken one slot only: there is room for one more key, and no more.
    map.set(8, 3).unwrap();
    assert!(map.set(9, 4).is_err());
}

#[test]
fn probe_goes_on_from_the_home_slot_and_wraps() {
    // With four slots the keys 10 and 30 have home slot 3, and key 3 has home slot 0.
    let mut map = FixedMap::<4, i32, i32>::new();
    assert_eq!(map.find_index(&10).unwrap(), 3);
    map.set(10, 1).unwrap();
    assert_eq!(map.find_index(&10).unwrap(), 3);
    assert_eq!(map.find_index(&30).unwrap(), 0);
    map.set(30, 2).unwrap();
    assert_eq!(map.find_index(&3).unwrap(), 1);
    map.set(3, 3).unwrap();
    assert_eq!(map.find_index(&20).unwrap(), 2);
    map.set(20, 4).unwrap();
    assert_eq!(map.find_index(&30).unwrap(), 0);
    assert_eq!(map.find_index(&3).unwrap(), 1);
    assert_eq!(map.find_index(&20).unwrap(), 2);
    // Every slot is taken: the probe for a new key comes round in vain.
    assert_eq!(full_text(&map.find_index(&40).unwrap_err()), "Map is full");
    assert_eq!(map.get(&10).unwrap(), Some(&1));
    assert_eq!(map.get(&30).unwrap(), Some(&2));
    assert_eq!(map.get(&3).unwrap(), Some(&3));
    assert_eq!(map.get(&20).unwrap(), Some(&4));
}

#[test]
fn map_without_slots() {
    let mut map = FixedMap::<0, i32, i32>::new();
    assert_eq!(map.get(&1).unwrap(), None);
    assert!(map.get_mut(&1).unwrap().is_none());
    assert_eq!(full_text(&map.set(1, 1).unwrap_err()), "Map is full");
}
