use raw::instances::{Entry, InstanceData, InstanceManager};

#[test]
fn test_basic_operations() {
    let mut manager = InstanceManager::new();

    // Test insertion
    manager.create_or_update(1, "hello".to_string());
    manager.create_or_update(2, "world".to_string());

    assert_eq!(manager.len(), 2);
    assert_eq!(manager.get(1), Some(&"hello".to_string()));
    assert_eq!(manager.get(2), Some(&"world".to_string()));

    // Test removal
    assert_eq!(manager.remove(1), Some("hello".to_string()));
    assert_eq!(manager.len(), 1);
    assert_eq!(manager.get(1), None);

    // Test reuse of freed slot
    manager.create_or_update(3, "rust".to_string());
    assert_eq!(manager.get(3), Some(&"rust".to_string()));
}

#[test]
fn test_entry_api() {
    let mut manager = InstanceManager::new();

    // Test vacant entry
    let value = manager.entry(1).or_insert("default".to_string());
    assert_eq!(value, "default");

    // Test occupied entry
    let value = manager.entry(1).or_insert("should not overwrite".to_string());
    assert_eq!(value, "default");
}

#[test]
fn test_retain() {
    let mut manager = InstanceManager::new();
    manager.insert(1, 10);
    manager.insert(2, 20);
    manager.insert(3, 30);

    // Retain only even values
    manager.retain(|_k, v| *v % 20 == 0);

    assert_eq!(manager.len(), 1);
    assert_eq!(manager.get(2), Some(&20));
    assert_eq!(manager.get(1), None);
    assert_eq!(manager.get(3), None);
}

#[test]
fn test_remove_if() {
    let mut manager = InstanceManager::new();
    manager.insert(1, 10);
    manager.insert(2, 20);
    manager.insert(3, 30);

    // Remove values greater than 15
    manager.remove_if(|_k, v| *v > 15);

    assert_eq!(manager.len(), 1);
    assert_eq!(manager.get(1), Some(&10));
    assert_eq!(manager.get(2), None);
    assert_eq!(manager.get(3), None);
}

#[test]
fn test_for_each_mut() {
    let mut manager = InstanceManager::new();
    manager.insert(1, 10);
    manager.insert(2, 20);
    manager.insert(3, 30);

    // Double all values
    manager.for_each_mut(|_k, v| *v *= 2);

    assert_eq!(manager.get(1), Some(&20));
    assert_eq!(manager.get(2), Some(&40));
    assert_eq!(manager.get(3), Some(&60));
}

#[test]
fn test_iterators() {
    let mut manager = InstanceManager::new();
    manager.insert(1, 10);
    manager.insert(2, 20);

    let sum: i32 = manager.values().into_iter().sum();
    assert_eq!(sum, 30);

    let keys: Vec<_> = manager.keys();
    assert!(keys.contains(&1));
    assert!(keys.contains(&2));
}

#[test]
fn freed_slots_are_reused_before_growing() {
    let mut manager = InstanceManager::with_capacity(4);
    for id in 0..4u64 {
        manager.insert(id, id * 10);
    }
    assert_eq!(manager.data.len(), 4);
    assert_eq!(manager.pop(2), Some(20));
    assert_eq!(manager.pop(0), Some(0));
    assert_eq!(manager.pop(7), None);
    manager.insert(9, 90);
    manager.insert(8, 80);
    assert_eq!(manager.data.len(), 4, "both freed slots were reused");
    manager.insert(6, 60);
    assert_eq!(manager.data.len(), 5);
    assert!(manager.capacity() >= 5);
    assert_eq!(manager.get(9), Some(&90));
    assert_eq!(manager.get(8), Some(&80));
    assert!(manager.has(6));
    assert!(manager.contains_key(&1));
    assert!(!manager.has(2));
}

#[test]
fn insert_replaces_and_returns_old_values() {
    let mut manager = InstanceManager::new();
    assert_eq!(manager.insert(5, 'a'), None);
    assert_eq!(manager.insert(5, 'b'), Some('a'));
    assert_eq!(manager.len(), 1);
    assert_eq!(manager.set_data(5, 'c'), Some(()));
    assert_eq!(manager.set_data(6, 'c'), None);
    if let Some(v) = manager.get_mut(5) {
        *v = 'd';
    }
    assert_eq!(manager.get(5), Some(&'d'));
    assert_eq!(manager.get_mut(6), None);
    if let Some(v) = manager.create_or_update(5, 'e') {
        *v = 'f';
    }
    assert_eq!(manager.get(5), Some(&'f'));
    manager.reserve(10);
    manager.shrink_to_fit();
    assert_eq!(manager.get(5), Some(&'f'));
    manager.clear();
    assert!(manager.is_empty());
    assert_eq!(manager.get(5), None);
    let slot = InstanceData { data: Some(3u8), next: Some(1) };
    let copy = slot.clone();
    assert_eq!((copy.data, copy.next), (Some(3), Some(1)));
}

#[test]
fn entry_variants_and_their_operations() {
    let mut manager = InstanceManager::new();
    manager.insert(4, 40);

    let counter = manager.entry(4).and_modify(|v| *v += 1).or_insert_with(|| 0);
    assert_eq!(*counter, 41);
    let fresh = manager.entry(5).and_modify(|v| *v += 1).or_insert_with(|| 7);
    *fresh += 1;
    assert_eq!(manager.get(5), Some(&8));

    match manager.entry(4) {
        Entry::Occupied(mut e) => {
            assert_eq!(*e.get(), 41);
            *e.get_mut() = 42;
            assert_eq!(e.insert(43), 42);
            assert_eq!(e.remove(), 43);
        }
        Entry::Vacant(_) => panic!("id 4 has a value"),
    }
    assert_eq!(manager.get(4), None);

    match manager.entry(6) {
        Entry::Vacant(e) => {
            *e.insert(60) += 1;
        }
        Entry::Occupied(_) => panic!("id 6 has no value"),
    }
    assert_eq!(manager.get(6), Some(&61));
    assert_eq!(manager.len(), 2);
}

#[test]
fn iteration_in_place_and_by_pairs() {
    let mut manager = InstanceManager::default();
    manager.insert(1, 1u32);
    manager.insert(2, 2u32);
    manager.insert(3, 3u32);
    manager.remove(2);

    let mut pairs: Vec<(u64, u32)> = manager.iter().into_iter().map(|(k, v)| (k, *v)).collect();
    pairs.sort();
    assert_eq!(pairs, vec![(1, 1), (3, 3)]);

    for (k, v) in manager.iter_mut() {
        *v += k as u32 * 100;
    }
    assert_eq!(manager.get(1), Some(&101));
    assert_eq!(manager.get(3), Some(&303));

    for v in manager.values_mut() {
        *v += 1;
    }
    let mut values: Vec<u32> = manager.values().into_iter().copied().collect();
    values.sort();
    assert_eq!(values, vec![102, 304]);
}

#[test]
fn clones_compare_equal_by_values() {
    let mut manager = InstanceManager::new();
    manager.insert(7, "seven".to_string());
    manager.insert(8, "eight".to_string());
    let copy = manager.clone();
    assert!(copy == manager);
    assert_eq!(copy.get(7), Some(&"seven".to_string()));

    let mut other = InstanceManager::new();
    other.insert(8, "eight".to_string());
    other.insert(7, "seven".to_string());
    assert!(other == manager, "slot layout does not matter");
    other.insert(7, "SEVEN".to_string());
    assert!(other != manager);
    other.remove(7);
    assert!(other != manager);
}

#[test]
fn freed_slots_are_reused_first() {
    let mut m: InstanceManager<u32> = InstanceManager::new();
    m.insert(1, 10);
    m.insert(2, 20);
    assert_eq!(m.data.len(), 2);
    assert_eq!(m.remove(1), Some(10));
    assert_eq!(m.free_head, Some(0));
    assert_eq!(m.insert(3, 30), None);
    assert_eq!(m.data.len(), 2, "the freed slot is taken again");
    assert_eq!(m.data[0].data, Some(30));
    assert_eq!(m.free_head, None);
    assert_eq!(m.insert(2, 21), Some(20));
    assert_eq!(m.data[1].data, Some(21), "an id keeps its slot");
    m.insert(4, 40);
    assert_eq!(m.data.len(), 3);
}
