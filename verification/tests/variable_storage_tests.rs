use graphstore::extent::InMemoryExtent;
use graphstore::variable_storage::{Key, StoreError, VariableExtent};

#[test]
fn create_extent() {
    let _ = VariableExtent::new(InMemoryExtent::new());
}

#[test]
fn add_zero_length() {
    let mut e = VariableExtent::new(InMemoryExtent::new());
    let key = e.add_entry(vec![]);
    assert_eq!(key.index, 0);
    assert_eq!(e.get_entry(key), vec![]);
}

#[test]
fn write_data() {
    let mut e = VariableExtent::new(InMemoryExtent::new());
    let key = e.add_entry(vec![]);
    e.write_entry(key.clone(), 0, vec![1]);
    assert_eq!(e.get_entry(key), vec![1]);
}

#[test]
fn write_empty() {
    let mut e = VariableExtent::new(InMemoryExtent::new());
    let key = e.add_entry(vec![]);
    let v: Vec<u8> = (1..10000).map(|_| 0).collect();
    e.write_entry(key.clone(), 0, v.clone());
    assert_eq!(e.get_entry(key), v);
}

#[test]
fn write_toture_test() {
    let mut e = VariableExtent::new(InMemoryExtent::new());
    for _i in 0..5 {
        let key = e.add_entry(vec![]);
        let v: Vec<u8> = (1..10000).map(|_| 0).collect();
        e.write_entry(key.clone(), 0, v.clone());
        assert_eq!(e.get_entry(key), v);
    }
}

#[test]
fn write_several() {
    let mut e = VariableExtent::new(InMemoryExtent::new());
    assert!(e.is_consistant());
    let v: Vec<(Key, u8)> = (0..100)
        .map(|i: u8| {
            assert!(e.is_consistant());
            (e.add_entry(vec![i.clone()]), i.clone())
        })
        .collect();
    for (key, data) in v.iter() {
        assert!(e.is_consistant());
        assert_eq!(e.get_entry(key.clone()), vec![data.clone()]);
    }
}

#[test]
fn contains_key() {
    let mut e = VariableExtent::new(InMemoryExtent::new());
    let fake = Key { index: 100 };
    assert_eq!(e.contains_key(fake), false);
    let real = e.add_entry(vec![]);
    assert_eq!(e.contains_key(real), true);
}

#[test]
fn overwrite_middle() {
    let mut e = VariableExtent::new(InMemoryExtent::new());
    let key = e.add_entry(vec![1, 2, 3, 4, 5]);
    e.write_entry(key.clone(), 1, vec![9, 9]);
    assert_eq!(e.get_entry(key), vec![1, 9, 9, 4, 5]);
}

#[test]
fn overwrite_across_blocks() {
    let mut e = VariableExtent::new(InMemoryExtent::new());
    let base: Vec<u8> = (0..600).map(|i| (i % 251) as u8).collect();
    let key = e.add_entry(base.clone());
    let patch: Vec<u8> = (0..300).map(|i| (i % 7) as u8).collect();
    e.write_entry(key.clone(), 200, patch.clone());
    let mut want = base.clone();
    for i in 0..300 {
        want[200 + i] = patch[i];
    }
    assert_eq!(e.get_entry(key), want);
}

#[test]
fn append_past_end() {
    let mut e = VariableExtent::new(InMemoryExtent::new());
    let key = e.add_entry(vec![1, 2, 3]);
    e.write_entry(key.clone(), 3, vec![4, 5, 6]);
    assert_eq!(e.get_entry(key), vec![1, 2, 3, 4, 5, 6]);
}

#[test]
fn several_long_values() {
    let mut e = VariableExtent::new(InMemoryExtent::new());
    let mut keys = vec![];
    for i in 0..10u8 {
        let v: Vec<u8> = (0..500).map(|t| ((t + i as usize) % 256) as u8).collect();
        keys.push((e.add_entry(v.clone()), v));
        assert!(e.is_consistant());
    }
    for (key, v) in keys.iter() {
        assert_eq!(e.get_entry(key.clone()), v.clone());
    }
}

#[test]
fn unknown_key_is_invalid() {
    let mut e = VariableExtent::new(InMemoryExtent::new());
    assert!(matches!(
        e.try_get_entry(Key { index: 0 }),
        Err(StoreError::InvalidKey)
    ));
    let k = e.add_entry(vec![4, 5]);
    assert_eq!(e.try_get_entry(k).ok().unwrap(), vec![4, 5]);
    assert!(matches!(
        e.try_get_entry(Key { index: 1 }),
        Err(StoreError::InvalidKey)
    ));
}
