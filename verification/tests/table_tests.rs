use graphstore::extent::InMemoryExtent;
use graphstore::table::{from_binary, Bitmap, DatabaseTable, Key, TableError};

#[test]
fn test_bitmap() {
    let mut b = Bitmap::new(64);
    assert_eq!(b.get_first_free().unwrap(), 0);
    b.set(0, true);
    assert_eq!(b.get_first_free().unwrap(), 1);
    assert_eq!(b.get(5), false);
}

#[test]
fn get_first_free() {
    let mut b = Bitmap::new(10000);
    for i in 0..10000 {
        assert_eq!(b.get_first_free().unwrap(), i);
        b.set(i, true);
    }
}

#[test]
fn bitmap_full_is_none() {
    let mut b = Bitmap::new(64);
    for i in 0..64 {
        b.set(i, true);
    }
    assert_eq!(b.get_first_free(), None);
    b.set(17, false);
    assert_eq!(b.get_first_free(), Some(17));
}

#[test]
fn make_db() {
    let _ = DatabaseTable::new(InMemoryExtent::new(), std::mem::size_of::<u32>());
}

#[test]
fn insert_and_get_single() {
    let mut db = DatabaseTable::new(InMemoryExtent::new(), std::mem::size_of::<u32>());
    let k1 = db.insert(1u32.to_le_bytes().to_vec());
    assert_eq!(from_binary(db.get(k1).ok().unwrap()), 1);
}

#[test]
fn insert_and_get() {
    let mut db = DatabaseTable::new(InMemoryExtent::new(), std::mem::size_of::<u32>());
    let k1 = db.insert(1u32.to_le_bytes().to_vec());
    let k2 = db.insert(2u32.to_le_bytes().to_vec());
    assert_eq!(from_binary(db.get(k1).ok().unwrap()), 1);
    assert_eq!(from_binary(db.get(k2).ok().unwrap()), 2);
}

#[test]
fn mass_insert() {
    let mut db = DatabaseTable::new(InMemoryExtent::new(), std::mem::size_of::<u32>());
    let mut keys = vec![];
    for i in 0..100u32 {
        keys.push((db.insert(i.to_le_bytes().to_vec()), i));
    }
    for (key, value) in keys.iter() {
        assert_eq!(from_binary(db.get(key.clone()).ok().unwrap()), value.clone());
    }
}

#[test]
fn invalid_key_is_rejected() {
    let db: DatabaseTable<InMemoryExtent> = DatabaseTable::new(InMemoryExtent::new(), 4);
    assert!(matches!(
        db.get(Key { index: 3 }),
        Err(TableError::InvalidKey)
    ));
}

#[test]
fn from_binary_exact() {
    assert_eq!(from_binary(vec![0x78, 0x56, 0x34, 0x12]), 0x12345678);
}

#[test]
fn resize_growth_reads_false() {
    let mut b = Bitmap::new(10);
    b.set(3, true);
    b.resize(200);
    assert_eq!(b.len(), 200);
    assert!(b.get(3));
    for i in 64..200 {
        assert!(!b.get(i));
    }
}
