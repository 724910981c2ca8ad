use graphstore::extent::InMemoryExtent;
use graphstore::file_table::{get_first_0, Key, SizedTable, TableError};

fn usize_to_bytes(x: usize) -> Vec<u8> {
    (x as u64).to_le_bytes().to_vec()
}

fn bytes_to_usize(b: &[u8]) -> usize {
    u64::from_le_bytes([b[0], b[1], b[2], b[3], b[4], b[5], b[6], b[7]]) as usize
}

#[test]
fn lib_it_works() {
    let e = InMemoryExtent::new();
    let mut t = SizedTable::new(e, 8).ok().unwrap();
    let k = t.insert(usize_to_bytes(0)).ok().unwrap();
    assert_eq!(bytes_to_usize(&t.get(k).ok().unwrap()), 0);
}

#[test]
fn two_inserts() {
    let e = InMemoryExtent::new();
    let mut t = SizedTable::new(e, 8).ok().unwrap();
    let k = t.insert(usize_to_bytes(0)).ok().unwrap();
    assert_eq!(k.index, 0);
    assert_eq!(bytes_to_usize(&t.get(k.clone()).ok().unwrap()), 0);
    let k2 = t.insert(usize_to_bytes(1)).ok().unwrap();
    assert_eq!(k2.index, 1);

    assert_eq!(bytes_to_usize(&t.get(k).ok().unwrap()), 0);
    assert_eq!(bytes_to_usize(&t.get(k2.clone()).ok().unwrap()), 1);
}

#[test]
fn test_bitmap_one() {
    let arr = vec![0];
    assert_eq!(get_first_0(arr), Some(0));
}

#[test]
fn test_bitmap_two() {
    let arr = vec![0b01];
    assert_eq!(get_first_0(arr), Some(1));
}

#[test]
fn couple_inserts() {
    let e = InMemoryExtent::new();
    let mut t = SizedTable::new(e, 8).ok().unwrap();
    let k_v: Vec<(Key, usize)> = (0..10_000)
        .map(|i| (t.insert(usize_to_bytes(i)).ok().unwrap(), i))
        .collect();
    for (key, value) in k_v.iter() {
        assert_eq!(
            bytes_to_usize(&t.get(key.clone()).ok().unwrap()),
            value.clone()
        );
    }
}

#[test]
fn recover() {
    let e = InMemoryExtent::new();
    let mut t = SizedTable::new(e, 8).ok().unwrap();
    let k = t.insert(usize_to_bytes(0)).ok().unwrap();
    assert_eq!(bytes_to_usize(&t.get(k.clone()).ok().unwrap()), 0);
    let snapshot = t.extent().to_vec();
    let t2 = SizedTable::try_load(InMemoryExtent::from_vec(snapshot))
        .ok()
        .unwrap();
    assert_eq!(bytes_to_usize(&t2.get(k).ok().unwrap()), 0);
}

#[test]
fn mass_insert_u32() {
    let e = InMemoryExtent::new();
    let mut t = SizedTable::new(e, 4).ok().unwrap();
    let keys: Vec<Key> = (0u32..10_000)
        .map(|i| t.insert(i.to_le_bytes().to_vec()).ok().unwrap())
        .collect();
    for (i, key) in keys.iter().enumerate() {
        let got = t.get(key.clone()).ok().unwrap();
        assert_eq!(
            u32::from_le_bytes([got[0], got[1], got[2], got[3]]),
            i as u32
        );
    }
}

#[test]
fn block_boundary() {
    let e = InMemoryExtent::new();
    let mut t = SizedTable::new(e, 1).ok().unwrap();
    let mut last = Key { index: 0 };
    for i in 0..2041u32 {
        last = t.insert(vec![(i % 256) as u8]).ok().unwrap();
    }
    assert_eq!(last.index, 2040);
    // header plus two blocks of bitmap and one-byte slots
    let bytes = t.extent().to_vec();
    assert_eq!(bytes.len(), 8 + 2 * (255 + 2040));
    // first bitmap fully set, second has only its lowest bit
    for b in 8..8 + 255 {
        assert_eq!(bytes[b], 0xff);
    }
    let second = 8 + 255 + 2040;
    assert_eq!(bytes[second], 0x01);
    for b in second + 1..second + 255 {
        assert_eq!(bytes[b], 0x00);
    }
    assert_eq!(t.get(last).ok().unwrap(), vec![(2040 % 256) as u8]);
}

#[test]
fn get_errors() {
    let e = InMemoryExtent::new();
    let mut t = SizedTable::new(e, 1).ok().unwrap();
    assert!(matches!(
        t.get(Key { index: 5000 }),
        Err(TableError::KeyOutOfRange)
    ));
    let k = t.insert(vec![7]).ok().unwrap();
    assert_eq!(k.index, 0);
    assert!(matches!(
        t.get(Key { index: 5 }),
        Err(TableError::KeyUnused { .. })
    ));
}

#[test]
fn load_rejects_bad_extent() {
    let r = SizedTable::try_load(InMemoryExtent::from_vec(vec![1, 2, 3]));
    assert!(matches!(
        r,
        Err(TableError::InvalidExtentSize { size: 3 })
    ));
    let mut bad = (9u64).to_le_bytes().to_vec();
    bad.extend(std::iter::repeat(0u8).take(100));
    let r2 = SizedTable::try_load(InMemoryExtent::from_vec(bad));
    assert!(matches!(r2, Err(TableError::InvalidExtentSize { .. })));
}

#[test]
fn zero_width_records() {
    let e = InMemoryExtent::new();
    let mut t = SizedTable::new(e, 0).ok().unwrap();
    let k = t.insert(vec![]).ok().unwrap();
    assert_eq!(k.index, 0);
    assert_eq!(t.get(k).ok().unwrap(), Vec::<u8>::new());
    // a header reading zero with whole (all-bitmap) blocks loads back
    let mut raw = (0u64).to_le_bytes().to_vec();
    raw.extend(std::iter::repeat(0u8).take(255));
    let t2 = SizedTable::try_load(InMemoryExtent::from_vec(raw)).ok().unwrap();
    assert_eq!(t2.data_size(), 0);
}
