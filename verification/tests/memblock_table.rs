use sstable::MemBlock;
use sstable::SST;

#[test]
fn structures_basic_operations() {
    let mut block = MemBlock::new();
    assert_eq!(block.size(), 0);

    block.insert(vec![1, 2, 3], vec![1]);
    assert_eq!(block.size(), 4);

    assert_eq!(block.get(&vec![1, 2, 3]).unwrap(), &vec![1]);
}

#[test]
fn serialize() {
    let mut block = MemBlock::new();
    block.insert(vec![2], vec![3]);
    let result = block.serialize();
    let expected = vec![
        // Count
        0, 0, 0, 1,
        // Offsets
        0, 0, 0, 8,
        // Key
        0, 0, 0, 1, /* size */
        2, /* key */
        0, 0, 0, 17, /* offset of value */
        // Value
        0, 0, 0, 1, /* size */
        3, /* value */
    ];
    assert_eq!(result, expected);
}

#[test]
fn empty_table_has_no_bindings() {
    let block = MemBlock::new();
    assert_eq!(block.size(), 0);
    assert_eq!(block.get(&vec![]), None);
    assert_eq!(block.get(&vec![0]), None);
    assert_eq!(block.get(&vec![1, 2, 3]), None);
}

#[test]
fn insert_accounts_key_and_value_lengths() {
    let mut block = MemBlock::new();
    block.insert(vec![10, 11], vec![20, 21, 22]);
    assert_eq!(block.size(), 5);
    assert_eq!(block.get(&vec![10, 11]).unwrap(), &vec![20, 21, 22]);
}

#[test]
fn overwrite_keeps_total_and_replaces_value() {
    let mut block = MemBlock::new();
    block.insert(vec![1], vec![2, 3]);
    assert_eq!(block.size(), 3);
    // Re-inserting the same key replaces the value but still adds the full
    // key and value lengths to the running total.
    block.insert(vec![1], vec![4]);
    assert_eq!(block.size(), 5);
    assert_eq!(block.get(&vec![1]).unwrap(), &vec![4]);
}

#[test]
fn serialize_empty_table() {
    let block = MemBlock::new();
    let result = block.serialize();
    assert_eq!(result, vec![0, 0, 0, 0]);
}

#[test]
fn round_trip_finds_every_binding() {
    let mut block = MemBlock::new();
    block.insert(vec![9, 9], vec![1]);
    block.insert(vec![], vec![2, 2]);
    block.insert(vec![5], vec![3, 3, 3]);
    block.insert(vec![5, 0], vec![]);
    let sst = SST::new(block.serialize());
    assert_eq!(sst.keys_size(), 4);
    assert_eq!(sst.get(&vec![9, 9]), Some(&[1u8][..]));
    assert_eq!(sst.get(&vec![]), Some(&[2u8, 2u8][..]));
    assert_eq!(sst.get(&vec![5]), Some(&[3u8, 3u8, 3u8][..]));
    assert_eq!(sst.get(&vec![5, 0]), Some(&[][..]));
    assert_eq!(sst.get(&vec![9]), None);
}

#[test]
fn serialized_keys_are_sorted() {
    let mut block = MemBlock::new();
    block.insert(vec![7], vec![0]);
    block.insert(vec![1, 200], vec![0]);
    block.insert(vec![1], vec![0]);
    block.insert(vec![255], vec![0]);
    block.insert(vec![1, 3], vec![0]);
    let sst = SST::new(block.serialize());
    assert_eq!(sst.keys_size(), 5);
    let n = sst.keys_size();
    for i in 0..n - 1 {
        let a = sst.key(i).to_vec();
        let b = sst.key(i + 1).to_vec();
        assert!(a < b);
    }
    assert_eq!(sst.key(0), vec![1]);
    assert_eq!(sst.key(1), vec![1, 3]);
    assert_eq!(sst.key(2), vec![1, 200]);
    assert_eq!(sst.key(3), vec![7]);
    assert_eq!(sst.key(4), vec![255]);
}

#[test]
fn round_trip_after_overwrite_returns_latest_value() {
    let mut block = MemBlock::new();
    block.insert(vec![8], vec![1, 1]);
    block.insert(vec![4], vec![2]);
    block.insert(vec![8], vec![9, 9, 9]);
    let sst = SST::new(block.serialize());
    assert_eq!(sst.keys_size(), 2);
    assert_eq!(sst.get(&vec![8]), Some(&[9u8, 9u8, 9u8][..]));
    assert_eq!(sst.get(&vec![4]), Some(&[2u8][..]));
}
