use sstable::SST;

fn sample_buffer() -> Vec<u8> {
    vec![
        // Offsets
        0, 0, 0, 1, /* number offsets */
        0, 0, 0, 8, /* first offset */
        // Key
        0, 0, 0, 1, /* size */
        2, /* key */
        0, 0, 0, 17, /* offset of value */
        // Value
        0, 0, 0, 1, /* size */
        3, /* value */
    ]
}

#[test]
fn sst_basic_operations() {
    let bytes = sample_buffer();
    let sst = SST::new(bytes);
    assert_eq!(sst.keys_size(), 1);
    assert_eq!(sst.key_offset(0), 8);
    assert_eq!(sst.key_size(0), 1);
    assert_eq!(sst.key(0), vec![2]);
    assert_eq!(sst.value_offset(0), 17);
    assert_eq!(sst.value(0), vec![3]);
    let result: [u8; 1] = [3];
    assert_eq!(sst.get(&vec![2]), Some(&result[0..1]));
}

#[test]
fn sst_get_misses_absent_key() {
    let sst = SST::new(sample_buffer());
    assert_eq!(sst.get(&vec![9]), None);
    assert_eq!(sst.get(&vec![]), None);
    assert_eq!(sst.get(&vec![2, 2]), None);
}

#[test]
fn sst_accessors_are_idempotent() {
    let sst = SST::new(sample_buffer());
    assert_eq!(sst.keys_size(), sst.keys_size());
    assert_eq!(sst.key_offset(0), sst.key_offset(0));
    assert_eq!(sst.key_size(0), sst.key_size(0));
    assert_eq!(sst.key(0).to_vec(), sst.key(0).to_vec());
    assert_eq!(sst.value_offset(0), sst.value_offset(0));
    assert_eq!(sst.value(0).to_vec(), sst.value(0).to_vec());
    let first = sst.get(&vec![2]).map(|v| v.to_vec());
    let second = sst.get(&vec![2]).map(|v| v.to_vec());
    assert_eq!(first, second);
}

#[test]
fn sst_two_record_buffer_fields() {
    // count=2; offsets 12 and 21; records for keys [5] -> [7, 8] and
    // [6, 6] -> [] laid out per the format.
    let bytes = vec![
        0, 0, 0, 2, // count
        0, 0, 0, 12, // offset of key record 0
        0, 0, 0, 21, // offset of key record 1
        0, 0, 0, 1, // key 0 length
        5, // key 0 bytes
        0, 0, 0, 31, // value offset of key 0
        0, 0, 0, 2, // key 1 length
        6, 6, // key 1 bytes
        0, 0, 0, 37, // value offset of key 1
        0, 0, 0, 2, // value 0 length
        7, 8, // value 0 bytes
        0, 0, 0, 0, // value 1 length (empty value)
    ];
    let sst = SST::new(bytes);
    assert_eq!(sst.keys_size(), 2);
    assert_eq!(sst.key_offset(0), 12);
    assert_eq!(sst.key_offset(1), 21);
    assert_eq!(sst.key(0), vec![5]);
    assert_eq!(sst.key(1), vec![6, 6]);
    assert_eq!(sst.value_offset(0), 31);
    assert_eq!(sst.value_offset(1), 37);
    assert_eq!(sst.value(0), vec![7, 8]);
    assert_eq!(sst.value(1), vec![]);
    assert_eq!(sst.get(&vec![5]), Some(&[7u8, 8u8][..]));
    assert_eq!(sst.get(&vec![6, 6]), Some(&[][..]));
    assert_eq!(sst.get(&vec![6]), None);
}
