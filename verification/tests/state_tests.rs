//! Tests of the flat state value types and their byte-exact serialization.

use flat_resharder::state::FlatStateValue;
use flat_resharder::state::ValueRef;
use flat_resharder::state::sha256;
use flat_resharder::state::INLINE_DISK_VALUE_THRESHOLD;

#[test]
fn test_encode_decode() {
    let value = vec![1, 2, 3];
    let old_value_ref = ValueRef::new(&value);
    let mut value_ref_ser = [0u8; 36];
    value_ref_ser[0..4].copy_from_slice(&old_value_ref.length.to_le_bytes());
    value_ref_ser[4..36].copy_from_slice(&old_value_ref.hash.0);
    let value_ref = ValueRef::decode(&value_ref_ser.to_vec());
    assert_eq!(value_ref.length, value.len() as u32);
    assert_eq!(value_ref.hash, sha256(&value));
}

#[test]
fn value_ref_encode_round_trips() {
    let value = b"some stored value".to_vec();
    let r = ValueRef::new(&value);
    let encoded = r.encode();
    assert_eq!(encoded.len(), 36);
    let decoded = ValueRef::decode(&encoded);
    assert_eq!(decoded, r);
}

#[test]
fn short_values_are_inlined() {
    let small = vec![7u8; 10];
    match FlatStateValue::on_disk(&small) {
        FlatStateValue::Inlined(v) => assert_eq!(v, small),
        FlatStateValue::Ref(_) => panic!("a short value must be inlined"),
    }
    let large = vec![7u8; INLINE_DISK_VALUE_THRESHOLD + 1];
    match FlatStateValue::on_disk(&large) {
        FlatStateValue::Ref(r) => {
            assert_eq!(r.len(), INLINE_DISK_VALUE_THRESHOLD + 1);
            assert_eq!(r.hash, sha256(&large));
        }
        FlatStateValue::Inlined(_) => panic!("a long value must become a reference"),
    }
}

#[test]
fn value_len_and_ref_agree() {
    let value = b"abcdef".to_vec();
    let inlined = FlatStateValue::inlined(&value);
    assert_eq!(inlined.value_len(), 6);
    assert_eq!(inlined.to_value_ref(), ValueRef::new(&value));
    let by_ref = FlatStateValue::value_ref(&value);
    assert_eq!(by_ref.value_len(), 6);
    assert!(ValueRef::new(&value).matches_value(&value));
    assert!(!ValueRef::new(&value).matches_value(&b"other".to_vec()));
}
