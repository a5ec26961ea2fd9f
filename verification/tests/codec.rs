//! Round-trip checks for the value codec and the backlen field across
//! every encoding tier boundary.

use sliced::codec::{backlen_size, decode_backlen, encode_backlen, encode_int, zigzag, Value};
use sliced::listpack::Listpack;

fn round_trip(v: Value) {
    let mut lp = Listpack::new();
    let encoded = v.encode();
    assert_eq!(encoded.len() as u32, v.encoded_size());
    assert!(lp.append(&v));
    let p = lp.first().expect("one element");
    let back = lp.get(p).expect("decodes");
    assert_eq!(back, v);
}

#[test]
fn int_round_trip_at_tier_boundaries() {
    let cases: Vec<i64> = vec![
        0,
        1,
        127,
        128,
        -1,
        -4096,
        4095,
        4096,
        -4097,
        -32768,
        32767,
        32768,
        -32769,
        -8388608,
        8388607,
        8388608,
        -8388609,
        i64::from(i32::MIN),
        i64::from(i32::MAX),
        i64::from(i32::MIN) - 1,
        i64::from(i32::MAX) + 1,
        i64::MIN,
        i64::MAX,
    ];
    for v in cases {
        round_trip(Value::Int(v));
    }
}

#[test]
fn int_encoded_sizes_pick_smallest_tier() {
    assert_eq!(Value::Int(0).encoded_size(), 1);
    assert_eq!(Value::Int(127).encoded_size(), 1);
    assert_eq!(Value::Int(128).encoded_size(), 2);
    assert_eq!(Value::Int(-4096).encoded_size(), 2);
    assert_eq!(Value::Int(4095).encoded_size(), 2);
    assert_eq!(Value::Int(4096).encoded_size(), 3);
    assert_eq!(Value::Int(-32768).encoded_size(), 3);
    assert_eq!(Value::Int(32767).encoded_size(), 3);
    assert_eq!(Value::Int(32768).encoded_size(), 4);
    assert_eq!(Value::Int(-8388608).encoded_size(), 4);
    assert_eq!(Value::Int(8388607).encoded_size(), 4);
    assert_eq!(Value::Int(8388608).encoded_size(), 5);
    assert_eq!(Value::Int(i64::from(i32::MIN)).encoded_size(), 5);
    assert_eq!(Value::Int(i64::from(i32::MAX)).encoded_size(), 5);
    assert_eq!(Value::Int(i64::from(i32::MAX) + 1).encoded_size(), 9);
    assert_eq!(Value::Int(i64::MIN).encoded_size(), 9);
    assert_eq!(encode_int(i64::MAX).len(), 9);
    assert_eq!(encode_int(77).len(), 1);
}

#[test]
fn string_round_trip_at_tier_boundaries() {
    for len in [0usize, 1, 63, 64, 4095, 4096, 70000] {
        let bytes: Vec<u8> = (0..len).map(|i| (i % 251) as u8).collect();
        round_trip(Value::String(bytes));
    }
}

#[test]
fn string_encoded_sizes_pick_smallest_tier() {
    assert_eq!(Value::String(vec![0; 0]).encoded_size(), 1);
    assert_eq!(Value::String(vec![0; 63]).encoded_size(), 64);
    assert_eq!(Value::String(vec![0; 64]).encoded_size(), 66);
    assert_eq!(Value::String(vec![0; 4095]).encoded_size(), 4097);
    assert_eq!(Value::String(vec![0; 4096]).encoded_size(), 4101);
}

#[test]
fn backlen_round_trip_at_boundaries() {
    for l in [
        0u64, 1, 127, 128, 16382, 16383, 16384, 2097150, 2097151, 2097152, 268435454, 268435455,
        268435456, 34359738367,
    ] {
        let buf = encode_backlen(l);
        assert_eq!(buf.len() as u32, backlen_size(l));
        assert_eq!(decode_backlen(&buf, buf.len() - 1), l);
    }
}

#[test]
fn zigzag_small_negatives_stay_small() {
    assert_eq!(zigzag(0), 0);
    assert_eq!(zigzag(1), -1);
    assert_eq!(zigzag(2), 1);
    assert_eq!(zigzag(3), -2);
}
