//! The listpack container: header consistency through every mutation,
//! traversal in both directions, seeking and the typed getters.

use sliced::codec::Value;
use sliced::listpack::{
    self, append_signed_int, get_i64, get_signed_int, get_u16, is_valid_element, iter, iter_rev,
    length, Listpack, Placement,
};

fn contents(lp: &Listpack) -> Vec<Value> {
    lp.iter()
}

fn check_invariants(lp: &mut Listpack) {
    // The header's total-bytes field is read back by bytes(); it must
    // describe the encoded elements exactly: re-walking the listpack
    // front to back and back to front agrees element for element.
    let fwd = lp.iter();
    let mut rev = lp.iter_rev();
    rev.reverse();
    assert_eq!(fwd, rev);
    assert_eq!(fwd.len() as u32, length(lp));
}

#[test]
fn empty_listpack_has_no_elements() {
    let mut lp = Listpack::new();
    assert_eq!(length(&mut lp), 0);
    assert_eq!(lp.len(), 0);
    assert_eq!(lp.bytes(), 7);
    assert!(lp.first().is_none());
    assert!(lp.last().is_none());
    assert!(lp.iter().is_empty());
}

#[test]
fn mutation_sequence_keeps_header_and_order() {
    let mut lp = Listpack::new();
    assert!(lp.append(&Value::Int(20)));
    check_invariants(&mut lp);
    assert!(lp.append(&Value::Int(21)));
    check_invariants(&mut lp);
    assert!(lp.append(&Value::String(b"hello".to_vec())));
    check_invariants(&mut lp);

    // insert before the head
    let head = lp.first().unwrap();
    let at = lp.insert(&Value::Int(7), Placement::Before, head).unwrap();
    assert!(is_valid_element(&lp, at));
    check_invariants(&mut lp);

    // insert after the head
    let head = lp.first().unwrap();
    lp.insert(&Value::String(b"x".to_vec()), Placement::After, head).unwrap();
    check_invariants(&mut lp);
    assert_eq!(
        contents(&lp),
        vec![
            Value::Int(7),
            Value::String(b"x".to_vec()),
            Value::Int(20),
            Value::Int(21),
            Value::String(b"hello".to_vec()),
        ]
    );

    // replace, same and different width
    let second = lp.seek(1).unwrap();
    lp.replace(second, &Value::Int(-9000)).unwrap();
    check_invariants(&mut lp);
    assert_eq!(contents(&lp)[1], Value::Int(-9000));

    // delete the head and the tail
    let head = lp.first().unwrap();
    lp.delete(head).unwrap();
    check_invariants(&mut lp);
    let tail = lp.last().unwrap();
    assert!(lp.delete(tail).is_some());
    check_invariants(&mut lp);
    assert_eq!(contents(&lp), vec![Value::Int(-9000), Value::Int(20), Value::Int(21)]);

    // failure atomicity: a bogus target changes nothing
    let before = contents(&lp);
    assert!(lp.replace(3, &Value::Int(1)).is_none());
    assert!(lp.delete(usize::MAX - 1).is_none());
    assert_eq!(contents(&lp), before);
}

#[test]
fn seek_counts_from_both_ends() {
    let mut lp = Listpack::new();
    for v in 0..5i64 {
        assert!(lp.append(&Value::Int(v)));
    }
    for i in 0..5isize {
        let p = lp.seek(i).unwrap();
        assert_eq!(lp.get(p).unwrap(), Value::Int(i as i64));
    }
    for i in 1..=5isize {
        let p = lp.seek(-i).unwrap();
        assert_eq!(lp.get(p).unwrap(), Value::Int(5 - i as i64));
    }
    assert!(lp.seek(5).is_none());
    assert!(lp.seek(-6).is_none());
}

#[test]
fn traversal_next_prev_are_inverses() {
    let mut lp = Listpack::new();
    for v in 0..4i64 {
        assert!(lp.append(&Value::Int(v)));
    }
    let mut p = lp.first().unwrap();
    let mut seen = vec![lp.get(p).unwrap()];
    while let Some(q) = lp.next(p) {
        seen.push(lp.get(q).unwrap());
        p = q;
    }
    assert_eq!(seen.len(), 4);
    let mut back = vec![lp.get(p).unwrap()];
    while let Some(q) = lp.prev(p) {
        back.push(lp.get(q).unwrap());
        p = q;
    }
    back.reverse();
    assert_eq!(seen, back);
}

#[test]
fn typed_getters_read_both_representations() {
    let mut lp = Listpack::new();
    assert!(lp.append(&Value::Int(300)));
    assert!(lp.append(&Value::String(vec![0x39, 0x05])));  // 1337 little-endian
    let p0 = lp.seek(0).unwrap();
    let p1 = lp.seek(1).unwrap();
    assert_eq!(get_i64(&lp, p0), 300);
    assert_eq!(lp.get_u8(p0), 44);  // truncated low byte of 300
    assert_eq!(get_u16(&lp, p1), 1337);
    assert_eq!(lp.get_i32(p1), 1337);
    assert_eq!(lp.get_bytes(p1), vec![0x39, 0x05]);
}

#[test]
fn signed_getters_sign_extend_narrow_payloads() {
    let mut lp = Listpack::new();
    assert!(lp.append(&Value::String(vec![0xFF])));
    assert!(lp.append(&Value::String(vec![0xFF, 0xFF])));
    assert!(lp.append(&Value::String(vec![0xFE, 0xFF, 0xFF, 0xFF])));
    let p0 = lp.seek(0).unwrap();
    let p1 = lp.seek(1).unwrap();
    let p2 = lp.seek(2).unwrap();
    // one-byte 0xFF: signed reads sign-extend to -1, unsigned reads stay 255
    assert_eq!(lp.get_i16(p0), -1);
    assert_eq!(lp.get_i64(p0), -1);
    assert_eq!(lp.get_u16(p0), 255);
    assert_eq!(lp.get_u64(p0), 255);
    // two-byte 0xFFFF: -1 signed at every width, 65535 unsigned
    assert_eq!(lp.get_i32(p1), -1);
    assert_eq!(lp.get_i64(p1), -1);
    assert_eq!(lp.get_i128(p1), -1);
    assert_eq!(lp.get_isize(p1), -1);
    assert_eq!(lp.get_int(p1), -1);
    assert_eq!(lp.get_u32(p1), 65535);
    // four-byte -2: sign-extends through the wider signed reads
    assert_eq!(lp.get_i64(p2), -2);
    assert_eq!(lp.get_u32(p2), 0xFFFF_FFFE);
}

#[test]
fn signed_round_trip_restores_the_value() {
    let mut lp = Listpack::new();
    let cases: Vec<i64> = vec![0, 1, -1, 2, -2, 63, -64, 12345, -98765, i32::MAX as i64, i32::MIN as i64];
    for v in &cases {
        assert!(append_signed_int(&mut lp, *v));
    }
    for (i, v) in cases.iter().enumerate() {
        let p = lp.seek(i as isize).unwrap();
        assert_eq!(get_signed_int(&lp, p), *v);
        assert_eq!(lp.get_signed_int(p), *v);
    }
    // small negatives encode in a single byte after the zigzag transform
    let mut one = Listpack::new();
    assert!(append_signed_int(&mut one, -1i64));
    assert_eq!(one.bytes(), 7 + 2);  // one-byte code plus its backlen
}

#[test]
fn free_function_face_matches_methods() {
    let mut lp = listpack::new();
    assert!(listpack::append_int(&mut lp, 42i64));
    assert!(listpack::append_string(&mut lp, &b"abc".to_vec()));
    let p = listpack::first(&lp).unwrap();
    assert_eq!(listpack::get(&lp, p), Value::Int(42));
    let q = listpack::next(&lp, p).unwrap();
    assert_eq!(listpack::get(&lp, q), Value::String(b"abc".to_vec()));
    assert!(listpack::next(&lp, q).is_none());
    assert_eq!(length(&mut lp), 2);
    let fwd = iter(&lp);
    let mut rev = iter_rev(&lp);
    rev.reverse();
    assert_eq!(fwd, rev);
}

#[test]
fn test_it() {
    let mut lp = listpack::new();
    assert!(lp.append(&Value::Int(20)));
    assert!(lp.append(&Value::Int(21)));
    assert!(lp.append(&Value::Int(22)));

    let s = "hello";
    assert!(lp.append(&Value::String(s.as_bytes().to_vec())));

    let p = listpack::first(&lp).expect("No First!");

    let p = lp.insert(&Value::Int(1), Placement::After, p).unwrap();
    let _p = lp.insert(&Value::Int(2), Placement::After, p).unwrap();
    let last = listpack::last(&lp).unwrap();
    lp.insert(&Value::Int(3), Placement::After, last).unwrap();

    for value in lp.iter() {
        match value {
            Value::Int(int) => {
                println!("Int:    {}", int);
            }
            Value::String(string) => {
                println!("String: {}", String::from_utf8_lossy(&string));
            }
        }
    }

    println!("Bytes:  {}", lp.bytes());
    println!("Length: {}", lp.len());
    assert_eq!(
        lp.iter(),
        vec![
            Value::Int(20),
            Value::Int(1),
            Value::Int(2),
            Value::Int(21),
            Value::Int(22),
            Value::String(b"hello".to_vec()),
            Value::Int(3),
        ]
    );
}

#[test]
fn raw_round_trip_adopts_only_well_formed_images() {
    let mut lp = Listpack::new();
    assert!(lp.append(&Value::Int(-77)));
    assert!(lp.append(&Value::String(b"raw".to_vec())));
    let image = lp.to_raw();
    let adopted = listpack::from_raw(image).expect("a listpack's own image is well formed");
    assert_eq!(adopted.iter(), lp.iter());

    // corrupt images are rejected: a bad header, a bad terminator, and a
    // truncated element
    let mut bad = lp.to_raw();
    bad[0] ^= 1;
    assert!(listpack::from_raw(bad).is_none());
    let mut bad = lp.to_raw();
    let end = bad.len() - 1;
    bad[end] = 0;
    assert!(listpack::from_raw(bad).is_none());
    let mut bad = lp.to_raw();
    bad[6] = 0xF4;  // claims a 64-bit integer that is not there
    assert!(listpack::from_raw(bad).is_none());
    assert!(listpack::from_raw(Vec::new()).is_none());
}

#[test]
fn count_field_saturates_and_length_rescans() {
    let mut lp = Listpack::new();
    for _ in 0..65600u32 {
        assert!(lp.append(&Value::Int(1)));
    }
    // the 16-bit count field has saturated to the "unknown" sentinel
    assert_eq!(lp.len(), 0xFFFF);
    // a full scan still knows the exact count
    assert_eq!(length(&mut lp), 65600);
    // deleting from a saturated listpack keeps the sentinel rather than
    // claiming a wrong exact count
    let head = lp.first().unwrap();
    lp.delete(head).unwrap();
    assert_eq!(lp.len(), 0xFFFF);
    assert_eq!(length(&mut lp), 65599);
}
