//! Stream identifiers, the ordered index, the append-only file and the
//! fault-in decision.

use std::rc::Rc;

use sliced::aof::Aof;
use sliced::codec::Value as Value2;
use sliced::id::{next_id, next_id_from, StreamID};
use sliced::map::{RaxKey, RcRax, StreamIDRax};
use sliced::stream::{
    all_pages_resident, decode_segment_index, encode_segment_index, pages_needed, Pack,
    PackIndexEntry, Segment, Stream, StreamConfig, StreamError, StreamState,
};
use sliced::writer::StreamWriter;

#[test]
fn construct() {
    let config = StreamConfig::default();
    assert_eq!(config.max_pack_size, 65500);
    let _state = StreamState::Unloaded;
    let pack = Pack::new();
    assert!(pack.data.is_none());
    let segment = Segment { data: None, packs: RcRax::new() };
    assert!(segment.data.is_none());
    let _ids: StreamIDRax<Pack> = StreamIDRax::new();
}

#[test]
fn stream_last_id_prefers_the_writer() {
    let mut stream = Stream::new(7, b"events".to_vec(), StreamConfig::default());
    assert!(stream.last_id().is_none());
    let mut writer = StreamWriter::new(65500);
    let id = StreamID { ms: 9, seq: 4 };
    writer
        .add_record(id, &vec![Value2::String(b"f".to_vec()), Value2::String(b"v".to_vec())])
        .unwrap();
    stream.writer = Some(writer);
    let next = stream.last_id().unwrap();
    assert!(id.ms < next.ms || (id.ms == next.ms && id.seq < next.seq));
}

#[test]
fn residency_arithmetic_matches_the_probe() {
    assert_eq!(pages_needed(0, 4096), 0);
    assert_eq!(pages_needed(1, 4096), 1);
    assert_eq!(pages_needed(4096, 4096), 1);
    assert_eq!(pages_needed(4097, 4096), 2);
    assert!(all_pages_resident(&vec![1, 1, 1], 3));
    assert!(all_pages_resident(&vec![1, 0, 1], 1));
    assert!(!all_pages_resident(&vec![1, 0, 1], 2));
    assert!(!all_pages_resident(&vec![1], 2));
}

#[test]
fn id_generation_is_strictly_monotonic() {
    let mut last = StreamID { ms: 0, seq: 0 };
    for _ in 0..100 {
        let next = next_id(&last);
        assert!(last.ms < next.ms || (last.ms == next.ms && last.seq < next.seq));
        last = next;
    }
}

#[test]
fn same_millisecond_increments_sequence() {
    let a = StreamID { ms: 77, seq: 3 };
    let b = next_id_from(&a, 77);
    assert_eq!(b.ms, 77);
    assert_eq!(b.seq, 4);
    let c = next_id_from(&b, 12);  // the clock went backward: ms is kept
    assert_eq!(c.ms, 77);
    assert_eq!(c.seq, 5);
    let d = next_id_from(&c, 78);
    assert_eq!(d.ms, 78);
    assert_eq!(d.seq, 0);
}

#[test]
fn big_endian_keys_sort_like_ids() {
    let ids = [
        StreamID { ms: 0, seq: 0 },
        StreamID { ms: 0, seq: 1 },
        StreamID { ms: 0, seq: 256 },
        StreamID { ms: 1, seq: 0 },
        StreamID { ms: 256, seq: 0 },
        StreamID { ms: u64::MAX, seq: u64::MAX },
    ];
    for w in ids.windows(2) {
        assert!(w[0].into_rax() < w[1].into_rax());
    }
    for id in ids {
        let key = id.into_rax();
        let back = StreamID::from_rax(&key);
        assert_eq!(back, id);
        let be = id.to_big_endian();
        assert_eq!(be.to_big_endian(), id);
    }
}

#[test]
fn index_find_after_insert_returns_the_value() {
    let mut rax: RcRax<u64, i32> = RcRax::new();
    assert!(rax.insert(&5, Rc::new(50)).unwrap().is_none());
    assert!(rax.insert(&1, Rc::new(10)).unwrap().is_none());
    assert!(rax.insert(&9, Rc::new(90)).unwrap().is_none());
    assert_eq!(rax.len(), 3);
    assert_eq!(*rax.find(&5).unwrap(), 50);
    assert_eq!(*rax.get(&1).unwrap(), 10);
    assert!(rax.find(&2).is_none());
    // replacing hands the displaced value back
    let old = rax.insert(&5, Rc::new(55)).unwrap();
    assert_eq!(*old.unwrap(), 50);
    assert_eq!(*rax.find(&5).unwrap(), 55);
}

#[test]
fn try_insert_never_replaces() {
    let mut rax: RcRax<u64, i32> = RcRax::new();
    assert!(rax.try_insert(&7, Rc::new(70)).unwrap().is_none());
    let existing = rax.try_insert(&7, Rc::new(71)).unwrap();
    assert_eq!(*existing.unwrap(), 70);
    assert_eq!(*rax.find(&7).unwrap(), 70);
    assert_eq!(rax.len(), 1);
}

#[test]
fn remove_transfers_ownership_and_clears_the_key() {
    let mut rax: RcRax<u64, i32> = RcRax::new();
    let handle = Rc::new(40);
    rax.insert(&4, Rc::clone(&handle)).unwrap();
    assert_eq!(Rc::strong_count(&handle), 2);
    let (found, taken) = rax.remove(&4);
    assert!(found);
    let taken = taken.unwrap();
    assert!(Rc::ptr_eq(&handle, &taken));
    drop(taken);
    assert_eq!(Rc::strong_count(&handle), 1);
    assert!(!rax.key_exists(&4));
    let (found2, none) = rax.remove(&4);
    assert!(!found2);
    assert!(none.is_none());
}

#[test]
fn seeks_follow_the_order() {
    let mut rax: RcRax<u64, u64> = RcRax::new();
    for k in [10u64, 20, 30] {
        rax.insert(&k, Rc::new(k)).unwrap();
    }
    assert_eq!(rax.first_key(), Some(10));
    assert_eq!(rax.last_key(), Some(30));
    let pos = rax.seek_greater_equal(&15).unwrap();
    assert_eq!(rax.key_at_pos(pos), 20);
    let pos = rax.seek_greater(&20).unwrap();
    assert_eq!(rax.key_at_pos(pos), 30);
    let pos = rax.seek_lesser(&20).unwrap();
    assert_eq!(rax.key_at_pos(pos), 10);
    let pos = rax.seek_lesser_equal(&20).unwrap();
    assert_eq!(rax.key_at_pos(pos), 20);
    assert_eq!(*rax.value_at_pos(pos), 20);
    assert!(rax.seek_greater(&30).is_none());
    assert!(rax.seek_lesser(&10).is_none());
}

#[test]
fn aof_never_shrinks_an_existing_file() {
    let existing = vec![1u8; 128];
    match Aof::new(existing, 64) {
        Err(StreamError::BadInput) => {}
        other => panic!("expected a refusal, got {:?}", other.is_ok()),
    }
    let existing = vec![1u8; 128];
    let aof = Aof::new(existing, 256).unwrap();
    assert_eq!(aof.len(), 256);
    assert_eq!(aof.offset(), 128);
}

#[test]
fn aof_append_fails_fast_when_full() {
    let mut aof = Aof::new(Vec::new(), 8).unwrap();
    assert_eq!(aof.try_append(&vec![1, 2, 3, 4]).unwrap(), 0);
    assert_eq!(aof.offset(), 4);
    match aof.try_append(&vec![9; 5]) {
        Err(StreamError::Overflow) => {}
        _ => panic!("expected Overflow"),
    }
    assert_eq!(aof.offset(), 4);
    aof.truncate(32).unwrap();
    assert_eq!(aof.len(), 32);
    assert_eq!(aof.try_append(&vec![9; 5]).unwrap(), 4);
    match aof.truncate(3) {
        Err(StreamError::BadInput) => {}
        _ => panic!("expected a refusal to shrink below the written bytes"),
    }
}

#[test]
fn would_block_faults_in_only_resident_ranges() {
    let seg_bytes: Vec<u8> = (0..64u8).collect();
    let segment = Segment { data: Some(seg_bytes), packs: RcRax::new() };

    // loaded pack: no blocking, no change
    let mut pack = Pack::new();
    pack.data = Some(vec![1, 2, 3]);
    assert!(!segment.would_block(&mut pack, false));
    assert_eq!(pack.data.as_deref(), Some(&[1u8, 2, 3][..]));

    // resident range: the probe's flag vector says every touched page is
    // in core, so the fault-in happens inline
    let mut pack = Pack::new();
    pack.offset = 8;
    pack.length = 4;
    pack.count = 2;
    let resident = all_pages_resident(&vec![1], pages_needed(pack.length as usize, 4096));
    assert!(resident);
    assert!(!segment.would_block(&mut pack, resident));
    let data = pack.data.unwrap();
    assert_eq!(&data[6..], &[8, 9, 10, 11]);
    assert_eq!(u32::from_le_bytes([data[0], data[1], data[2], data[3]]), 4 + 6);
    assert_eq!(u16::from_le_bytes([data[4], data[5]]), 2);

    // non-resident range: deferred, pack untouched
    let mut pack = Pack::new();
    pack.offset = 8;
    pack.length = 4;
    assert!(segment.would_block(&mut pack, false));
    assert!(pack.data.is_none());

    // unloaded segment: always deferred
    let unloaded = Segment { data: None, packs: RcRax::new() };
    let mut pack = Pack::new();
    assert!(unloaded.would_block(&mut pack, true));
    assert!(pack.data.is_none());
}

// The event-loop write path: one verified append under a try-lock, or
// `WouldBlock` at once — the pattern the unverified shell runs.
fn try_write(shared: &std::sync::Arc<spin::Mutex<Aof>>, buf: &Vec<u8>) -> Result<u64, StreamError> {
    match shared.try_lock() {
        Some(mut guard) => guard.try_append(buf),
        None => Err(StreamError::WouldBlock),
    }
}

#[test]
fn try_write_returns_would_block_under_contention() {
    let aof = Aof::new(Vec::new(), 64).unwrap();
    let shared = std::sync::Arc::new(spin::Mutex::new(aof));
    let guard = shared.lock();
    match try_write(&shared, &vec![1, 2, 3]) {
        Err(StreamError::WouldBlock) => {}
        _ => panic!("expected WouldBlock while the background task holds the lock"),
    }
    drop(guard);
    assert_eq!(try_write(&shared, &vec![1, 2, 3]).unwrap(), 0);
    assert_eq!(shared.lock().offset(), 3);
}

#[test]
fn segment_index_round_trips_and_rejects_torn_bytes() {
    let entries = vec![
        PackIndexEntry { ms: 1, seq: 0, offset: 0, length: 64, count: 3 },
        PackIndexEntry { ms: 2, seq: 5, offset: 64, length: 128, count: 9 },
        PackIndexEntry { ms: u64::MAX, seq: 7, offset: u32::MAX, length: 1, count: u16::MAX },
    ];
    let bytes = encode_segment_index(&entries);
    assert_eq!(bytes.len(), 26 * entries.len());
    let back = decode_segment_index(&bytes).expect("a whole index reads back");
    assert_eq!(back.len(), entries.len());
    for (a, b) in back.iter().zip(entries.iter()) {
        assert_eq!((a.ms, a.seq, a.offset, a.length, a.count), (b.ms, b.seq, b.offset, b.length, b.count));
    }
    // a torn tail is rejected
    let mut torn = bytes.clone();
    torn.pop();
    assert!(decode_segment_index(&torn).is_none());
    // the empty index is the empty byte string
    assert!(encode_segment_index(&Vec::new()).is_empty());
    assert_eq!(decode_segment_index(&Vec::new()).unwrap().len(), 0);
}
