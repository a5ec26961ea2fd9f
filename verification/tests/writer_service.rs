//! Writer scenarios — append, SAMEFIELDS, rollover — and the background
//! storage service protocol.

use sliced::codec::Value;
use sliced::id::StreamID;
use sliced::io::{StorageService, TaskKind, TaskState};
use sliced::listpack::Listpack;
use sliced::record::Record;
use sliced::stream::StreamError;
use sliced::writer::{parse_pack, ParsedRecord, StreamWriter};

fn kv(pairs: &[(&str, &str)]) -> Vec<Value> {
    let mut out = Vec::new();
    for (k, v) in pairs {
        out.push(Value::String(k.as_bytes().to_vec()));
        out.push(Value::String(v.as_bytes().to_vec()));
    }
    out
}

fn sid(ms: u64, seq: u64) -> StreamID {
    StreamID { ms, seq }
}

fn read_pack(lp: &Listpack, master: StreamID) -> Vec<ParsedRecord> {
    let (_names, recs) = parse_pack(lp, master).expect("a pack written by the writer reads back");
    recs
}

fn pairs_of(rec: &ParsedRecord) -> Vec<(Vec<u8>, Vec<u8>)> {
    let raw = |v: &Value| -> Vec<u8> {
        match v {
            Value::String(b) => b.clone(),
            Value::Int(i) => i.to_le_bytes().to_vec(),
        }
    };
    rec.kv.chunks(2).map(|c| (raw(&c[0]), raw(&c[1]))).collect()
}

#[test]
fn basic_append_and_read_back() {
    let mut w = StreamWriter::new(65500);
    w.add_record(sid(1, 0), &kv(&[("a", "1")])).unwrap();
    w.add_record(sid(2, 0), &kv(&[("a", "2")])).unwrap();
    w.add_record(sid(2, 1), &kv(&[("a", "2")])).unwrap();
    assert_eq!(w.last_id, sid(2, 1));
    assert_eq!(w.sealed.len(), 0);

    let records = read_pack(&w.tail, w.tail_master_id);
    assert_eq!(records.len(), 3);
    assert_eq!(records[0].id, sid(1, 0));
    assert_eq!(records[1].id, sid(2, 0));
    assert_eq!(records[2].id, sid(2, 1));
    assert_eq!(pairs_of(&records[0]), vec![(b"a".to_vec(), b"1".to_vec())]);
    assert_eq!(pairs_of(&records[1]), vec![(b"a".to_vec(), b"2".to_vec())]);
    assert_eq!(pairs_of(&records[2]), vec![(b"a".to_vec(), b"2".to_vec())]);
    // every record's field names repeat the master list, so each carries
    // the SAMEFIELDS flag — the third one included
    assert!(records[2].samefields);
    assert!(records[0].samefields && records[1].samefields);
}

#[test]
fn capacity_overflow_triggers_rollover_without_loss() {
    let mut w = StreamWriter::new(64);
    let mut accepted = vec![sid(1, 0)];
    w.add_record(sid(1, 0), &kv(&[("k", "0")])).unwrap();
    // drive the low-level append until the pack ceiling pushes back
    let mut seq = 1u64;
    let overflowed;
    loop {
        let id = sid(1, seq);
        match w.append(id, &kv(&[("k", "x")])) {
            Ok(()) => {
                accepted.push(id);
                seq += 1;
            }
            Err(StreamError::Overflow) => {
                overflowed = id;
                break;
            }
            Err(e) => panic!("unexpected error {:?}", e),
        }
    }
    // the writer layer retries against a fresh tail: the record lands
    w.add_record(overflowed, &kv(&[("k", "x")])).unwrap();
    accepted.push(overflowed);
    assert_eq!(w.sealed.len(), 1);

    // nothing was lost across the boundary
    let sealed = read_pack(&w.sealed[0].data, w.sealed[0].master_id);
    let tail = read_pack(&w.tail, w.tail_master_id);
    let mut all: Vec<StreamID> = sealed.iter().map(|r| r.id).collect();
    all.extend(tail.iter().map(|r| r.id));
    assert_eq!(all, accepted);
    assert_eq!(tail.len(), 1);
    assert_eq!(w.tail_master_id, overflowed);
}

#[test]
fn rollover_restarts_delta_encoding() {
    let mut w = StreamWriter::new(65500);
    w.add_record(sid(5, 5), &kv(&[("f", "v")])).unwrap();
    // the next identifier has a smaller sequence: it cannot delta-encode
    // against master 5-5, so the writer rolls over
    w.add_record(sid(6, 0), &kv(&[("f", "v")])).unwrap();
    assert_eq!(w.sealed.len(), 1);
    assert_eq!(w.tail_master_id, sid(6, 0));
}

#[test]
fn odd_field_lists_are_bad_input() {
    let mut w = StreamWriter::new(65500);
    let odd = vec![Value::String(b"name".to_vec())];
    match w.add_record(sid(1, 0), &odd) {
        Err(StreamError::BadInput) => {}
        _ => panic!("expected BadInput"),
    }
    let r = Record { id: sid(1, 0), kv: odd };
    match r.validate() {
        Some(StreamError::BadInput) => {}
        _ => panic!("expected BadInput"),
    }
    let ok = Record { id: sid(1, 0), kv: kv(&[("a", "b")]) };
    assert!(ok.validate().is_none());
}

#[test]
fn writer_assigns_increasing_ids() {
    let mut w = StreamWriter::new(65500);
    let a = w.next_id();
    let b = w.next_id();
    assert!(a.ms < b.ms || (a.ms == b.ms && a.seq < b.seq));
    w.add_record(b, &kv(&[("x", "y")])).unwrap();
    assert_eq!(w.last_id, b);
}

#[test]
fn start_storage_service() {
    println!("starting StorageService...");
    let mut svc = StorageService::start(2);
    svc.submit(TaskKind::Create).unwrap();
    svc.submit(TaskKind::Sync).unwrap();
    match svc.submit(TaskKind::Read) {
        Err(StreamError::WouldBlock) => {}
        _ => panic!("expected backpressure on a full backlog"),
    }
    assert!(svc.take_next());
    svc.finish_current(true);
    assert!(svc.take_next());
    svc.finish_current(false);
    let drained = svc.poll();
    assert_eq!(drained.len(), 2);
    assert!(matches!(drained[0].state, TaskState::Completed));
    assert!(matches!(drained[1].state, TaskState::Failed));
    assert!(matches!(drained[0].kind, TaskKind::Create));
    svc.shutdown();
    match svc.submit(TaskKind::Sync) {
        Err(StreamError::NotExists) => {}
        _ => panic!("a stopping service accepts no work"),
    }
    println!("stopping StorageService...");
}
