//! The segment writer: owns the mutable tail pack of a stream, appends
//! records as delta-encoded listpack entries — omitting repeated field
//! names through the SAMEFIELDS flag — and rolls over to a fresh pack when
//! the configured ceiling would be exceeded, never losing a record.

use vstd::prelude::*;

use crate::codec::ValModel;
use crate::codec::Value;
use crate::codec::val_ok;
use crate::id::StreamID;
use crate::listpack::Listpack;
use crate::map::lex_cmp;
use crate::stream::StreamError;

verus! {

/// No special flags on a record entry.
pub const STREAM_ITEM_FLAG_NONE: i32 = 0;

/// The record is deleted and must be skipped.
pub const STREAM_ITEM_FLAG_DELETED: i32 = 1;

/// The record's field names repeat the master list and are not stored.
pub const STREAM_ITEM_FLAG_SAMEFIELDS: i32 = 2;

/// The views of a run of element values.
pub open spec fn views_of(vs: Seq<Value>) -> Seq<ValModel> {
    vs.map_values(|v: Value| v@)
}

/// The field names of a key-value list: the even positions.
pub open spec fn names_of(kv: Seq<ValModel>) -> Seq<ValModel> {
    Seq::new(kv.len() / 2, |i: int| kv[2 * i])
}

/// The field values of a key-value list: the odd positions.
pub open spec fn values_of(kv: Seq<ValModel>) -> Seq<ValModel> {
    Seq::new(kv.len() / 2, |i: int| kv[2 * i + 1])
}

/// The master entry a fresh pack starts with: a count, a deleted counter,
/// the number of master fields, the field names, and a closing zero.
pub open spec fn master_entry(fields: Seq<ValModel>) -> Seq<ValModel> {
    seq![ValModel::Int(1), ValModel::Int(0), ValModel::Int(fields.len() as i64)] + fields + seq![
        ValModel::Int(0),
    ]
}

/// Whether a record's field names exactly repeat the master list.
pub open spec fn same_fields(kv: Seq<ValModel>, mnames: Seq<ValModel>) -> bool {
    kv.len() > 0 && names_of(kv) == mnames
}

/// The element values one record contributes to its pack: flags, the two
/// identifier deltas against the master, then either the values alone
/// (SAMEFIELDS) or the field count and all pairs, and finally the entry's
/// element count for reverse traversal.
pub open spec fn rec_entry(
    master: StreamID,
    mnames: Seq<ValModel>,
    id: StreamID,
    kv: Seq<ValModel>,
) -> Seq<ValModel> {
    let dms = ValModel::Int((id.ms - master.ms) as i64);
    let dseq = ValModel::Int((id.seq - master.seq) as i64);
    if kv.len() == 0 {
        seq![ValModel::Int(0), dms, dseq, ValModel::Int(0), ValModel::Int(5)]
    } else if same_fields(kv, mnames) {
        seq![ValModel::Int(STREAM_ITEM_FLAG_SAMEFIELDS as i64), dms, dseq] + values_of(kv) + seq![
            ValModel::Int((4 + kv.len() / 2) as i64),
        ]
    } else {
        seq![ValModel::Int(0), dms, dseq, ValModel::Int((kv.len() / 2) as i64)] + kv + seq![
            ValModel::Int((5 + kv.len()) as i64),
        ]
    }
}

/// Archive-tier accounting for one stream: how many segments were moved
/// out and their sizes before and after compression.
pub struct StreamArchiveStats {
    pub segments: u64,
    pub total_size: u64,
    pub total_size_compressed: u64,
}

/// One record of the journal: its identifier and its key-value list.
pub struct RecModel {
    pub id: StreamID,
    pub kv: Seq<ValModel>,
}

/// All element values of a pack holding `recs`, master entry first.
pub open spec fn pack_entries(
    master: StreamID,
    mnames: Seq<ValModel>,
    recs: Seq<RecModel>,
) -> Seq<ValModel>
    decreases recs.len(),
{
    if recs.len() == 0 {
        master_entry(mnames)
    } else {
        pack_entries(master, mnames, recs.drop_last()) + rec_entry(
            master,
            mnames,
            recs.last().id,
            recs.last().kv,
        )
    }
}

/// The record entries of a pack, master entry excluded, concatenated in
/// order.
pub open spec fn recs_cat(
    master: StreamID,
    mnames: Seq<ValModel>,
    recs: Seq<RecModel>,
) -> Seq<ValModel>
    decreases recs.len(),
{
    if recs.len() == 0 {
        Seq::empty()
    } else {
        recs_cat(master, mnames, recs.drop_last()) + rec_entry(
            master,
            mnames,
            recs.last().id,
            recs.last().kv,
        )
    }
}

/// A pack's entries are its master entry followed by its record entries.
pub proof fn lemma_pack_entries_cat(master: StreamID, mnames: Seq<ValModel>, recs: Seq<RecModel>)
    ensures
        pack_entries(master, mnames, recs) == master_entry(mnames) + recs_cat(
            master,
            mnames,
            recs,
        ),
    decreases recs.len(),
{
    if recs.len() == 0 {
        assert(master_entry(mnames) + recs_cat(master, mnames, recs) =~= master_entry(mnames));
    } else {
        lemma_pack_entries_cat(master, mnames, recs.drop_last());
        assert(master_entry(mnames) + recs_cat(master, mnames, recs) =~= (master_entry(mnames)
            + recs_cat(master, mnames, recs.drop_last())) + rec_entry(
            master,
            mnames,
            recs.last().id,
            recs.last().kv,
        ));
    }
}

/// One more record extends the entry run by exactly that record's entry.
pub proof fn lemma_recs_cat_take(
    master: StreamID,
    mnames: Seq<ValModel>,
    recs: Seq<RecModel>,
    i: int,
)
    requires
        0 <= i < recs.len(),
    ensures
        recs_cat(master, mnames, recs.take(i + 1)) == recs_cat(master, mnames, recs.take(i))
            + rec_entry(master, mnames, recs[i].id, recs[i].kv),
{
    assert(recs.take(i + 1).drop_last() =~= recs.take(i));
    assert(recs.take(i + 1).last() == recs[i]);
}

/// The entries of the first `i` records are a prefix of the whole pack's
/// entries.
pub proof fn lemma_pack_prefix(
    master: StreamID,
    mnames: Seq<ValModel>,
    recs: Seq<RecModel>,
    i: int,
)
    requires
        0 <= i <= recs.len(),
    ensures
        ({
            let pv = pack_entries(master, mnames, recs);
            let off = (master_entry(mnames).len() + recs_cat(
                master,
                mnames,
                recs.take(i),
            ).len()) as int;
            off <= pv.len() && pv.subrange(0, off) == master_entry(mnames) + recs_cat(
                master,
                mnames,
                recs.take(i),
            )
        }),
    decreases recs.len() - i,
{
    let pv = pack_entries(master, mnames, recs);
    if i == recs.len() {
        lemma_pack_entries_cat(master, mnames, recs);
        assert(recs.take(i) =~= recs);
        assert(pv.subrange(0, pv.len() as int) =~= pv);
    } else {
        lemma_pack_prefix(master, mnames, recs, i + 1);
        lemma_recs_cat_take(master, mnames, recs, i);
        let off = (master_entry(mnames).len() + recs_cat(master, mnames, recs.take(i)).len()) as int;
        let off1 = (master_entry(mnames).len() + recs_cat(
            master,
            mnames,
            recs.take(i + 1),
        ).len()) as int;
        assert forall|k: int| 0 <= k < off implies pv.subrange(0, off)[k] == (master_entry(mnames)
            + recs_cat(master, mnames, recs.take(i)))[k] by {
            assert(pv.subrange(0, off1)[k] == pv[k]);
            assert(pv.subrange(0, off)[k] == pv[k]);
            assert((master_entry(mnames) + recs_cat(master, mnames, recs.take(i + 1)))[k] == (
            master_entry(mnames) + recs_cat(master, mnames, recs.take(i)))[k]);
        }
        assert(pv.subrange(0, off) =~= master_entry(mnames) + recs_cat(
            master,
            mnames,
            recs.take(i),
        ));
    }
}

/// The entry of record `i` sits in the pack's entries right after the
/// first `i` records' entries.
pub proof fn lemma_rec_slice(master: StreamID, mnames: Seq<ValModel>, recs: Seq<RecModel>, i: int)
    requires
        0 <= i < recs.len(),
    ensures
        ({
            let pv = pack_entries(master, mnames, recs);
            let a = (master_entry(mnames).len() + recs_cat(
                master,
                mnames,
                recs.take(i),
            ).len()) as int;
            let e = rec_entry(master, mnames, recs[i].id, recs[i].kv);
            a + e.len() <= pv.len() && pv.subrange(a, a + e.len()) == e
        }),
{
    let pv = pack_entries(master, mnames, recs);
    let a = (master_entry(mnames).len() + recs_cat(master, mnames, recs.take(i)).len()) as int;
    let e = rec_entry(master, mnames, recs[i].id, recs[i].kv);
    lemma_pack_prefix(master, mnames, recs, i);
    lemma_pack_prefix(master, mnames, recs, i + 1);
    lemma_recs_cat_take(master, mnames, recs, i);
    let pre1 = master_entry(mnames) + recs_cat(master, mnames, recs.take(i + 1));
    assert forall|k: int| 0 <= k < e.len() implies pv.subrange(a, a + e.len())[k] == e[k] by {
        assert(pv.subrange(0, pre1.len() as int)[a + k] == pv[a + k]);
        assert(pv.subrange(a, a + e.len())[k] == pv[a + k]);
        assert(pre1[a + k] == e[k]);
    }
    assert(pv.subrange(a, a + e.len()) =~= e);
}

/// The shape every record entry takes: an integer flag telling the two
/// encodings apart, the two delta integers, then either the values alone
/// or the field count and the pairs, and the closing element count.
pub proof fn lemma_rec_entry_shape(
    master: StreamID,
    mnames: Seq<ValModel>,
    id: StreamID,
    kv: Seq<ValModel>,
)
    requires
        kv.len() % 2 == 0,
    ensures
        ({
            let e = rec_entry(master, mnames, id, kv);
            &&& e.len() >= 5
            &&& e[0] == (if same_fields(kv, mnames) {
                ValModel::Int(2)
            } else {
                ValModel::Int(0)
            })
            &&& e[1] == ValModel::Int((id.ms - master.ms) as i64)
            &&& e[2] == ValModel::Int((id.seq - master.seq) as i64)
            &&& same_fields(kv, mnames) ==> (e.len() == 4 + kv.len() / 2 && forall|j: int|
                0 <= j < kv.len() / 2 ==> #[trigger] e[3 + j] == kv[2 * j + 1])
            &&& !same_fields(kv, mnames) ==> (e.len() == 5 + kv.len() && e[3] == ValModel::Int(
                (kv.len() / 2) as i64,
            ) && forall|j: int| 0 <= j < kv.len() ==> #[trigger] e[4 + j] == kv[j])
        }),
{
    let e = rec_entry(master, mnames, id, kv);
    if kv.len() == 0 {
    } else if same_fields(kv, mnames) {
        assert(kv.len() >= 2);
        assert forall|j: int| 0 <= j < kv.len() / 2 implies #[trigger] e[3 + j] == kv[2 * j
            + 1] by {
            assert(e[3 + j] == values_of(kv)[j]);
        }
    } else {
        assert forall|j: int| 0 <= j < kv.len() implies #[trigger] e[4 + j] == kv[j] by {
            assert(e[4 + j] == kv[j]);
        }
    }
}

/// Every value in the run is representable by the codec.
pub open spec fn val_models_ok(s: Seq<ValModel>) -> bool {
    forall|i: int| 0 <= i < s.len() ==> val_ok(#[trigger] s[i])
}

/// What a readable pack witness must satisfy: at least one record, names
/// within the master-entry bounds, and every record with an even, bounded,
/// representable key-value list whose identifier delta-encodes against
/// the master.
pub open spec fn parse_witness_ok(
    master: StreamID,
    mnames: Seq<ValModel>,
    recs: Seq<RecModel>,
) -> bool {
    &&& recs.len() > 0
    &&& mnames.len() <= 0x8000
    &&& val_models_ok(mnames)
    &&& forall|i: int|
        0 <= i < recs.len() ==> ({
            let kv = (#[trigger] recs[i]).kv;
            &&& kv.len() % 2 == 0
            &&& kv.len() <= 0xFFFF
            &&& val_models_ok(kv)
            &&& StreamWriter::delta_fits(master, recs[i].id)
        })
}

/// A sealed pack: its master identifier and names, the encoded data, and
/// the records it holds.
pub struct SealedPack {
    pub master_id: StreamID,
    pub master_names: Vec<Value>,
    pub data: Listpack,
    pub recs: Ghost<Seq<RecModel>>,
}

impl SealedPack {
    /// The sealed data is exactly the encoding of its records.
    pub open spec fn wf(&self) -> bool {
        &&& self.data.wf()
        &&& self.recs@.len() > 0
        &&& self.data@ == pack_entries(self.master_id, views_of(self.master_names@), self.recs@)
    }
}

/// Mutations to one stream go through its writer: it owns the tail pack,
/// assigns identifiers, delta-encodes each record against the tail's
/// master, and rolls over to a fresh pack when the pack ceiling or the
/// delta form would be exceeded.
pub struct StreamWriter {
    /// Last identifier handed out; the next is strictly greater.
    pub last_id: StreamID,
    /// The identifier all tail records delta-encode against.
    pub tail_master_id: StreamID,
    /// Field names of the tail's master entry.
    pub master_fields: Vec<Value>,
    /// The mutable tail pack.
    pub tail: Listpack,
    /// Records in the tail pack.
    pub tail_recs: Ghost<Seq<RecModel>>,
    /// Packs already sealed by rollover, oldest first.
    pub sealed: Vec<SealedPack>,
    /// Ceiling for a pack's encoded bytes.
    pub pack_max: u32,
}

impl StreamWriter {
    /// All records this writer has accepted, in order.
    pub open spec fn journal(&self) -> Seq<RecModel>
        decreases self.sealed@.len(),
    {
        Self::sealed_recs(self.sealed@) + self.tail_recs@
    }

    /// The records of a run of sealed packs, in order.
    pub open spec fn sealed_recs(packs: Seq<SealedPack>) -> Seq<RecModel>
        decreases packs.len(),
    {
        if packs.len() == 0 {
            Seq::empty()
        } else {
            Self::sealed_recs(packs.drop_last()) + packs.last().recs@
        }
    }

    /// The writer's data always encodes exactly its journal: the tail is
    /// the encoding of the tail records against the tail master, every
    /// sealed pack the encoding of its own, and nothing is ever dropped.
    pub open spec fn wf(&self) -> bool {
        &&& self.tail.wf()
        &&& val_seq_ok_values(self.master_fields@)
        &&& self.tail_recs@.len() == 0 ==> self.tail@.len() == 0
        &&& self.tail_recs@.len() > 0 ==> self.tail@ == pack_entries(
            self.tail_master_id,
            views_of(self.master_fields@),
            self.tail_recs@,
        )
        &&& forall|i: int| 0 <= i < self.sealed@.len() ==> (#[trigger] self.sealed@[i]).wf()
    }

    /// A writer with an empty tail, ready for its first record.
    pub fn new(pack_max: u32) -> (r: StreamWriter)
        ensures
            r.wf(),
            r.journal() == Seq::<RecModel>::empty(),
            r.last_id == (StreamID { ms: 0, seq: 0 }),
            r.pack_max == pack_max,
            r.sealed@.len() == 0,
    {
        let w = StreamWriter {
            last_id: StreamID { ms: 0, seq: 0 },
            tail_master_id: StreamID { ms: 0, seq: 0 },
            master_fields: Vec::new(),
            tail: Listpack::new(),
            tail_recs: Ghost(Seq::empty()),
            sealed: Vec::new(),
            pack_max,
        };
        proof {
            assert(Self::sealed_recs(w.sealed@) =~= Seq::<RecModel>::empty());
            assert(w.journal() =~= Seq::<RecModel>::empty());
        }
        w
    }

    /// Assign the next record identifier: strictly greater than every one
    /// assigned before, wall-clock driven with a sequence tie-break.
    pub fn next_id(&mut self) -> (r: StreamID)
        requires
            old(self).last_id.seq < u64::MAX,
        ensures
            old(self).last_id.lt_spec(r),
            final(self).last_id == r,
            final(self).tail == old(self).tail,
            final(self).tail_recs == old(self).tail_recs,
            final(self).sealed == old(self).sealed,
            final(self).tail_master_id == old(self).tail_master_id,
            final(self).master_fields == old(self).master_fields,
            final(self).pack_max == old(self).pack_max,
    {
        let id = crate::id::next_id(&self.last_id);
        self.last_id = id;
        id
    }
}

/// Every value in the run is representable by the codec.
pub open spec fn val_seq_ok_values(vs: Seq<Value>) -> bool {
    forall|i: int| 0 <= i < vs.len() ==> val_ok((#[trigger] vs[i])@)
}

/// An owned copy of an element value.
pub fn value_dup(v: &Value) -> (r: Value)
    ensures
        r@ == v@,
{
    match v {
        Value::Int(x) => Value::Int(*x),
        Value::String(b) => {
            let mut copy: Vec<u8> = Vec::new();
            copy.extend_from_slice(b.as_slice());
            proof {
                assert(copy@ =~= b@);
            }
            Value::String(copy)
        },
    }
}

/// Whether two element values denote the same model value.
pub fn value_eq(a: &Value, b: &Value) -> (r: bool)
    ensures
        r == (a@ == b@),
{
    match (a, b) {
        (Value::Int(x), Value::Int(y)) => x == y,
        (Value::String(x), Value::String(y)) => {
            let c = lex_cmp(x, y);
            matches!(c, core::cmp::Ordering::Equal)
        },
        _ => false,
    }
}

impl StreamWriter {
    /// Whether a record's identifier can be delta-encoded against the
    /// given master: componentwise at or above it, with both deltas
    /// fitting the signed 64-bit entry form.
    pub open spec fn delta_fits(master: StreamID, id: StreamID) -> bool {
        &&& id.ms >= master.ms
        &&& id.ms - master.ms <= i64::MAX
        &&& id.seq >= master.seq
        &&& id.seq - master.seq <= i64::MAX
    }

    /// Whether the field names of `kv` repeat the current master list.
    fn names_match(mnames: &Vec<Value>, kv: &Vec<Value>) -> (r: bool)
        requires
            kv@.len() % 2 == 0,
            kv@.len() <= 0xFFFF,
        ensures
            r == (kv@.len() > 0 && names_of(views_of(kv@)) == views_of(mnames@)),
    {
        let k = kv.len() / 2;
        if kv.len() == 0 || k != mnames.len() {
            proof {
                if kv@.len() > 0 {
                    assert(names_of(views_of(kv@)).len() == views_of(kv@).len() / 2);
                }
            }
            return false;
        }
        let mut i: usize = 0;
        while i < k
            invariant
                kv@.len() % 2 == 0,
                kv@.len() <= 0xFFFF,
                k == kv@.len() / 2,
                k == mnames@.len(),
                i <= k,
                forall|j: int| 0 <= j < i ==> views_of(kv@)[2 * j] == views_of(mnames@)[j],
            decreases k - i,
        {
            if !value_eq(&kv[2 * i], &mnames[i]) {
                proof {
                    assert(names_of(views_of(kv@))[i as int] == views_of(kv@)[2 * (i as int)]);
                }
                return false;
            }
            proof {
                assert(views_of(kv@)[2 * (i as int)] == kv@[2 * (i as int)]@);
                assert(views_of(mnames@)[i as int] == mnames@[i as int]@);
            }
            i = i + 1;
        }
        proof {
            assert forall|j: int| 0 <= j < k implies names_of(views_of(kv@))[j] == views_of(
                mnames@,
            )[j] by {
                assert(names_of(views_of(kv@))[j] == views_of(kv@)[2 * j]);
            }
            assert(names_of(views_of(kv@)) =~= views_of(mnames@));
        }
        true
    }

    /// Build the element values one record contributes, exactly as
    /// `rec_entry` lays them out.
    fn build_entry(master: &StreamID, mnames: &Vec<Value>, id: &StreamID, kv: &Vec<Value>) -> (r:
        Vec<Value>)
        requires
            kv@.len() % 2 == 0,
            kv@.len() <= 0xFFFF,
            Self::delta_fits(*master, *id),
            val_seq_ok_values(kv@),
        ensures
            views_of(r@) == rec_entry(*master, views_of(mnames@), *id, views_of(kv@)),
            val_seq_ok_values(r@),
            r@.len() <= kv@.len() + 5,
    {
        let ghost kvm = views_of(kv@);
        let ghost mn = views_of(mnames@);
        let ghost want = rec_entry(*master, mn, *id, kvm);
        let dms = Value::Int((id.ms - master.ms) as i64);
        let dseq = Value::Int((id.seq - master.seq) as i64);
        let mut out: Vec<Value> = Vec::new();
        if kv.len() == 0 {
            out.push(Value::Int(0));
            out.push(dms);
            out.push(dseq);
            out.push(Value::Int(0));
            out.push(Value::Int(5));
            proof {
                assert forall|j: int| 0 <= j < out@.len() implies views_of(out@)[j] == want[j] by {
                    assert(views_of(out@)[j] == out@[j]@);
                }
                assert(views_of(out@) =~= want);
                assert forall|i: int| 0 <= i < out@.len() implies val_ok(
                    (#[trigger] out@[i])@,
                ) by {
                    assert(views_of(out@)[i] == out@[i]@);
                }
            }
            out
        } else if Self::names_match(mnames, kv) {
            out.push(Value::Int(STREAM_ITEM_FLAG_SAMEFIELDS as i64));
            out.push(dms);
            out.push(dseq);
            let ghost head = out@;
            let k = kv.len() / 2;
            let mut i: usize = 0;
            while i < k
                invariant
                    kv@.len() % 2 == 0,
                    kv@.len() <= 0xFFFF,
                    k == kv@.len() / 2,
                    i <= k,
                    out@.len() == 3 + i,
                    val_seq_ok_values(kv@),
                    forall|j: int| 0 <= j < 3 ==> out@[j] == head[j],
                    head.len() == 3,
                    forall|j: int| 0 <= j < i ==> (#[trigger] out@[3 + j])@ == kvm[2 * j + 1],
                    kvm == views_of(kv@),
                decreases k - i,
            {
                out.push(value_dup(&kv[2 * i + 1]));
                proof {
                    assert(kvm[2 * (i as int) + 1] == kv@[2 * (i as int) + 1]@);
                }
                i = i + 1;
            }
            let ghost body = out@;
            out.push(Value::Int((4 + k) as i64));
            proof {
                assert forall|j: int| 0 <= j < out@.len() implies views_of(out@)[j] == want[j] by {
                    assert(views_of(out@)[j] == out@[j]@);
                    if j < body.len() {
                        assert(out@[j] == body[j]);
                    }
                    if j < 3 {
                        assert(body[j] == head[j]);
                        assert(want[j] == (seq![
                            ValModel::Int(STREAM_ITEM_FLAG_SAMEFIELDS as i64),
                            ValModel::Int((id.ms - master.ms) as i64),
                            ValModel::Int((id.seq - master.seq) as i64),
                        ])[j]);
                    } else if j < 3 + k {
                        assert(body[3 + (j - 3)]@ == kvm[2 * (j - 3) + 1]);
                        assert(values_of(kvm)[j - 3] == kvm[2 * (j - 3) + 1]);
                        assert(want[j] == values_of(kvm)[j - 3]);
                    } else {
                        assert(j == 3 + k);
                        assert(want[j] == ValModel::Int((4 + kvm.len() / 2) as i64));
                    }
                }
                assert(views_of(out@) =~= want);
                assert forall|i: int| 0 <= i < out@.len() implies val_ok(
                    (#[trigger] out@[i])@,
                ) by {
                    assert(views_of(out@)[i] == out@[i]@);
                    if 3 <= i < 3 + k {
                        assert(val_ok(kv@[2 * (i - 3) + 1]@));
                        assert(out@[i]@ == values_of(kvm)[i - 3]);
                        assert(values_of(kvm)[i - 3] == kvm[2 * (i - 3) + 1]);
                    }
                }
            }
            out
        } else {
            out.push(Value::Int(0));
            out.push(dms);
            out.push(dseq);
            out.push(Value::Int((kv.len() / 2) as i64));
            let ghost head = out@;
            let n = kv.len();
            let mut i: usize = 0;
            while i < n
                invariant
                    kv@.len() % 2 == 0,
                    kv@.len() <= 0xFFFF,
                    n == kv@.len(),
                    i <= n,
                    out@.len() == 4 + i,
                    val_seq_ok_values(kv@),
                    forall|j: int| 0 <= j < 4 ==> out@[j] == head[j],
                    head.len() == 4,
                    forall|j: int| 0 <= j < i ==> (#[trigger] out@[4 + j])@ == kvm[j],
                    kvm == views_of(kv@),
                decreases n - i,
            {
                out.push(value_dup(&kv[i]));
                proof {
                    assert(kvm[i as int] == kv@[i as int]@);
                }
                i = i + 1;
            }
            let ghost body = out@;
            out.push(Value::Int((5 + n) as i64));
            proof {
                assert forall|j: int| 0 <= j < out@.len() implies views_of(out@)[j] == want[j] by {
                    assert(views_of(out@)[j] == out@[j]@);
                    if j < body.len() {
                        assert(out@[j] == body[j]);
                    }
                    if j < 4 {
                        assert(body[j] == head[j]);
                        assert(want[j] == (seq![
                            ValModel::Int(0),
                            ValModel::Int((id.ms - master.ms) as i64),
                            ValModel::Int((id.seq - master.seq) as i64),
                            ValModel::Int((kvm.len() / 2) as i64),
                        ])[j]);
                    } else if j < 4 + n {
                        assert(body[4 + (j - 4)]@ == kvm[j - 4]);
                        assert(want[j] == kvm[j - 4]);
                    } else {
                        assert(j == 4 + n);
                        assert(want[j] == ValModel::Int((5 + kvm.len()) as i64));
                    }
                }
                assert(views_of(out@) =~= want);
                assert forall|i: int| 0 <= i < out@.len() implies val_ok(
                    (#[trigger] out@[i])@,
                ) by {
                    assert(views_of(out@)[i] == out@[i]@);
                    if 4 <= i < 4 + n {
                        assert(val_ok(kv@[i - 4]@));
                        assert(out@[i]@ == kvm[i - 4]);
                    }
                }
            }
            out
        }
    }

    /// Total encoded bytes a run of element values occupies in a pack.
    fn entries_size(vals: &Vec<Value>) -> (r: u64)
        requires
            val_seq_ok_values(vals@),
            vals@.len() <= 0x2_0000,
        ensures
            r == crate::listpack::elems_size(views_of(vals@)),
            r <= vals@.len() * 0x1_0000_0010,
    {
        let n = vals.len();
        let mut acc: u64 = 0;
        let mut i: usize = 0;
        proof {
            assert(views_of(vals@).take(0) =~= Seq::<ValModel>::empty());
        }
        while i < n
            invariant
                n == vals@.len() <= 0x2_0000,
                i <= n,
                val_seq_ok_values(vals@),
                acc == crate::listpack::elems_size(views_of(vals@).take(i as int)),
                acc <= i * 0x1_0000_0010,
            decreases n - i,
        {
            proof {
                crate::codec::lemma_enc_size_is_len(vals@[i as int]@);
                assert(views_of(vals@).take(i + 1) =~= views_of(vals@).take(i as int).push(
                    views_of(vals@)[i as int],
                ));
                crate::listpack::lemma_elems_bytes_push(
                    views_of(vals@).take(i as int),
                    views_of(vals@)[i as int],
                );
            }
            let sz = vals[i].size_for_write();
            acc = acc + sz as u64;
            i = i + 1;
        }
        proof {
            assert(views_of(vals@).take(n as int) =~= views_of(vals@));
        }
        acc
    }

    /// Append one record into the tail pack if it fits under `pack_max`,
    /// delta-encoding its identifier against the tail master. When it
    /// would not fit, fail fast with `Overflow` and leave everything
    /// untouched, so the caller can roll the pack over; an odd key-value
    /// list is `BadInput`.
    pub fn append(&mut self, id: StreamID, kv: &Vec<Value>) -> (r: Result<(), StreamError>)
        requires
            old(self).wf(),
            old(self).tail_recs@.len() > 0,
            Self::delta_fits(old(self).tail_master_id, id),
            val_seq_ok_values(kv@),
            kv@.len() <= 0xFFFF,
        ensures
            final(self).wf(),
            r == Err::<(), StreamError>(StreamError::BadInput) <==> kv@.len() % 2 == 1,
            r is Err ==> *final(self) == *old(self),
            r matches Err(e) ==> (e == StreamError::BadInput || e == StreamError::Overflow),
            r == Err::<(), StreamError>(StreamError::Overflow) <==> (kv@.len() % 2 == 0 && old(
                self,
            ).tail.total_bytes() + crate::listpack::elems_size(
                rec_entry(
                    old(self).tail_master_id,
                    views_of(old(self).master_fields@),
                    id,
                    views_of(kv@),
                ),
            ) > old(self).pack_max),
            r is Ok ==> ({
                let rec = RecModel { id, kv: views_of(kv@) };
                &&& final(self).tail_recs@ == old(self).tail_recs@.push(rec)
                &&& final(self).journal() == old(self).journal() + seq![rec]
                &&& final(self).sealed == old(self).sealed
                &&& final(self).last_id == old(self).last_id
                &&& final(self).tail_master_id == old(self).tail_master_id
                &&& final(self).master_fields == old(self).master_fields
                &&& final(self).pack_max == old(self).pack_max
            }),
    {
        if kv.len() % 2 == 1 {
            return Err(StreamError::BadInput);
        }
        let entry = Self::build_entry(&self.tail_master_id, &self.master_fields, &id, kv);
        let need = Self::entries_size(&entry);
        let cur = self.tail.bytes() as u64;
        proof {
            self.tail.lemma_header_exact();
        }
        if cur + need > self.pack_max as u64 {
            return Err(StreamError::Overflow);
        }
        let ghost prev = *self;
        push_values(&mut self.tail, &entry);
        proof {
            let rec = RecModel { id, kv: views_of(kv@) };
            self.tail_recs@ = prev.tail_recs@.push(rec);
            let recs = self.tail_recs@;
            assert(recs.drop_last() =~= prev.tail_recs@);
            assert(self.tail@ == pack_entries(
                self.tail_master_id,
                views_of(self.master_fields@),
                recs,
            ));
            assert(Self::sealed_recs(self.sealed@) == Self::sealed_recs(prev.sealed@));
            assert(self.journal() =~= prev.journal() + seq![rec]);
        }
        Ok(())
    }

    /// Whether even a fresh pack cannot hold this record: the master
    /// entry built from its field names plus its own entry would pass the
    /// 32-bit listpack total. Only such a record is ever refused with
    /// `Overflow` at the rollover layer.
    pub open spec fn fresh_pack_overflows(id: StreamID, kv: Seq<ValModel>) -> bool {
        7 + crate::listpack::elems_size(master_entry(names_of(kv)))
            + crate::listpack::elems_size(rec_entry(id, names_of(kv), id, kv)) > 0xFFFF_FFFF
    }

    /// Add a record, rolling over to a fresh pack when the tail cannot
    /// take it: when no pack is started, the pack ceiling would be
    /// exceeded, or the identifier cannot be delta-encoded against the
    /// current master. Rollover seals the old tail; nothing already
    /// written is ever lost, and success is owed whenever the field list
    /// is even and the record fits a fresh pack.
    pub fn add_record(&mut self, id: StreamID, kv: &Vec<Value>) -> (r: Result<(), StreamError>)
        requires
            old(self).wf(),
            val_seq_ok_values(kv@),
            kv@.len() <= 0xFFFF,
        ensures
            final(self).wf(),
            r == Err::<(), StreamError>(StreamError::BadInput) <==> kv@.len() % 2 == 1,
            r == Err::<(), StreamError>(StreamError::Overflow) ==> Self::fresh_pack_overflows(
                id,
                views_of(kv@),
            ),
            kv@.len() % 2 == 0 && !Self::fresh_pack_overflows(id, views_of(kv@)) ==> r is Ok,
            r is Err ==> *final(self) == *old(self),
            r is Ok ==> ({
                let rec = RecModel { id, kv: views_of(kv@) };
                &&& final(self).journal() == old(self).journal() + seq![rec]
                &&& final(self).last_id == id
                &&& final(self).pack_max == old(self).pack_max
            }),
    {
        if kv.len() % 2 == 1 {
            return Err(StreamError::BadInput);
        }
        let started = self.tail.bytes() > 7;
        proof {
            crate::listpack::lemma_elems_bytes_len(self.tail@);
            if self.tail_recs@.len() > 0 {
                assert(self.tail@.len() > 0);
            }
        }
        let m = self.tail_master_id;
        let delta_ok = id.ms >= m.ms && id.ms - m.ms <= i64::MAX as u64 && id.seq >= m.seq
            && id.seq - m.seq <= i64::MAX as u64;
        if started && delta_ok {
            proof {
                self.tail.lemma_header_exact();
                if self.tail_recs@.len() == 0 {
                    assert(crate::listpack::elems_size(self.tail@) == 0);
                    assert(false);
                }
            }
            match self.append(id, kv) {
                Ok(()) => {
                    self.last_id = id;
                    return Ok(());
                },
                Err(_) => {
                    // the tail is full for this record: roll over below
                },
            }
        }
        match self.start_fresh(id, kv) {
            Ok(()) => {
                self.last_id = id;
                Ok(())
            },
            Err(e) => Err(e),
        }
    }

    /// Seal the tail (when non-empty) and start a fresh pack whose master
    /// is this record's identifier, holding just this record. Refused,
    /// with nothing changed, exactly when the record cannot fit even a
    /// fresh pack.
    fn start_fresh(&mut self, id: StreamID, kv: &Vec<Value>) -> (r: Result<(), StreamError>)
        requires
            old(self).wf(),
            val_seq_ok_values(kv@),
            kv@.len() % 2 == 0,
            kv@.len() <= 0xFFFF,
        ensures
            final(self).wf(),
            r is Err <==> Self::fresh_pack_overflows(id, views_of(kv@)),
            r matches Err(e) ==> e == StreamError::Overflow,
            r is Err ==> *final(self) == *old(self),
            r is Ok ==> ({
                let rec = RecModel { id, kv: views_of(kv@) };
                &&& final(self).journal() == old(self).journal() + seq![rec]
                &&& final(self).tail_master_id == id
                &&& final(self).last_id == old(self).last_id
                &&& final(self).pack_max == old(self).pack_max
            }),
    {
        let names = collect_names(kv);
        let mentry = build_master(&names);
        let rentry = Self::build_entry(&id, &names, &id, kv);
        let msize = Self::entries_size(&mentry);
        let rsize = Self::entries_size(&rentry);
        if 7 + msize + rsize > 0xFFFF_FFFF {
            return Err(StreamError::Overflow);
        }
        let ghost prev = *self;
        let mut fresh = Listpack::new();
        push_values(&mut fresh, &mentry);
        push_values(&mut fresh, &rentry);
        let old_master = self.tail_master_id;
        let started = self.tail.bytes() > 7;
        proof {
            crate::listpack::lemma_elems_bytes_len(self.tail@);
            if self.tail_recs@.len() > 0 {
                assert(self.tail@.len() > 0);
            }
        }
        proof {
            self.tail.lemma_header_exact();
            if !started && self.tail_recs@.len() > 0 {
                assert(crate::listpack::elems_size(self.tail@) >= 1) by {
                    crate::listpack::lemma_elems_bytes_len(self.tail@);
                    lemma_pack_entries_len(
                        self.tail_master_id,
                        views_of(self.master_fields@),
                        self.tail_recs@,
                    );
                }
                assert(false);
            }
        }
        core::mem::swap(&mut self.tail, &mut fresh);
        if started {
            let old_names = dup_values(&self.master_fields);
            let ghost old_recs = self.tail_recs@;
            let pack = SealedPack {
                master_id: old_master,
                master_names: old_names,
                data: fresh,
                recs: Ghost(old_recs),
            };
            let ghost gp = pack;
            proof {
                assert(gp.data@ == prev.tail@);
                assert(views_of(gp.master_names@) == views_of(prev.master_fields@));
                assert(gp.data@ == pack_entries(gp.master_id, views_of(gp.master_names@), gp.recs@));
                assert(gp.wf());
            }
            self.sealed.push(pack);
            proof {
                assert(self.sealed@.last() == gp);
            }
        }
        let ghost rec = RecModel { id, kv: views_of(kv@) };
        self.tail_master_id = id;
        self.master_fields = names;
        proof {
            self.tail_recs@ = seq![rec];
            let recs = self.tail_recs@;
            assert(recs.drop_last() =~= Seq::<RecModel>::empty());
            assert(pack_entries(id, views_of(self.master_fields@), recs.drop_last())
                == master_entry(views_of(self.master_fields@)));
            assert(self.tail@ == master_entry(views_of(self.master_fields@)) + rec_entry(
                id,
                views_of(self.master_fields@),
                id,
                views_of(kv@),
            ));
            assert(self.tail@ == pack_entries(id, views_of(self.master_fields@), recs));
            if started {
                assert(self.sealed@.drop_last() =~= prev.sealed@);
                assert(self.sealed@.last().wf());
                assert(Self::sealed_recs(self.sealed@) == Self::sealed_recs(prev.sealed@)
                    + prev.tail_recs@);
                assert(self.journal() =~= prev.journal() + seq![rec]);
            } else {
                assert(prev.tail_recs@ =~= Seq::<RecModel>::empty());
                assert(self.journal() =~= prev.journal() + seq![rec]);
            }
            assert(self.wf());
        }
        Ok(())
    }
}

/// Field names of a key-value list: owned copies of the even positions.
fn collect_names(kv: &Vec<Value>) -> (r: Vec<Value>)
    requires
        kv@.len() % 2 == 0,
        kv@.len() <= 0xFFFF,
        val_seq_ok_values(kv@),
    ensures
        views_of(r@) == names_of(views_of(kv@)),
        val_seq_ok_values(r@),
        r@.len() == kv@.len() / 2,
{
    let k = kv.len() / 2;
    let mut out: Vec<Value> = Vec::new();
    let mut i: usize = 0;
    while i < k
        invariant
            kv@.len() % 2 == 0,
            kv@.len() <= 0xFFFF,
            k == kv@.len() / 2,
            i <= k,
            val_seq_ok_values(kv@),
            out@.len() == i,
            forall|j: int| 0 <= j < i ==> (#[trigger] out@[j])@ == views_of(kv@)[2 * j],
        decreases k - i,
    {
        out.push(value_dup(&kv[2 * i]));
        proof {
            assert(views_of(kv@)[2 * (i as int)] == kv@[2 * (i as int)]@);
        }
        i = i + 1;
    }
    proof {
        assert forall|j: int| 0 <= j < k implies views_of(out@)[j] == names_of(views_of(kv@))[j] by {
            assert(views_of(out@)[j] == out@[j]@);
            assert(names_of(views_of(kv@))[j] == views_of(kv@)[2 * j]);
        }
        assert(views_of(out@) =~= names_of(views_of(kv@)));
        assert forall|i2: int| 0 <= i2 < out@.len() implies val_ok((#[trigger] out@[i2])@) by {
            assert(out@[i2]@ == views_of(kv@)[2 * i2]);
            assert(val_ok(kv@[2 * i2]@));
        }
    }
    out
}

/// The master entry's element values for the given field names.
fn build_master(names: &Vec<Value>) -> (r: Vec<Value>)
    requires
        names@.len() <= 0x8000,
        val_seq_ok_values(names@),
    ensures
        views_of(r@) == master_entry(views_of(names@)),
        val_seq_ok_values(r@),
        r@.len() == names@.len() + 4,
{
    let ghost mn = views_of(names@);
    let ghost want = master_entry(mn);
    let mut out: Vec<Value> = Vec::new();
    out.push(Value::Int(1));
    out.push(Value::Int(0));
    out.push(Value::Int(names.len() as i64));
    let ghost head = out@;
    let n = names.len();
    let mut i: usize = 0;
    while i < n
        invariant
            n == names@.len() <= 0x8000,
            i <= n,
            val_seq_ok_values(names@),
            out@.len() == 3 + i,
            head.len() == 3,
            forall|j: int| 0 <= j < 3 ==> out@[j] == head[j],
            forall|j: int| 0 <= j < i ==> (#[trigger] out@[3 + j])@ == views_of(names@)[j],
            mn == views_of(names@),
        decreases n - i,
    {
        out.push(value_dup(&names[i]));
        proof {
            assert(views_of(names@)[i as int] == names@[i as int]@);
        }
        i = i + 1;
    }
    let ghost body = out@;
    out.push(Value::Int(0));
    proof {
        assert forall|j: int| 0 <= j < out@.len() implies views_of(out@)[j] == want[j] by {
            assert(views_of(out@)[j] == out@[j]@);
            if j < body.len() {
                assert(out@[j] == body[j]);
            }
            if j < 3 {
                assert(body[j] == head[j]);
                assert(want[j] == (seq![
                    ValModel::Int(1),
                    ValModel::Int(0),
                    ValModel::Int(mn.len() as i64),
                ])[j]);
            } else if j < 3 + n {
                assert(body[3 + (j - 3)]@ == mn[j - 3]);
                assert(want[j] == mn[j - 3]);
            } else {
                assert(j == 3 + n);
                assert(want[j] == ValModel::Int(0));
            }
        }
        assert(views_of(out@) =~= want);
        assert forall|i2: int| 0 <= i2 < out@.len() implies val_ok((#[trigger] out@[i2])@) by {
            assert(views_of(out@)[i2] == out@[i2]@);
            if 3 <= i2 < 3 + n {
                assert(val_ok(names@[i2 - 3]@));
                assert(out@[i2]@ == mn[i2 - 3]);
            }
        }
    }
    out
}

/// An owned copy of a run of element values.
fn dup_values(vs: &Vec<Value>) -> (r: Vec<Value>)
    requires
        val_seq_ok_values(vs@),
    ensures
        views_of(r@) == views_of(vs@),
        val_seq_ok_values(r@),
{
    let n = vs.len();
    let mut out: Vec<Value> = Vec::new();
    let mut i: usize = 0;
    while i < n
        invariant
            n == vs@.len(),
            i <= n,
            val_seq_ok_values(vs@),
            out@.len() == i,
            forall|j: int| 0 <= j < i ==> (#[trigger] out@[j])@ == vs@[j]@,
        decreases n - i,
    {
        out.push(value_dup(&vs[i]));
        i = i + 1;
    }
    proof {
        assert forall|j: int| 0 <= j < n implies views_of(out@)[j] == views_of(vs@)[j] by {
            assert(views_of(out@)[j] == out@[j]@);
            assert(views_of(vs@)[j] == vs@[j]@);
        }
        assert(views_of(out@) =~= views_of(vs@));
        assert forall|i2: int| 0 <= i2 < out@.len() implies val_ok((#[trigger] out@[i2])@) by {
            assert(out@[i2]@ == vs@[i2]@);
            assert(val_ok(vs@[i2]@));
        }
    }
    out
}

/// One record as read back out of a pack: its identifier, its full
/// key-value list (names resolved from the master entry for SAMEFIELDS
/// records), and whether that flag was set.
pub struct ParsedRecord {
    pub id: StreamID,
    pub kv: Vec<Value>,
    pub samefields: bool,
}

/// The journal models of a run of parsed records.
pub open spec fn parsed_models(rs: Seq<ParsedRecord>) -> Seq<RecModel> {
    rs.map_values(|r: ParsedRecord| RecModel { id: r.id, kv: views_of(r.kv@) })
}

/// Whether two element-value runs denote the same model values.
fn values_equal(a: &Vec<Value>, b: &Vec<Value>) -> (r: bool)
    ensures
        r == (views_of(a@) == views_of(b@)),
{
    let n = a.len();
    if n != b.len() {
        proof {
            assert(views_of(a@).len() != views_of(b@).len());
        }
        return false;
    }
    let mut i: usize = 0;
    while i < n
        invariant
            n == a@.len() == b@.len(),
            i <= n,
            forall|j: int| 0 <= j < i ==> views_of(a@)[j] == views_of(b@)[j],
        decreases n - i,
    {
        if !value_eq(&a[i], &b[i]) {
            proof {
                assert(views_of(a@)[i as int] == a@[i as int]@);
                assert(views_of(b@)[i as int] == b@[i as int]@);
            }
            return false;
        }
        proof {
            assert(views_of(a@)[i as int] == a@[i as int]@);
            assert(views_of(b@)[i as int] == b@[i as int]@);
        }
        i = i + 1;
    }
    proof {
        assert(views_of(a@) =~= views_of(b@));
    }
    true
}

/// Read the records back out of a pack. The element values are first
/// interpreted — master entry, then per-record entries, names resolved
/// through the master list — and the interpretation is then certified by
/// re-encoding it and demanding the exact same element values. Whatever
/// this returns, the pack is precisely the encoding of those records;
/// and whenever the pack is the encoding of some readable record run, a
/// result is owed.
pub fn parse_pack(lp: &Listpack, master: StreamID) -> (r: Option<(Vec<Value>, Vec<ParsedRecord>)>)
    requires
        lp.wf(),
    ensures
        r matches Some(p) ==> lp@ == pack_entries(master, views_of(p.0@), parsed_models(p.1@))
            && p.1@.len() > 0,
        (exists|ns: Seq<ValModel>, rs: Seq<RecModel>|
            parse_witness_ok(master, ns, rs) && lp@ == pack_entries(master, ns, rs)) ==> r
            is Some,
{
    let ghost havewf = exists|ns: Seq<ValModel>, rs: Seq<RecModel>|
        parse_witness_ok(master, ns, rs) && lp@ == pack_entries(master, ns, rs);
    let ghost (ns0, recs0): (Seq<ValModel>, Seq<RecModel>) = choose|ns: Seq<ValModel>, rs: Seq<
        RecModel,
    >| parse_witness_ok(master, ns, rs) && lp@ == pack_entries(master, ns, rs);
    proof {
        if havewf {
            lemma_pack_entries_cat(master, ns0, recs0);
            assert(lp@.subrange(0, master_entry(ns0).len() as int) =~= master_entry(ns0)) by {
                lemma_pack_prefix(master, ns0, recs0, 0);
                assert(recs0.take(0) =~= Seq::<RecModel>::empty());
                assert(master_entry(ns0) + recs_cat(master, ns0, recs0.take(0)) =~= master_entry(
                    ns0,
                ));
            }
            assert(forall|j: int|
                0 <= j < master_entry(ns0).len() ==> #[trigger] lp@[j] == master_entry(ns0)[j])
                by {
                assert(forall|j: int|
                    0 <= j < master_entry(ns0).len() ==> lp@.subrange(
                        0,
                        master_entry(ns0).len() as int,
                    )[j] == #[trigger] lp@[j]);
            }
        }
    }
    let vals = lp.iter();
    let n = vals.len();
    if n < 4 {
        proof {
            if havewf {
                assert(lp@[2] == master_entry(ns0)[2]);
            }
        }
        return None;
    }
    // master entry: count, deleted, num-fields, names..., 0
    proof {
        if havewf {
            assert(master_entry(ns0)[2] == ValModel::Int(ns0.len() as i64));
            assert(lp@[2] == master_entry(ns0)[2]);
            assert(vals@[2]@ == lp@[2]);
        }
    }
    let nf = match &vals[2] {
        Value::Int(k) => {
            if *k < 0 || *k > 0x8000 {
                return None;
            }
            *k as usize
        },
        Value::String(_) => {
            return None;
        },
    };
    if n < nf + 4 {
        proof {
            if havewf {
                assert(nf == ns0.len());
            }
        }
        return None;
    }
    let mut names: Vec<Value> = Vec::new();
    let mut i: usize = 0;
    while i < nf
        invariant
            nf + 4 <= n == vals@.len(),
            i <= nf,
            names@.len() == i,
            forall|j: int| 0 <= j < n ==> (#[trigger] vals@[j])@ == lp@[j],
            forall|j: int| 0 <= j < i ==> (#[trigger] names@[j])@ == lp@[3 + j],
        decreases nf - i,
    {
        names.push(value_dup(&vals[3 + i]));
        i = i + 1;
    }
    proof {
        if havewf {
            assert(nf == ns0.len());
            assert forall|j: int| 0 <= j < nf implies views_of(names@)[j] == ns0[j] by {
                assert(views_of(names@)[j] == names@[j]@);
                assert(lp@[3 + j] == master_entry(ns0)[3 + j]);
                assert(master_entry(ns0)[3 + j] == ns0[j]);
            }
            assert(views_of(names@) =~= ns0);
            assert forall|j: int| 0 <= j < names@.len() implies val_ok(
                (#[trigger] names@[j])@,
            ) by {
                assert(names@[j]@ == views_of(names@)[j]);
                assert(names@[j]@ == ns0[j]);
            }
        }
    }
    if !check_values(&names) {
        return None;
    }
    let mut recs: Vec<ParsedRecord> = Vec::new();
    let mut at: usize = 4 + nf;
    proof {
        if havewf {
            assert(parsed_models(recs@) =~= recs0.take(0));
            assert(recs_cat(master, ns0, recs0.take(0)).len() == 0) by {
                assert(recs0.take(0) =~= Seq::<RecModel>::empty());
            }
        }
    }
    while at < n
        invariant
            nf + 4 <= n == vals@.len(),
            4 + nf <= at <= n,
            names@.len() == nf,
            val_seq_ok_values(names@),
            n == lp@.len(),
            forall|j: int| 0 <= j < n ==> (#[trigger] vals@[j])@ == lp@[j],
            havewf == exists|ns: Seq<ValModel>, rs: Seq<RecModel>|
                parse_witness_ok(master, ns, rs) && lp@ == pack_entries(master, ns, rs),
            havewf ==> parse_witness_ok(master, ns0, recs0) && lp@ == pack_entries(
                master,
                ns0,
                recs0,
            ),
            havewf ==> views_of(names@) == ns0 && nf == ns0.len(),
            havewf ==> recs@.len() <= recs0.len() && parsed_models(recs@) == recs0.take(
                recs@.len() as int,
            ),
            havewf ==> at == master_entry(ns0).len() + recs_cat(
                master,
                ns0,
                recs0.take(recs@.len() as int),
            ).len(),
        decreases n - at,
    {
        let ghost gi = recs@.len() as int;
        let ghost wit_rec: RecModel = if havewf && gi < recs0.len() {
            recs0[gi]
        } else {
            RecModel { id: master, kv: Seq::empty() }
        };
        let ghost went = rec_entry(master, ns0, wit_rec.id, wit_rec.kv);
        proof {
            if havewf {
                lemma_pack_entries_cat(master, ns0, recs0);
                if gi == recs0.len() {
                    assert(recs0.take(gi) =~= recs0);
                    assert(false);
                }
                lemma_rec_slice(master, ns0, recs0, gi);
                lemma_rec_entry_shape(master, ns0, wit_rec.id, wit_rec.kv);
                assert forall|k: int| 0 <= k < went.len() implies #[trigger] lp@[at + k]
                    == went[k] by {
                    assert(lp@.subrange(at as int, at + went.len())[k] == lp@[at + k]);
                }
            }
        }
        if n - at < 5 {
            return None;
        }
        let flags = match &vals[at] {
            Value::Int(f) => *f,
            _ => {
                proof {
                    if havewf {
                        assert(vals@[at as int]@ == went[0]);
                    }
                }
                return None;
            },
        };
        let dms = match &vals[at + 1] {
            Value::Int(d) => *d,
            _ => {
                proof {
                    if havewf {
                        assert(vals@[at + 1]@ == went[1]);
                    }
                }
                return None;
            },
        };
        let dseq = match &vals[at + 2] {
            Value::Int(d) => *d,
            _ => {
                proof {
                    if havewf {
                        assert(vals@[at + 2]@ == went[2]);
                    }
                }
                return None;
            },
        };
        proof {
            if havewf {
                assert(vals@[at as int]@ == went[0]);
                assert(vals@[at + 1]@ == went[1]);
                assert(vals@[at + 2]@ == went[2]);
                assert(dms == (wit_rec.id.ms - master.ms) as i64);
                assert(dseq == (wit_rec.id.seq - master.seq) as i64);
            }
        }
        if dms < 0 || dseq < 0 {
            return None;
        }
        let ms = match master.ms.checked_add(dms as u64) {
            Some(v) => v,
            None => {
                return None;
            },
        };
        let seq = match master.seq.checked_add(dseq as u64) {
            Some(v) => v,
            None => {
                return None;
            },
        };
        let id = StreamID { ms, seq };
        proof {
            if havewf {
                assert(id == wit_rec.id);
            }
        }
        let same = flags & (STREAM_ITEM_FLAG_SAMEFIELDS as i64) != 0;
        proof {
            assert((2i64 & 2i64) != 0 && (0i64 & 2i64) == 0) by (bit_vector);
            if havewf {
                assert(same == same_fields(wit_rec.kv, ns0));
            }
        }
        let mut kvp: Vec<Value> = Vec::new();
        if same {
            if n - at < nf + 4 {
                proof {
                    if havewf {
                        assert(names_of(wit_rec.kv).len() == ns0.len());
                    }
                }
                return None;
            }
            let mut j: usize = 0;
            while j < nf
                invariant
                    at + nf + 4 <= n == vals@.len(),
                    nf == names@.len(),
                    j <= nf,
                    kvp@.len() == 2 * j,
                    forall|j2: int|
                        0 <= j2 < j ==> (#[trigger] kvp@[2 * j2])@ == names@[j2]@ && kvp@[2 * j2
                            + 1]@ == vals@[at + 3 + j2]@,
                decreases nf - j,
            {
                kvp.push(value_dup(&names[j]));
                kvp.push(value_dup(&vals[at + 3 + j]));
                j = j + 1;
            }
            proof {
                if havewf {
                    assert(wit_rec.kv.len() == 2 * nf) by {
                        assert(names_of(wit_rec.kv).len() == ns0.len());
                    }
                    assert forall|j2: int| 0 <= j2 < 2 * nf implies views_of(kvp@)[j2]
                        == wit_rec.kv[j2] by {
                        assert(views_of(kvp@)[j2] == kvp@[j2]@);
                        if j2 % 2 == 0 {
                            let h = j2 / 2;
                            assert(kvp@[2 * h]@ == names@[h]@);
                            assert(views_of(names@)[h] == names@[h]@);
                            assert(names_of(wit_rec.kv)[h] == wit_rec.kv[2 * h]);
                        } else {
                            let h = (j2 - 1) / 2;
                            assert(kvp@[2 * h]@ == names@[h]@);
                            assert(kvp@[2 * h + 1]@ == vals@[at + 3 + h]@);
                            assert(lp@[at + (3 + h)] == went[3 + h]);
                            assert(went[3 + h] == wit_rec.kv[2 * h + 1]);
                        }
                    }
                    assert(views_of(kvp@) =~= wit_rec.kv);
                }
            }
            at = at + nf + 4;
        } else {
            proof {
                if havewf {
                    assert(went[3] == ValModel::Int((wit_rec.kv.len() / 2) as i64));
                    assert(vals@[at + 3]@ == went[3]);
                }
            }
            let k = match &vals[at + 3] {
                Value::Int(c) => {
                    if *c < 0 || *c > 0x8000 {
                        return None;
                    }
                    *c as usize
                },
                _ => {
                    return None;
                },
            };
            if n - at < 2 * k + 5 {
                return None;
            }
            let mut j: usize = 0;
            while j < 2 * k
                invariant
                    at + 2 * k + 5 <= n == vals@.len(),
                    j <= 2 * k,
                    kvp@.len() == j,
                    forall|j2: int| 0 <= j2 < j ==> (#[trigger] kvp@[j2])@ == vals@[at + 4 + j2]@,
                decreases 2 * k - j,
            {
                kvp.push(value_dup(&vals[at + 4 + j]));
                j = j + 1;
            }
            proof {
                if havewf {
                    assert(k == wit_rec.kv.len() / 2);
                    assert forall|j2: int| 0 <= j2 < 2 * k implies views_of(kvp@)[j2]
                        == wit_rec.kv[j2] by {
                        assert(views_of(kvp@)[j2] == kvp@[j2]@);
                        assert(lp@[at + (4 + j2)] == went[4 + j2]);
                        assert(went[4 + j2] == wit_rec.kv[j2]);
                    }
                    assert(views_of(kvp@) =~= wit_rec.kv);
                }
            }
            at = at + 2 * k + 5;
        }
        let ghost before_recs = recs@;
        recs.push(ParsedRecord { id, kv: kvp, samefields: same });
        proof {
            if havewf {
                assert(parsed_models(recs@) =~= recs0.take(gi + 1)) by {
                    assert(parsed_models(before_recs).len() == before_recs.len());
                    assert(parsed_models(recs@).len() == recs@.len());
                    assert forall|j2: int| 0 <= j2 < recs@.len() implies parsed_models(recs@)[j2]
                        == recs0.take(gi + 1)[j2] by {
                        assert(parsed_models(recs@)[j2] == (RecModel {
                            id: recs@[j2].id,
                            kv: views_of(recs@[j2].kv@),
                        }));
                        if j2 < gi {
                            assert(recs@[j2] == before_recs[j2]);
                            assert(parsed_models(before_recs)[j2] == (RecModel {
                                id: before_recs[j2].id,
                                kv: views_of(before_recs[j2].kv@),
                            }));
                            assert(parsed_models(before_recs)[j2] == recs0.take(gi)[j2]);
                            assert(recs0.take(gi)[j2] == recs0[j2]);
                        }
                    }
                }
                lemma_recs_cat_take(master, ns0, recs0, gi);
            }
        }
    }
    proof {
        if havewf {
            lemma_pack_entries_cat(master, ns0, recs0);
            if recs@.len() < recs0.len() {
                lemma_rec_slice(master, ns0, recs0, recs@.len() as int);
                lemma_rec_entry_shape(
                    master,
                    ns0,
                    recs0[recs@.len() as int].id,
                    recs0[recs@.len() as int].kv,
                );
                assert(false);
            }
            assert(recs0.take(recs@.len() as int) =~= recs0);
            assert(parsed_models(recs@) == recs0);
        }
    }
    if recs.len() == 0 {
        return None;
    }
    // certify the interpretation: rebuild the element values it encodes to
    // and demand they are exactly the pack's own
    let mut rebuilt = build_master(&names);
    let ghost mn = views_of(names@);
    let mut ri: usize = 0;
    let rn = recs.len();
    proof {
        assert(parsed_models(recs@).take(0) =~= Seq::<RecModel>::empty());
        assert(views_of(rebuilt@) == pack_entries(master, mn, parsed_models(recs@).take(0)));
    }
    while ri < rn
        invariant
            rn == recs@.len(),
            ri <= rn,
            mn == views_of(names@),
            val_seq_ok_values(names@),
            names@.len() <= 0x8000,
            views_of(rebuilt@) == pack_entries(master, mn, parsed_models(recs@).take(ri as int)),
            havewf == exists|ns: Seq<ValModel>, rs: Seq<RecModel>|
                parse_witness_ok(master, ns, rs) && lp@ == pack_entries(master, ns, rs),
            havewf ==> parse_witness_ok(master, ns0, recs0) && parsed_models(recs@) == recs0
                && mn == ns0,
        decreases rn - ri,
    {
        let rec = &recs[ri];
        proof {
            if havewf {
                assert(parsed_models(recs@)[ri as int] == recs0[ri as int]);
                assert(parsed_models(recs@)[ri as int] == (RecModel {
                    id: recs@[ri as int].id,
                    kv: views_of(recs@[ri as int].kv@),
                }));
                assert(views_of(rec.kv@) == recs0[ri as int].kv);
                assert(views_of(rec.kv@).len() == rec.kv@.len());
            }
        }
        if rec.kv.len() % 2 == 1 || rec.kv.len() > 0xFFFF {
            proof {
                if havewf {
                    assert(false);
                }
            }
            return None;
        }
        let m = master;
        if !(rec.id.ms >= m.ms && rec.id.ms - m.ms <= i64::MAX as u64 && rec.id.seq >= m.seq
            && rec.id.seq - m.seq <= i64::MAX as u64) {
            proof {
                if havewf {
                    assert(rec.id == recs0[ri as int].id);
                    assert(StreamWriter::delta_fits(master, recs0[ri as int].id));
                    assert(false);
                }
            }
            return None;
        }
        if !check_values(&rec.kv) {
            proof {
                if havewf {
                    assert forall|j: int| 0 <= j < rec.kv@.len() implies val_ok(
                        (#[trigger] rec.kv@[j])@,
                    ) by {
                        assert(views_of(rec.kv@)[j] == rec.kv@[j]@);
                        assert(views_of(rec.kv@)[j] == recs0[ri as int].kv[j]);
                    }
                    assert(false);
                }
            }
            return None;
        }
        let entry = StreamWriter::build_entry(&master, &names, &rec.id, &rec.kv);
        let ghost base = views_of(rebuilt@);
        let ghost evs = views_of(entry@);
        let mut ei: usize = 0;
        let en = entry.len();
        proof {
            assert(base + evs.take(0) =~= base);
        }
        while ei < en
            invariant
                en == entry@.len(),
                ei <= en,
                evs == views_of(entry@),
                views_of(rebuilt@) == base + evs.take(ei as int),
            decreases en - ei,
        {
            let ghost rb0 = rebuilt@;
            rebuilt.push(value_dup_owned(&entry, ei));
            proof {
                assert(views_of(rb0).len() == rb0.len());
                assert(rb0.len() == base.len() + ei);
                assert(rebuilt@.len() == rb0.len() + 1);
                assert(views_of(rebuilt@).len() == rebuilt@.len());
                assert forall|j: int| 0 <= j < rebuilt@.len() implies views_of(rebuilt@)[j] == (base
                    + evs.take(ei + 1))[j] by {
                    assert(views_of(rebuilt@)[j] == rebuilt@[j]@);
                    if j < base.len() {
                        assert(rebuilt@[j] == rb0[j]);
                        assert(views_of(rb0)[j] == rb0[j]@);
                        assert(views_of(rb0)[j] == (base + evs.take(ei as int))[j]);
                        assert((base + evs.take(ei as int))[j] == base[j]);
                        assert((base + evs.take(ei + 1))[j] == base[j]);
                    } else if j < rb0.len() {
                        assert(rebuilt@[j] == rb0[j]);
                        assert(views_of(rb0)[j] == rb0[j]@);
                        assert(views_of(rb0)[j] == (base + evs.take(ei as int))[j]);
                        assert((base + evs.take(ei as int))[j] == evs.take(ei as int)[j
                            - base.len()]);
                        assert(evs.take(ei as int)[j - base.len()] == evs[j - base.len()]);
                        assert((base + evs.take(ei + 1))[j] == evs.take(ei + 1)[j - base.len()]);
                        assert(evs.take(ei + 1)[j - base.len()] == evs[j - base.len()]);
                    } else {
                        assert(j == rb0.len());
                        assert(rebuilt@[j]@ == entry@[ei as int]@);
                        assert(views_of(entry@)[ei as int] == entry@[ei as int]@);
                        assert(j - base.len() == ei);
                        assert((base + evs.take(ei + 1))[j] == evs.take(ei + 1)[ei as int]);
                        assert(evs.take(ei + 1)[ei as int] == evs[ei as int]);
                    }
                }
                assert(views_of(rebuilt@) =~= base + evs.take(ei + 1));
            }
            ei = ei + 1;
        }
        proof {
            assert(evs.take(en as int) =~= evs);
            let models = parsed_models(recs@);
            assert(models.take(ri + 1).drop_last() =~= models.take(ri as int));
            assert(models.take(ri + 1).last() == models[ri as int]);
            assert(models[ri as int] == (RecModel {
                id: recs@[ri as int].id,
                kv: views_of(recs@[ri as int].kv@),
            }));
            assert(views_of(rebuilt@) == pack_entries(master, mn, models.take(ri + 1)));
        }
        ri = ri + 1;
    }
    proof {
        let models = parsed_models(recs@);
        assert(models.take(rn as int) =~= models);
        assert forall|j: int| 0 <= j < vals@.len() implies views_of(vals@)[j] == lp@[j] by {
            assert(views_of(vals@)[j] == vals@[j]@);
        }
        assert(views_of(vals@) =~= lp@);
    }
    if !values_equal(&vals, &rebuilt) {
        proof {
            if havewf {
                assert(views_of(rebuilt@) == pack_entries(master, ns0, recs0));
                assert(false);
            }
        }
        return None;
    }
    Some((names, recs))
}

/// Whether every value in the run is representable by the codec.
fn check_values(vs: &Vec<Value>) -> (r: bool)
    ensures
        r == val_seq_ok_values(vs@),
{
    let n = vs.len();
    let mut i: usize = 0;
    while i < n
        invariant
            n == vs@.len(),
            i <= n,
            forall|j: int| 0 <= j < i ==> val_ok((#[trigger] vs@[j])@),
        decreases n - i,
    {
        match &vs[i] {
            Value::Int(_) => {},
            Value::String(b) => {
                if b.len() > crate::codec::MAX_STR_LEN as usize {
                    return false;
                }
            },
        }
        i = i + 1;
    }
    true
}

/// An owned copy of the `i`-th value of a run.
fn value_dup_owned(vs: &Vec<Value>, i: usize) -> (r: Value)
    requires
        i < vs@.len(),
    ensures
        r@ == vs@[i as int]@,
{
    value_dup(&vs[i])
}

/// A pack's entry run always starts with its master entry: it is never
/// empty.
pub proof fn lemma_pack_entries_len(master: StreamID, mnames: Seq<ValModel>, recs: Seq<RecModel>)
    ensures
        pack_entries(master, mnames, recs).len() >= mnames.len() + 4,
    decreases recs.len(),
{
    if recs.len() > 0 {
        lemma_pack_entries_len(master, mnames, recs.drop_last());
    }
}

/// Append every value of `entry` to a pack; the caller has already
/// established that the grown pack stays within the 32-bit total.
fn push_values(lp: &mut Listpack, entry: &Vec<Value>)
    requires
        old(lp).wf(),
        val_seq_ok_values(entry@),
        old(lp).total_bytes() + crate::listpack::elems_size(views_of(entry@)) <= 0xFFFF_FFFF,
    ensures
        final(lp).wf(),
        final(lp)@ == old(lp)@ + views_of(entry@),
        final(lp).total_bytes() == old(lp).total_bytes() + crate::listpack::elems_size(
            views_of(entry@),
        ),
{
    let n = entry.len();
    let ghost evs = views_of(entry@);
    let ghost start = *lp;
    let mut i: usize = 0;
    proof {
        assert(evs.take(0) =~= Seq::<ValModel>::empty());
        assert(start@ + evs.take(0) =~= start@);
    }
    while i < n
        invariant
            n == entry@.len(),
            i <= n,
            val_seq_ok_values(entry@),
            evs == views_of(entry@),
            lp.wf(),
            lp@ == start@ + evs.take(i as int),
            lp.total_bytes() == start.total_bytes() + crate::listpack::elems_size(
                evs.take(i as int),
            ),
            start.total_bytes() + crate::listpack::elems_size(evs) <= 0xFFFF_FFFF,
        decreases n - i,
    {
        proof {
            assert(evs.take(i + 1) =~= evs.take(i as int).push(evs[i as int]));
            crate::listpack::lemma_elems_bytes_push(evs.take(i as int), evs[i as int]);
            crate::listpack::lemma_prefix_size_monotonic(evs, i as int + 1, evs.len() as int);
            assert(evs.take(evs.len() as int) =~= evs);
            assert(evs[i as int] == entry@[i as int]@);
        }
        let ok = lp.append(&entry[i]);
        proof {
            assert(ok);
            assert(lp@ =~= start@ + evs.take(i + 1));
        }
        i = i + 1;
    }
    proof {
        assert(evs.take(n as int) =~= evs);
    }
}

} // verus!
