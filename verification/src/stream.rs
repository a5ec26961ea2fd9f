//! Stream storage types: configuration, the error taxonomy, packs and
//! segments, and the residency-driven fault-in decision.

use vstd::prelude::*;

use std::rc::Rc;

use crate::map::RaxKey;

verus! {

/// Default ceiling for a pack's encoded bytes.
pub const DEFAULT_PACK_SIZE: u32 = 65500;

/// Default ceiling for a segment file's bytes.
pub const DEFAULT_SEGMENT_SIZE: u32 = 67108800;

/// Sizing policy for a stream's packs and segments.
#[derive(Clone, Copy, PartialEq, Eq, Structural, Debug)]
pub struct StreamConfig {
    pub max_pack_size: u32,
    pub max_segment_size: u32,
    pub compression: i32,
}

impl Default for StreamConfig {
    /// The default sizing policy.
    fn default() -> (r: StreamConfig)
        ensures
            r.max_pack_size == DEFAULT_PACK_SIZE,
            r.max_segment_size == DEFAULT_SEGMENT_SIZE,
            r.compression == 0,
    {
        StreamConfig {
            max_pack_size: DEFAULT_PACK_SIZE,
            max_segment_size: DEFAULT_SEGMENT_SIZE,
            compression: 0,
        }
    }
}

/// The storage engine's error taxonomy. `WouldBlock` is expected control
/// flow — the operation must be retried through the background path —
/// and `Overflow` is a policy ceiling, not an allocation failure.
#[derive(Clone, PartialEq, Eq, Debug)]
pub enum StreamError {
    OutOfMemory,
    Exists,
    NotExists,
    WouldBlock,
    BadInput,
    Overflow,
    CreateDir(String),
    NotDir(String),
    ReadDir(String),
    Generic(String),
}

impl StreamError {
    /// A short description of the error kind, one fixed text per variant.
    pub fn describe(&self) -> (r: &'static str)
        ensures
            ({
                match self {
                    StreamError::OutOfMemory => r@ == "out of memory"@,
                    StreamError::Exists => r@ == "exists"@,
                    StreamError::NotExists => r@ == "not exists"@,
                    StreamError::WouldBlock => r@ == "would block"@,
                    StreamError::BadInput => r@ == "bad input"@,
                    StreamError::Overflow => r@ == "overflow"@,
                    StreamError::CreateDir(_) => r@ == "create directory"@,
                    StreamError::NotDir(_) => r@ == "not directory"@,
                    StreamError::ReadDir(_) => r@ == "read directory failed"@,
                    StreamError::Generic(_) => r@ == "error"@,
                }
            }),
    {
        match self {
            StreamError::OutOfMemory => "out of memory",
            StreamError::Exists => "exists",
            StreamError::NotExists => "not exists",
            StreamError::WouldBlock => "would block",
            StreamError::BadInput => "bad input",
            StreamError::Overflow => "overflow",
            StreamError::CreateDir(_) => "create directory",
            StreamError::NotDir(_) => "not directory",
            StreamError::ReadDir(_) => "read directory failed",
            StreamError::Generic(_) => "error",
        }
    }
}

/// Where a segment's bytes are kept: a local file, or archival object
/// storage.
pub enum SegmentMedia {
    File,
    Object,
}

/// Loading states a stream's storage can pass through.
pub enum StreamState {
    Unloaded,
    Loading,
    Loaded,
}

/// Number of pages a byte range of `len` bytes touches, for a residency
/// probe over `page`-sized pages.
pub fn pages_needed(len: usize, page: usize) -> (r: usize)
    requires
        page > 0,
    ensures
        r == len as int / page as int + (if len as int % page as int == 0 {
            0int
        } else {
            1int
        }),
{
    let q = len / page;
    if len % page == 0 {
        q
    } else {
        proof {
            if page == 1 {
                assert(len as int % 1int == 0) by (nonlinear_arith);
            }
            assert(page >= 2 ==> len as int / page as int <= len as int / 2int)
                by (nonlinear_arith);
        }
        q + 1
    }
}

/// Whether a residency probe's per-page flags report the first `npages`
/// pages all resident: each flag byte must be non-zero, the way the
/// kernel's residency vector reports a mapped page in core.
pub fn all_pages_resident(flags: &Vec<u8>, npages: usize) -> (r: bool)
    ensures
        r == (npages <= flags@.len() && forall|i: int|
            0 <= i < npages ==> #[trigger] flags@[i] != 0),
{
    if npages > flags.len() {
        return false;
    }
    let mut i: usize = 0;
    while i < npages
        invariant
            npages <= flags@.len(),
            i <= npages,
            forall|j: int| 0 <= j < i ==> #[trigger] flags@[j] != 0,
        decreases npages - i,
    {
        if flags[i] == 0 {
            return false;
        }
        i = i + 1;
    }
    true
}

/// One listpack's worth of records: the storage engine's unit of persisted
/// data. Metadata locates it inside its segment file; `data` holds the raw
/// listpack-format bytes once the pack is loaded, and the back-reference
/// keeps the owning segment's resources alive while the pack is pinned.
pub struct Pack {
    pub segment: Option<Rc<Segment>>,
    pub offset: u32,
    pub length: u32,
    pub count: u16,
    pub data: Option<Vec<u8>>,
}

impl Pack {
    /// A loaded pack's metadata agrees with its data's header: the data
    /// is the pack's `length` bytes behind a six-byte header whose
    /// total-bytes field reads `length + 6` and whose count field reads
    /// `count`. Fault-in establishes this; an unloaded pack carries it
    /// vacuously.
    pub open spec fn loaded_consistent(&self) -> bool {
        self.data matches Some(d) ==> ({
            &&& d@.len() == self.length + 6
            &&& crate::listpack::le32_at(d@, 0) == self.length + 6
            &&& crate::listpack::le16_at(d@, 4) == self.count
        })
    }

    /// A fresh, unloaded pack with no segment attached.
    pub fn new() -> (r: Pack)
        ensures
            r.segment is None,
            r.offset == 0,
            r.length == 0,
            r.count == 0,
            r.data is None,
    {
        Pack { segment: None, offset: 0, length: 0, count: 0, data: None }
    }
}

/// A logical append-only file holding a run of packs. `data` is the
/// in-memory image of the file when the segment is loaded; the pack index
/// maps each pack's smallest record identifier to its handle, so a segment
/// can be known (indexed) without being loaded.
pub struct Segment {
    pub data: Option<Vec<u8>>,
    pub packs: crate::map::RcRax<crate::id::StreamID, Pack>,
}

impl Segment {
    /// The raw on-file listpack image of a pack: a six-byte header
    /// reconstructed from the pack's metadata, then the pack's bytes
    /// copied out of the segment image.
    pub open spec fn fault_image(seg: Seq<u8>, offset: int, length: int, count: u16) -> Seq<u8> {
        seq![
            (((length + 6) as u32) & 0xff) as u8,
            ((((length + 6) as u32) >> 8u32) & 0xff) as u8,
            ((((length + 6) as u32) >> 16u32) & 0xff) as u8,
            (((length + 6) as u32) >> 24u32) as u8,
            (count & 0xff) as u8,
            (count >> 8u16) as u8,
        ] + seg.subrange(offset, offset + length)
    }

    /// The fault image's header fields read back as the pack's metadata:
    /// total bytes as `length + 6`, count as `count`.
    pub proof fn lemma_fault_image_header(seg: Seq<u8>, offset: int, length: int, count: u16)
        requires
            0 <= length,
            length + 6 <= 0xFFFF_FFFF,
        ensures
            ({
                let img = Segment::fault_image(seg, offset, length, count);
                &&& crate::listpack::le32_at(img, 0) == (length + 6) as u32
                &&& crate::listpack::le16_at(img, 4) == count
            }),
    {
        let img = Segment::fault_image(seg, offset, length, count);
        let t = (length + 6) as u32;
        assert(img[0] == (t & 0xff) as u8 && img[1] == ((t >> 8u32) & 0xff) as u8 && img[2] == ((t
            >> 16u32) & 0xff) as u8 && img[3] == (t >> 24u32) as u8);
        assert(img[4] == (count & 0xff) as u8 && img[5] == (count >> 8u16) as u8);
        assert(((t & 0xff) as u8) as u32 | ((((t >> 8u32) & 0xff) as u8) as u32) << 8u32 | ((((t
            >> 16u32) & 0xff) as u8) as u32) << 16u32 | (((t >> 24u32) as u8) as u32) << 24u32
            == t) by (bit_vector);
        assert(((count & 0xff) as u8) as u16 | (((count >> 8u16) as u8) as u16) << 8u16 == count)
            by (bit_vector);
    }

    /// Decide whether reading `pack` needs the background I/O path, given
    /// whether the operating system reports the pack's byte range as
    /// resident. A loaded pack never blocks; an unloaded segment always
    /// does; a resident range is faulted in right here by a plain copy,
    /// and only a non-resident range is left to the background thread —
    /// in that case the pack stays unloaded.
    pub fn would_block(&self, pack: &mut Pack, resident: bool) -> (r: bool)
        requires
            self.data matches Some(d) ==> old(pack).offset + old(pack).length <= d@.len(),
            old(pack).length + 6 <= 0xFFFF_FFFF,
        ensures
            old(pack).data is Some ==> r == false && *final(pack) == *old(pack),
            old(pack).data is None && self.data is None ==> r == true && *final(pack) == *old(
                pack,
            ),
            old(pack).data is None && self.data is Some && !resident ==> r == true && *final(pack)
                == *old(pack),
            old(pack).data is None && resident ==> (self.data matches Some(d) ==> (r == false && (
            final(pack).data matches Some(img) && img@ == Segment::fault_image(
                d@,
                old(pack).offset as int,
                old(pack).length as int,
                old(pack).count,
            )) && final(pack).loaded_consistent() && final(pack).offset == old(pack).offset
                && final(pack).length == old(pack).length && final(pack).count == old(pack).count
                && final(pack).segment == old(pack).segment)),
    {
        if pack.data.is_some() {
            return false;
        }
        match &self.data {
            None => true,
            Some(seg) => {
                if !resident {
                    return true;
                }
                let total: u32 = pack.length + 6;
                let mut lp: Vec<u8> = Vec::new();
                lp.push(#[verifier::truncate] ((total & 0xff) as u8));
                lp.push(#[verifier::truncate] (((total >> 8u32) & 0xff) as u8));
                lp.push(#[verifier::truncate] (((total >> 16u32) & 0xff) as u8));
                lp.push(#[verifier::truncate] ((total >> 24u32) as u8));
                lp.push(#[verifier::truncate] ((pack.count & 0xff) as u8));
                lp.push(#[verifier::truncate] ((pack.count >> 8u16) as u8));
                let start = pack.offset as usize;
                let len = pack.length as usize;
                let seg_total = seg.len();
                let mut k: usize = 0;
                while k < len
                    invariant
                        start + len <= seg_total,
                        seg_total == seg@.len(),
                        k <= len,
                        lp@.len() == 6 + k,
                        lp@.subrange(6, lp@.len() as int) =~= seg@.subrange(
                            start as int,
                            start + k,
                        ),
                        lp@.subrange(0, 6) == Segment::fault_image(
                            seg@,
                            start as int,
                            len as int,
                            pack.count,
                        ).subrange(0, 6),
                    decreases len - k,
                {
                    lp.push(seg[start + k]);
                    proof {
                        assert(lp@.subrange(6, lp@.len() as int) =~= seg@.subrange(
                            start as int,
                            start + k + 1,
                        ));
                        assert(lp@.subrange(0, 6) =~= lp@.subrange(0, 6));
                    }
                    k = k + 1;
                }
                proof {
                    let fi = Segment::fault_image(
                        seg@,
                        pack.offset as int,
                        pack.length as int,
                        pack.count,
                    );
                    assert forall|i: int| 0 <= i < lp@.len() implies lp@[i] == fi[i] by {
                        if i < 6 {
                            assert(lp@.subrange(0, 6)[i] == fi.subrange(0, 6)[i]);
                        } else {
                            assert(lp@.subrange(6, lp@.len() as int)[i - 6] == seg@.subrange(
                                start as int,
                                start + len,
                            )[i - 6]);
                        }
                    }
                    assert(lp@ =~= fi);
                }
                pack.data = Some(lp);
                proof {
                    Segment::lemma_fault_image_header(
                        seg@,
                        pack.offset as int,
                        pack.length as int,
                        pack.count,
                    );
                }
                false
            },
        }
    }
}

/// One stream: its internal identifier and key name, memory and disk
/// accounting, the ordered index of its segments keyed by their smallest
/// record identifier, the single live writer owning the mutable tail,
/// the sizing policy, and the consumer groups when any exist.
pub struct Stream {
    pub id: u64,
    pub name: Vec<u8>,
    pub mem_usage: u64,
    pub disk_usage: u64,
    pub segments: crate::map::RcRax<crate::id::StreamID, Segment>,
    pub writer: Option<crate::writer::StreamWriter>,
    pub config: StreamConfig,
    pub groups: Option<crate::map::RcRax<u64, crate::record::CGRecord>>,
}

impl Stream {
    /// A fresh stream with no segments, no writer and no groups.
    pub fn new(id: u64, name: Vec<u8>, config: StreamConfig) -> (r: Stream)
        ensures
            r.id == id,
            r.name == name,
            r.mem_usage == 0,
            r.disk_usage == 0,
            r.segments.wf(),
            r.segments.key_count() == 0,
            r.writer is None,
            r.config == config,
            r.groups is None,
    {
        Stream {
            id,
            name,
            mem_usage: 0,
            disk_usage: 0,
            segments: crate::map::RcRax::new(),
            writer: None,
            config,
            groups: None,
        }
    }

    /// The stream's latest identifier: with a live writer, the next one it
    /// assigns (advancing it); otherwise the greatest segment key, or
    /// nothing for a stream with no segments.
    pub fn last_id(&mut self) -> (r: Option<crate::id::StreamID>)
        requires
            old(self).writer matches Some(w) ==> w.last_id.seq < u64::MAX,
            old(self).writer is None ==> old(self).segments.wf(),
        ensures
            old(self).writer matches Some(w) ==> (r matches Some(id) && w.last_id.lt_spec(id)
                && (final(self).writer matches Some(w2) && w2.last_id == id)),
            old(self).writer is None ==> *final(self) == *old(self) && ({
                &&& old(self).segments.key_count() == 0 ==> r is None
                &&& old(self).segments.key_count() > 0 ==> (r matches Some(id)
                    && id.key_model() == old(self).segments.key_at(
                    old(self).segments.key_count() - 1,
                ))
            }),
    {
        match &mut self.writer {
            Some(w) => Some(w.next_id()),
            None => self.segments.last_key(),
        }
    }
}

/// One pack's entry in a segment file's trailing index: the pack's
/// master identifier, its byte range in the file, and its record count.
pub struct PackIndexEntry {
    pub ms: u64,
    pub seq: u64,
    pub offset: u32,
    pub length: u32,
    pub count: u16,
}

/// The twenty-six bytes one index entry occupies on file: both identifier
/// words, the offset, the length and the count, each little-endian.
pub open spec fn index_entry_bytes(e: PackIndexEntry) -> Seq<u8> {
    crate::listpack::i64_le_bytes(e.ms as i64) + crate::listpack::i64_le_bytes(e.seq as i64)
        + seq![
        (e.offset & 0xff) as u8,
        ((e.offset >> 8u32) & 0xff) as u8,
        ((e.offset >> 16u32) & 0xff) as u8,
        (e.offset >> 24u32) as u8,
        (e.length & 0xff) as u8,
        ((e.length >> 8u32) & 0xff) as u8,
        ((e.length >> 16u32) & 0xff) as u8,
        (e.length >> 24u32) as u8,
        (e.count & 0xff) as u8,
        (e.count >> 8u16) as u8,
    ]
}

/// The byte image of a segment file's index section: the entries' bytes
/// in order. The terminator bytes framing the section on file belong to
/// the file layout around it.
pub open spec fn index_bytes(es: Seq<PackIndexEntry>) -> Seq<u8>
    decreases es.len(),
{
    if es.len() == 0 {
        Seq::empty()
    } else {
        index_entry_bytes(es[0]) + index_bytes(es.drop_first())
    }
}

pub proof fn lemma_index_bytes_len(es: Seq<PackIndexEntry>)
    ensures
        index_bytes(es).len() == 26 * es.len(),
    decreases es.len(),
{
    if es.len() > 0 {
        lemma_index_bytes_len(es.drop_first());
    }
}

pub proof fn lemma_index_bytes_concat(a: Seq<PackIndexEntry>, b: Seq<PackIndexEntry>)
    ensures
        index_bytes(a + b) == index_bytes(a) + index_bytes(b),
    decreases a.len(),
{
    if a.len() == 0 {
        assert(a + b =~= b);
        assert(index_bytes(a) + index_bytes(b) =~= index_bytes(b));
    } else {
        assert((a + b).drop_first() =~= a.drop_first() + b);
        lemma_index_bytes_concat(a.drop_first(), b);
        assert(index_bytes(a + b) =~= index_bytes(a) + index_bytes(b));
    }
}

pub proof fn lemma_index_bytes_push(es: Seq<PackIndexEntry>, e: PackIndexEntry)
    ensures
        index_bytes(es.push(e)) == index_bytes(es) + index_entry_bytes(e),
{
    assert(es.push(e) =~= es + seq![e]);
    lemma_index_bytes_concat(es, seq![e]);
    assert(seq![e].drop_first() =~= Seq::<PackIndexEntry>::empty());
    assert(index_bytes(Seq::<PackIndexEntry>::empty()) == Seq::<u8>::empty());
    assert(index_bytes(seq![e]) =~= index_entry_bytes(e));
}

/// Entry `i`'s bytes sit at the fixed stride inside the index image.
pub proof fn lemma_index_slice(es: Seq<PackIndexEntry>, i: int)
    requires
        0 <= i < es.len(),
    ensures
        ({
            let s = index_bytes(es);
            26 * i + 26 <= s.len() && s.subrange(26 * i, 26 * i + 26) == index_entry_bytes(es[i])
        }),
    decreases i,
{
    let s = index_bytes(es);
    lemma_index_bytes_len(es);
    if i == 0 {
        lemma_index_bytes_len(es.drop_first());
        assert(s.subrange(0, 26) =~= index_entry_bytes(es[0]));
    } else {
        lemma_index_slice(es.drop_first(), i - 1);
        let tail = index_bytes(es.drop_first());
        assert forall|k: int| 0 <= k < 26 implies s.subrange(26 * i, 26 * i + 26)[k]
            == index_entry_bytes(es[i])[k] by {
            assert(s[26 * i + k] == tail[26 * (i - 1) + k]);
            assert(tail.subrange(26 * (i - 1), 26 * (i - 1) + 26)[k] == tail[26 * (i - 1) + k]);
        }
        assert(s.subrange(26 * i, 26 * i + 26) =~= index_entry_bytes(es[i]));
    }
}

/// Append one index entry's twenty-six bytes.
fn push_index_entry(out: &mut Vec<u8>, e: &PackIndexEntry)
    ensures
        final(out)@ == old(out)@ + index_entry_bytes(*e),
{
    let ghost before = out@;
    let ms: i64 = #[verifier::truncate] (e.ms as i64);
    let seqw: i64 = #[verifier::truncate] (e.seq as i64);
    out.push(#[verifier::truncate] ((ms & 0xff) as u8));
    out.push(#[verifier::truncate] (((ms >> 8u64) & 0xff) as u8));
    out.push(#[verifier::truncate] (((ms >> 16u64) & 0xff) as u8));
    out.push(#[verifier::truncate] (((ms >> 24u64) & 0xff) as u8));
    out.push(#[verifier::truncate] (((ms >> 32u64) & 0xff) as u8));
    out.push(#[verifier::truncate] (((ms >> 40u64) & 0xff) as u8));
    out.push(#[verifier::truncate] (((ms >> 48u64) & 0xff) as u8));
    out.push(#[verifier::truncate] (((ms >> 56u64) & 0xff) as u8));
    out.push(#[verifier::truncate] ((seqw & 0xff) as u8));
    out.push(#[verifier::truncate] (((seqw >> 8u64) & 0xff) as u8));
    out.push(#[verifier::truncate] (((seqw >> 16u64) & 0xff) as u8));
    out.push(#[verifier::truncate] (((seqw >> 24u64) & 0xff) as u8));
    out.push(#[verifier::truncate] (((seqw >> 32u64) & 0xff) as u8));
    out.push(#[verifier::truncate] (((seqw >> 40u64) & 0xff) as u8));
    out.push(#[verifier::truncate] (((seqw >> 48u64) & 0xff) as u8));
    out.push(#[verifier::truncate] (((seqw >> 56u64) & 0xff) as u8));
    out.push(#[verifier::truncate] ((e.offset & 0xff) as u8));
    out.push(#[verifier::truncate] (((e.offset >> 8u32) & 0xff) as u8));
    out.push(#[verifier::truncate] (((e.offset >> 16u32) & 0xff) as u8));
    out.push(#[verifier::truncate] ((e.offset >> 24u32) as u8));
    out.push(#[verifier::truncate] ((e.length & 0xff) as u8));
    out.push(#[verifier::truncate] (((e.length >> 8u32) & 0xff) as u8));
    out.push(#[verifier::truncate] (((e.length >> 16u32) & 0xff) as u8));
    out.push(#[verifier::truncate] ((e.length >> 24u32) as u8));
    out.push(#[verifier::truncate] ((e.count & 0xff) as u8));
    out.push(#[verifier::truncate] ((e.count >> 8u16) as u8));
    proof {
        assert(out@ =~= before + index_entry_bytes(*e));
    }
}

/// Encode a segment file's trailing pack index.
pub fn encode_segment_index(entries: &Vec<PackIndexEntry>) -> (r: Vec<u8>)
    ensures
        r@ == index_bytes(entries@),
{
    let mut out: Vec<u8> = Vec::new();
    let n = entries.len();
    let mut i: usize = 0;
    proof {
        assert(entries@.take(0) =~= Seq::<PackIndexEntry>::empty());
    }
    while i < n
        invariant
            n == entries@.len(),
            i <= n,
            out@ == index_bytes(entries@.take(i as int)),
        decreases n - i,
    {
        proof {
            assert(entries@.take(i + 1) =~= entries@.take(i as int).push(entries@[i as int]));
            lemma_index_bytes_push(entries@.take(i as int), entries@[i as int]);
            lemma_index_bytes_len(entries@.take(i as int));
        }
        push_index_entry(&mut out, &entries[i]);
        i = i + 1;
    }
    proof {
        assert(entries@.take(n as int) =~= entries@);
    }
    out
}

/// Decode a segment file's trailing pack index: `Some` exactly when the
/// bytes are a whole number of entries, and then exactly the entries
/// whose encoding the bytes are.
#[verifier::rlimit(80)]
pub fn decode_segment_index(buf: &Vec<u8>) -> (r: Option<Vec<PackIndexEntry>>)
    ensures
        r matches Some(es) ==> buf@ == index_bytes(es@),
        (exists|es: Seq<PackIndexEntry>| buf@ == index_bytes(es)) ==> r is Some,
{
    let ghost havewf = exists|es: Seq<PackIndexEntry>| buf@ == index_bytes(es);
    let ghost es0: Seq<PackIndexEntry> = choose|es: Seq<PackIndexEntry>| buf@ == index_bytes(es);
    let total = buf.len();
    if total % 26 != 0 {
        proof {
            if havewf {
                lemma_index_bytes_len(es0);
                assert(total as int % 26 == 0) by (nonlinear_arith)
                    requires
                        total == 26 * es0.len(),
                ;
            }
        }
        return None;
    }
    let n = total / 26;
    proof {
        if havewf {
            lemma_index_bytes_len(es0);
            assert(es0.len() == total as int / 26) by (nonlinear_arith)
                requires
                    total == 26 * es0.len(),
            ;
        }
    }
    let mut out: Vec<PackIndexEntry> = Vec::new();
    let mut i: usize = 0;
    while i < n
        invariant
            total == buf@.len(),
            total % 26 == 0,
            n == total / 26,
            i <= n,
            out@.len() == i,
            havewf == exists|es: Seq<PackIndexEntry>| buf@ == index_bytes(es),
            havewf ==> buf@ == index_bytes(es0) && n == es0.len(),
            havewf ==> out@ =~= es0.take(i as int),
        decreases n - i,
    {
        proof {
            assert(26 * (i as int) + 26 <= total) by (nonlinear_arith)
                requires
                    i < n,
                    n == total / 26,
                    total % 26 == 0,
                    0 <= i,
                    0 < total || total == 0,
            ;
        }
        let base = 26 * i;
        let ms: u64 = buf[base] as u64 | (buf[base + 1] as u64) << 8u64 | (buf[base
            + 2] as u64) << 16u64 | (buf[base + 3] as u64) << 24u64 | (buf[base + 4] as u64)
            << 32u64 | (buf[base + 5] as u64) << 40u64 | (buf[base + 6] as u64) << 48u64 | (
        buf[base + 7] as u64) << 56u64;
        let seqw: u64 = buf[base + 8] as u64 | (buf[base + 9] as u64) << 8u64 | (buf[base
            + 10] as u64) << 16u64 | (buf[base + 11] as u64) << 24u64 | (buf[base + 12] as u64)
            << 32u64 | (buf[base + 13] as u64) << 40u64 | (buf[base + 14] as u64) << 48u64 | (
        buf[base + 15] as u64) << 56u64;
        let offset: u32 = buf[base + 16] as u32 | (buf[base + 17] as u32) << 8u32 | (buf[base
            + 18] as u32) << 16u32 | (buf[base + 19] as u32) << 24u32;
        let length: u32 = buf[base + 20] as u32 | (buf[base + 21] as u32) << 8u32 | (buf[base
            + 22] as u32) << 16u32 | (buf[base + 23] as u32) << 24u32;
        let count: u16 = buf[base + 24] as u16 | (buf[base + 25] as u16) << 8u16;
        let e = PackIndexEntry { ms, seq: seqw, offset, length, count };
        proof {
            if havewf {
                lemma_index_slice(es0, i as int);
                let w = es0[i as int];
                let eb = index_entry_bytes(w);
                assert forall|k: int| 0 <= k < 26 implies #[trigger] buf@[base + k] == eb[k] by {
                    assert(buf@.subrange(26 * (i as int), 26 * (i as int) + 26)[k] == buf@[26 * (
                    i as int) + k]);
                }
                assert(buf@[base + 0] == eb[0] && buf@[base + 1] == eb[1] && buf@[base + 2] == eb[2] && buf@[base + 3] == eb[3] && buf@[base + 4] == eb[4] && buf@[base + 5] == eb[5] && buf@[base + 6] == eb[6] && buf@[base + 7] == eb[7] && buf@[base + 8] == eb[8] && buf@[base + 9] == eb[9] && buf@[base + 10] == eb[10] && buf@[base + 11] == eb[11] && buf@[base + 12] == eb[12] && buf@[base + 13] == eb[13] && buf@[base + 14] == eb[14] && buf@[base + 15] == eb[15] && buf@[base + 16] == eb[16] && buf@[base + 17] == eb[17] && buf@[base + 18] == eb[18] && buf@[base + 19] == eb[19] && buf@[base + 20] == eb[20] && buf@[base + 21] == eb[21] && buf@[base + 22] == eb[22] && buf@[base + 23] == eb[23] && buf@[base + 24] == eb[24] && buf@[base + 25] == eb[25]);
                assert(e.ms == w.ms && e.seq == w.seq) by {
                    lemma_u64_le_round_trip(w.ms);
                    lemma_u64_le_round_trip(w.seq);
                }
                assert(e.offset == w.offset && e.length == w.length) by {
                    lemma_u32_le_round_trip(w.offset);
                    lemma_u32_le_round_trip(w.length);
                }
                assert(e.count == w.count) by {
                    lemma_u16_le_round_trip(w.count);
                }
                assert(e == w);
                assert(out@.push(e) =~= es0.take(i + 1));
            }
        }
        out.push(e);
        i = i + 1;
    }
    let enc = encode_segment_index(&out);
    let mut k: usize = 0;
    let en = enc.len();
    if en != total {
        proof {
            if havewf {
                assert(out@ =~= es0);
            }
        }
        return None;
    }
    while k < en
        invariant
            en == enc@.len() == buf@.len() == total,
            k <= en,
            enc@ == index_bytes(out@),
            havewf == exists|es: Seq<PackIndexEntry>| buf@ == index_bytes(es),
            havewf ==> buf@ == index_bytes(es0) && out@ == es0,
            forall|j: int| 0 <= j < k ==> enc@[j] == buf@[j],
        decreases en - k,
    {
        if enc[k] != buf[k] {
            proof {
                if havewf {
                    assert(enc@ =~= buf@);
                }
            }
            return None;
        }
        k = k + 1;
    }
    proof {
        assert(buf@ =~= enc@);
    }
    Some(out)
}

/// A little-endian word rebuilt from its own byte decomposition is
/// itself.
proof fn lemma_u64_le_round_trip(w: u64)
    ensures
        ({
            let v = w as i64;
            ((v & 0xff) as u8) as u64 | ((((v >> 8u64) & 0xff) as u8) as u64) << 8u64 | ((((v
                >> 16u64) & 0xff) as u8) as u64) << 16u64 | ((((v >> 24u64) & 0xff) as u8) as u64)
                << 24u64 | ((((v >> 32u64) & 0xff) as u8) as u64) << 32u64 | ((((v >> 40u64)
                & 0xff) as u8) as u64) << 40u64 | ((((v >> 48u64) & 0xff) as u8) as u64) << 48u64
                | ((((v >> 56u64) & 0xff) as u8) as u64) << 56u64 == w
        }),
{
    let v = w as i64;
    assert(((v & 0xff) as u8) as u64 | ((((v >> 8u64) & 0xff) as u8) as u64) << 8u64 | ((((v
        >> 16u64) & 0xff) as u8) as u64) << 16u64 | ((((v >> 24u64) & 0xff) as u8) as u64)
        << 24u64 | ((((v >> 32u64) & 0xff) as u8) as u64) << 32u64 | ((((v >> 40u64)
        & 0xff) as u8) as u64) << 40u64 | ((((v >> 48u64) & 0xff) as u8) as u64) << 48u64 | ((((v
        >> 56u64) & 0xff) as u8) as u64) << 56u64 == w) by (bit_vector)
        requires
            v == w as i64,
    ;
}

/// A little-endian word rebuilt from its own byte decomposition is
/// itself.
proof fn lemma_u32_le_round_trip(w: u32)
    ensures
        ((w & 0xff) as u8) as u32 | ((((w >> 8u32) & 0xff) as u8) as u32) << 8u32 | ((((w
            >> 16u32) & 0xff) as u8) as u32) << 16u32 | (((w >> 24u32) as u8) as u32) << 24u32
            == w,
{
    assert(((w & 0xff) as u8) as u32 | ((((w >> 8u32) & 0xff) as u8) as u32) << 8u32 | ((((w
        >> 16u32) & 0xff) as u8) as u32) << 16u32 | (((w >> 24u32) as u8) as u32) << 24u32 == w)
        by (bit_vector);
}

/// A little-endian word rebuilt from its own byte decomposition is
/// itself.
proof fn lemma_u16_le_round_trip(w: u16)
    ensures
        ((w & 0xff) as u8) as u16 | (((w >> 8u16) as u8) as u16) << 8u16 == w,
{
    assert(((w & 0xff) as u8) as u16 | (((w >> 8u16) as u8) as u16) << 8u16 == w) by (bit_vector);
}

} // verus!
