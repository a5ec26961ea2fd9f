//! The listpack: one contiguous buffer holding a six-byte header, a run of
//! codec-encoded elements each followed by its backlen, and a terminator
//! byte. Supports append, insert, replace, delete and traversal in both
//! directions; every mutation leaves the buffer exactly sized.

use vstd::prelude::*;

use crate::codec::EOF;
use crate::codec::HDR_NUMELE_UNKNOWN;
use crate::codec::HDR_USIZE;
use crate::codec::MAX_ENTRY_BACKLEN;
use crate::codec::ValModel;
use crate::codec::Value;
use crate::codec::backlen_bytes;
use crate::codec::backlen_read_back;
use crate::codec::dec_len_at;
use crate::codec::dec_val_at;
use crate::codec::decode_backlen;
use crate::codec::elem_bytes;
use crate::codec::elem_size;
use crate::codec::enc_size;
use crate::codec::enc_val;
use crate::codec::lemma_backlen_round_trip;
use crate::codec::lemma_enc_size_is_len;
use crate::codec::lemma_value_round_trip;
use crate::codec::val_ok;
use crate::codec::MAX_STR_LEN;

verus! {

/// 16-bit little-endian field starting at byte `i`.
pub open spec fn le16_at(s: Seq<u8>, i: int) -> u16 {
    s[i] as u16 | (s[i + 1] as u16) << 8u16
}

/// 32-bit little-endian field starting at byte `i`.
pub open spec fn le32_at(s: Seq<u8>, i: int) -> u32 {
    s[i] as u32 | (s[i + 1] as u32) << 8u32 | (s[i + 2] as u32) << 16u32 | (s[i + 3] as u32)
        << 24u32
}

/// Every value in the sequence is representable by the codec.
pub open spec fn val_seq_ok(vs: Seq<ValModel>) -> bool {
    forall|i: int| 0 <= i < vs.len() ==> val_ok(#[trigger] vs[i])
}

/// Total bytes the encoded elements occupy, headers and terminator excluded.
pub open spec fn elems_size(vs: Seq<ValModel>) -> int
    decreases vs.len(),
{
    if vs.len() == 0 {
        0
    } else {
        elem_size(vs[0]) + elems_size(vs.drop_first())
    }
}

/// Byte image of a run of elements: each value's encoding and backlen,
/// concatenated in order.
pub open spec fn elems_bytes(vs: Seq<ValModel>) -> Seq<u8>
    decreases vs.len(),
{
    if vs.len() == 0 {
        Seq::empty()
    } else {
        elem_bytes(vs[0]) + elems_bytes(vs.drop_first())
    }
}

pub proof fn lemma_elems_bytes_len(vs: Seq<ValModel>)
    ensures
        elems_bytes(vs).len() == elems_size(vs),
        elems_size(vs) >= 2 * vs.len(),
    decreases vs.len(),
{
    if vs.len() > 0 {
        lemma_enc_size_is_len(vs[0]);
        lemma_elems_bytes_len(vs.drop_first());
    }
}

pub proof fn lemma_elems_bytes_concat(a: Seq<ValModel>, b: Seq<ValModel>)
    ensures
        elems_bytes(a + b) == elems_bytes(a) + elems_bytes(b),
        elems_size(a + b) == elems_size(a) + elems_size(b),
    decreases a.len(),
{
    if a.len() == 0 {
        assert(a + b =~= b);
        assert(elems_bytes(a) + elems_bytes(b) =~= elems_bytes(b));
    } else {
        assert((a + b).drop_first() =~= a.drop_first() + b);
        lemma_elems_bytes_concat(a.drop_first(), b);
        assert(elems_bytes(a + b) =~= elems_bytes(a) + elems_bytes(b));
    }
}

pub proof fn lemma_elems_bytes_push(vs: Seq<ValModel>, m: ValModel)
    ensures
        elems_bytes(vs.push(m)) == elems_bytes(vs) + elem_bytes(m),
        elems_size(vs.push(m)) == elems_size(vs) + elem_size(m),
{
    assert(vs.push(m) =~= vs + seq![m]);
    lemma_elems_bytes_concat(vs, seq![m]);
    assert(seq![m].drop_first() =~= Seq::<ValModel>::empty());
    assert(elems_size(Seq::<ValModel>::empty()) == 0);
    assert(elems_bytes(Seq::<ValModel>::empty()) == Seq::<u8>::empty());
    assert(elems_size(seq![m]) == elem_size(m));
    assert(elems_bytes(seq![m]) =~= elem_bytes(m));
}

/// Split a run of elements at position `i`: bytes before are the first `i`
/// elements' images, bytes after are the rest.
pub proof fn lemma_elems_bytes_split(vs: Seq<ValModel>, i: int)
    requires
        0 <= i <= vs.len(),
    ensures
        elems_bytes(vs) == elems_bytes(vs.take(i)) + elems_bytes(vs.skip(i)),
        elems_size(vs) == elems_size(vs.take(i)) + elems_size(vs.skip(i)),
{
    assert(vs =~= vs.take(i) + vs.skip(i));
    lemma_elems_bytes_concat(vs.take(i), vs.skip(i));
}

/// Element sizes accumulate monotonically: longer prefixes occupy at least
/// two more bytes per extra element.
pub proof fn lemma_prefix_size_monotonic(vs: Seq<ValModel>, i: int, j: int)
    requires
        0 <= i <= j <= vs.len(),
    ensures
        elems_size(vs.take(i)) + 2 * (j - i) <= elems_size(vs.take(j)),
        elems_size(vs.take(j)) <= elems_size(vs),
    decreases j - i,
{
    if i < j {
        assert(vs.take(i + 1) =~= vs.take(i).push(vs[i]));
        lemma_elems_bytes_push(vs.take(i), vs[i]);
        lemma_enc_size_is_len(vs[i]);
        lemma_prefix_size_monotonic(vs, i + 1, j);
    } else {
        assert(vs.take(j) =~= vs.take(j).take(j));
        lemma_elems_bytes_split(vs, j);
        lemma_elems_bytes_len(vs.skip(j));
        assert(vs.take(j).take(j) =~= vs.take(j));
    }
}

/// A byte string is the image of a listpack holding the values `vs`: the
/// header fields describe the buffer, the canonically encoded element
/// images sit between header and terminator, and the count field is exact
/// or the saturated "unknown" sentinel — never wrong while claiming to be
/// exact.
pub open spec fn wf_image(s: Seq<u8>, vs: Seq<ValModel>) -> bool {
    &&& val_seq_ok(vs)
    &&& s.len() == HDR_USIZE + elems_size(vs) + 1
    &&& HDR_USIZE + 1 <= s.len() <= 0xFFFF_FFFF
    &&& s.subrange(HDR_USIZE as int, s.len() - 1) == elems_bytes(vs)
    &&& s[s.len() - 1] == EOF
    &&& le32_at(s, 0) == s.len()
    &&& (le16_at(s, 4) == vs.len() || le16_at(s, 4) == HDR_NUMELE_UNKNOWN)
}

/// A stored element with value `m` sits at byte `off` of `s`.
pub open spec fn elem_at(s: Seq<u8>, off: int, m: ValModel) -> bool {
    &&& val_ok(m)
    &&& 0 <= off
    &&& off + elem_size(m) <= s.len()
    &&& s.subrange(off, off + elem_size(m)) == elem_bytes(m)
}

/// What sits at a stored element's offset is decoded exactly: the tag
/// dispatch reads back the value and the encoded size.
pub proof fn lemma_elem_at_dec(s: Seq<u8>, off: int, m: ValModel)
    requires
        elem_at(s, off, m),
    ensures
        m == dec_val_at(s, off),
        enc_size(m) == dec_len_at(s, off),
        off + enc_size(m) + backlen_bytes(enc_size(m) as u64).len() <= s.len(),
        s[off] != EOF,
{
    crate::codec::lemma_enc_size_is_len(m);
    assert forall|k: int| 0 <= k < enc_size(m) implies s.subrange(off, off + enc_size(m))[k]
        == enc_val(m)[k] by {
        assert(s.subrange(off, off + elem_size(m))[k] == s[off + k]);
        assert(elem_bytes(m)[k] == enc_val(m)[k]);
    }
    assert(s.subrange(off, off + enc_size(m)) =~= enc_val(m));
    lemma_value_round_trip(s, m, off);
}

/// A listpack: a single owned allocation whose layout is
/// `total-bytes (u32 LE) | count (u16 LE) | element images | 0xFF`,
/// together with the ghost sequence of values those images encode.
pub struct Listpack {
    buf: Vec<u8>,
    elems: Ghost<Seq<ValModel>>,
}

impl View for Listpack {
    type V = Seq<ValModel>;

    closed spec fn view(&self) -> Seq<ValModel> {
        self.elems@
    }
}

impl Listpack {
    /// The raw buffer, visible to specifications.
    pub closed spec fn bytes_model(&self) -> Seq<u8> {
        self.buf@
    }

    /// Total allocation size in bytes.
    pub open spec fn total_bytes(&self) -> int {
        self.bytes_model().len() as int
    }

    /// Byte offset at which element `i` starts (one past the last element,
    /// for `i` equal to the element count: the terminator position).
    pub open spec fn elem_off(&self, i: int) -> int {
        HDR_USIZE + elems_size(self@.take(i))
    }

    /// `p` is the starting offset of some element.
    pub open spec fn is_elem_ptr(&self, p: int) -> bool {
        exists|i: int| 0 <= i < self@.len() && p == self.elem_off(i)
    }

    /// The index of the element starting at offset `p`.
    pub open spec fn elem_idx(&self, p: int) -> int {
        choose|i: int| 0 <= i < self@.len() && p == self.elem_off(i)
    }

    /// Structural well-formedness: the header fields describe the buffer,
    /// the element images sit between header and terminator, and the
    /// count field is exact or the saturated "unknown" sentinel — never
    /// wrong while claiming to be exact.
    pub closed spec fn wf(&self) -> bool {
        wf_image(self.buf@, self.elems@)
    }

    /// Element offsets are strictly increasing, sit inside the element
    /// area, and no two elements share an offset.
    pub proof fn lemma_offsets(&self, i: int)
        requires
            self.wf(),
            0 <= i < self@.len(),
        ensures
            HDR_USIZE <= self.elem_off(i),
            self.elem_off(i) + elem_size(self@[i]) == self.elem_off(i + 1),
            self.elem_off(i + 1) <= self.total_bytes() - 1,
            self.elem_idx(self.elem_off(i)) == i,
            self.is_elem_ptr(self.elem_off(i)),
    {
        let vs = self@;
        assert(vs.take(i + 1) =~= vs.take(i).push(vs[i]));
        lemma_elems_bytes_push(vs.take(i), vs[i]);
        lemma_prefix_size_monotonic(vs, 0, i);
        lemma_prefix_size_monotonic(vs, i + 1, vs.len() as int);
        assert(vs.take(vs.len() as int) =~= vs);
        lemma_elems_bytes_len(vs);
        let p = self.elem_off(i);
        let j = self.elem_idx(p);
        assert(0 <= j < vs.len() && p == self.elem_off(j));
        if j < i {
            lemma_prefix_size_monotonic(vs, j, i);
        } else if j > i {
            lemma_prefix_size_monotonic(vs, i, j);
        }
    }

    /// The bytes of element `i`: its value encoding starting at its offset,
    /// its backlen right after, both inside the buffer.
    pub proof fn lemma_elem_bytes_at(&self, i: int)
        requires
            self.wf(),
            0 <= i < self@.len(),
        ensures
            self.elem_off(i) + elem_size(self@[i]) <= self.total_bytes() - 1,
            self.bytes_model().subrange(
                self.elem_off(i),
                self.elem_off(i) + enc_size(self@[i]),
            ) =~= enc_val(self@[i]),
            self.bytes_model().subrange(
                self.elem_off(i) + enc_size(self@[i]),
                self.elem_off(i) + elem_size(self@[i]),
            ) =~= backlen_bytes(enc_size(self@[i]) as u64),
    {
        let vs = self@;
        let s = self.buf@;
        let off = self.elem_off(i);
        self.lemma_offsets(i);
        lemma_enc_size_is_len(vs[i]);
        // elems_bytes(vs) splits as take(i) ++ [elem i] ++ skip(i+1)
        lemma_elems_bytes_split(vs, i);
        assert(vs.skip(i).drop_first() =~= vs.skip(i + 1));
        assert(elems_bytes(vs.skip(i)) == elem_bytes(vs[i]) + elems_bytes(vs.skip(i + 1)));
        lemma_elems_bytes_len(vs.take(i));
        lemma_elems_bytes_len(vs);
        let rel = off - HDR_USIZE;
        let eb = elem_bytes(vs[i]);
        assert forall|k: int| 0 <= k < eb.len() implies s[off + k] == eb[k] by {
            assert(elems_bytes(vs)[rel + k] == s.subrange(HDR_USIZE as int, s.len() - 1)[rel + k]);
            assert(elems_bytes(vs)[rel + k] == (elems_bytes(vs.take(i)) + elems_bytes(
                vs.skip(i),
            ))[rel + k]);
            assert(elems_bytes(vs.skip(i))[k] == (elem_bytes(vs[i]) + elems_bytes(vs.skip(i + 1)))[k]);
        }
        assert forall|k: int| 0 <= k < enc_size(vs[i]) implies s.subrange(
            off,
            off + enc_size(vs[i]),
        )[k] == enc_val(vs[i])[k] by {
            assert(s[off + k] == eb[k]);
        }
        let bl = backlen_bytes(enc_size(vs[i]) as u64);
        assert forall|k: int| 0 <= k < bl.len() implies #[trigger] s.subrange(
            off + enc_size(vs[i]),
            off + elem_size(vs[i]),
        )[k] == bl[k] by {
            assert(s[off + (enc_size(vs[i]) + k)] == eb[enc_size(vs[i]) + k]);
        }
    }

    /// What the decoder sees at element `i`'s offset: its value and its
    /// exact encoded size, and the element-area bytes that let traversal
    /// find the neighbours.
    pub proof fn lemma_elem_decode(&self, i: int)
        requires
            self.wf(),
            0 <= i < self@.len(),
        ensures
            dec_val_at(self.bytes_model(), self.elem_off(i)) == self@[i],
            dec_len_at(self.bytes_model(), self.elem_off(i)) == enc_size(self@[i]),
            self.bytes_model()[self.elem_off(i)] != EOF,
            backlen_read_back(self.bytes_model(), self.elem_off(i + 1) - 1) == enc_size(
                self@[i],
            ) as u64,
    {
        self.lemma_offsets(i);
        self.lemma_elem_bytes_at(i);
        lemma_enc_size_is_len(self@[i]);
        lemma_value_round_trip(self.bytes_model(), self@[i], self.elem_off(i));
        let bl = backlen_bytes(enc_size(self@[i]) as u64);
        assert(enc_size(self@[i]) <= MAX_ENTRY_BACKLEN);
        lemma_backlen_round_trip(
            self.bytes_model(),
            enc_size(self@[i]) as u64,
            self.elem_off(i + 1) - 1,
        );
    }

    /// The byte at any element boundary past the last element is the
    /// terminator.
    pub proof fn lemma_terminator(&self)
        requires
            self.wf(),
        ensures
            self.bytes_model()[self.elem_off(self@.len() as int)] == EOF,
            self.elem_off(self@.len() as int) == self.total_bytes() - 1,
    {
        assert(self@.take(self@.len() as int) =~= self@);
        lemma_elems_bytes_len(self@);
    }
}

// --- header field access ---

/// Read the 32-bit little-endian total-bytes field of a raw listpack buffer.
pub fn get_total_bytes(p: &Vec<u8>) -> (r: u32)
    requires
        p.len() >= HDR_USIZE,
    ensures
        r == le32_at(p@, 0),
{
    p[0] as u32 | (p[1] as u32) << 8u32 | (p[2] as u32) << 16u32 | (p[3] as u32) << 24u32
}

/// Write the 32-bit little-endian total-bytes field of a raw listpack
/// buffer; every other byte is untouched.
pub fn set_total_bytes(p: &mut Vec<u8>, v: u32)
    requires
        old(p).len() >= HDR_USIZE,
    ensures
        final(p)@.len() == old(p)@.len(),
        le32_at(final(p)@, 0) == v,
        forall|k: int| 4 <= k < final(p)@.len() ==> final(p)@[k] == old(p)@[k],
{
    let b0: u8 = #[verifier::truncate] ((v & 0xff) as u8);
    let b1: u8 = #[verifier::truncate] (((v >> 8u32) & 0xff) as u8);
    let b2: u8 = #[verifier::truncate] (((v >> 16u32) & 0xff) as u8);
    let b3: u8 = #[verifier::truncate] ((v >> 24u32) as u8);
    p[0] = b0;
    p[1] = b1;
    p[2] = b2;
    p[3] = b3;
    proof {
        assert(((v & 0xff) as u8) as u32 | ((((v >> 8u32) & 0xff) as u8) as u32) << 8u32 | ((((v
            >> 16u32) & 0xff) as u8) as u32) << 16u32 | (((v >> 24u32) as u8) as u32) << 24u32
            == v) by (bit_vector);
    }
}

/// Read the 16-bit little-endian element-count field.
pub fn get_num_elements(p: &Vec<u8>) -> (r: u16)
    requires
        p.len() >= HDR_USIZE,
    ensures
        r == le16_at(p@, 4),
{
    p[4] as u16 | (p[5] as u16) << 8u16
}

/// Write the 16-bit little-endian element-count field; every other byte is
/// untouched.
pub fn set_num_elements(p: &mut Vec<u8>, v: u16)
    requires
        old(p).len() >= HDR_USIZE,
    ensures
        final(p)@.len() == old(p)@.len(),
        le16_at(final(p)@, 4) == v,
        forall|k: int|
            0 <= k < final(p)@.len() && k != 4 && k != 5 ==> final(p)@[k] == old(p)@[k],
{
    let b0: u8 = #[verifier::truncate] ((v & 0xff) as u8);
    let b1: u8 = #[verifier::truncate] ((v >> 8u16) as u8);
    p[4] = b0;
    p[5] = b1;
    proof {
        assert(((v & 0xff) as u8) as u16 | (((v >> 8u16) as u8) as u16) << 8u16 == v)
            by (bit_vector);
    }
}

impl Listpack {
    /// A minimum valid empty listpack: header and terminator only.
    pub fn new() -> (r: Listpack)
        ensures
            r.wf(),
            r@ =~= Seq::<ValModel>::empty(),
            r.total_bytes() == HDR_USIZE + 1,
            le16_at(r.bytes_model(), 4) == 0,
    {
        let mut buf: Vec<u8> = Vec::new();
        buf.push(0);
        buf.push(0);
        buf.push(0);
        buf.push(0);
        buf.push(0);
        buf.push(0);
        buf.push(EOF);
        set_total_bytes(&mut buf, (HDR_USIZE + 1) as u32);
        set_num_elements(&mut buf, 0);
        let lp = Listpack { buf, elems: Ghost(Seq::empty()) };
        proof {
            assert(elems_size(Seq::<ValModel>::empty()) == 0);
            assert(elems_bytes(Seq::<ValModel>::empty()) == Seq::<u8>::empty());
            assert(lp.buf@.subrange(HDR_USIZE as int, lp.buf@.len() - 1) =~= Seq::<u8>::empty());
        }
        lp
    }

    /// The element-count header field, exact unless saturated to the
    /// "unknown" sentinel.
    pub fn len(&self) -> (r: u16)
        requires
            self.wf(),
        ensures
            r != HDR_NUMELE_UNKNOWN ==> r == self@.len(),
            r == le16_at(self.bytes_model(), 4),
    {
        get_num_elements(&self.buf)
    }

    /// Total size of the allocation in bytes, as the header reports it.
    pub fn bytes(&self) -> (r: u32)
        requires
            self.wf(),
        ensures
            r == self.total_bytes(),
    {
        get_total_bytes(&self.buf)
    }

    /// Append a value at the tail. On success the value's image lands over
    /// the old terminator and a fresh terminator is written; on failure
    /// (the 32-bit total would overflow) the listpack is left untouched.
    pub fn append(&mut self, v: &Value) -> (r: bool)
        requires
            old(self).wf(),
            val_ok(v@),
        ensures
            final(self).wf(),
            r ==> final(self)@ == old(self)@.push(v@),
            r ==> final(self).total_bytes() == old(self).total_bytes() + elem_size(v@),
            !r ==> *final(self) == *old(self),
            r <==> old(self).total_bytes() + elem_size(v@) <= 0xFFFF_FFFF,
    {
        let es = v.size_for_write();
        let old_total = self.buf.len();
        if old_total as u64 + es as u64 > 0xFFFF_FFFF {
            return false;
        }
        let ghost old_buf = self.buf@;
        let ghost old_elems = self.elems@;
        let img = v.element_image();
        self.buf.pop();
        self.buf.extend_from_slice(img.as_slice());
        self.buf.push(EOF);
        let new_total = old_total + img.len();
        set_total_bytes(&mut self.buf, new_total as u32);
        let cnt = get_num_elements(&self.buf);
        if cnt != HDR_NUMELE_UNKNOWN {
            set_num_elements(&mut self.buf, cnt + 1);
        }
        proof {
            self.elems@ = old_elems.push(v@);
            lemma_enc_size_is_len(v@);
            lemma_elems_bytes_push(old_elems, v@);
            lemma_elems_bytes_len(old_elems);
            assert(self.buf@.subrange(HDR_USIZE as int, self.buf@.len() - 1) =~= elems_bytes(
                old_elems,
            ) + elem_bytes(v@)) by {
                assert(forall|k: int|
                    HDR_USIZE <= k < old_buf.len() - 1 ==> self.buf@[k] == old_buf[k]);
                assert(forall|k: int|
                    0 <= k < img@.len() ==> self.buf@[old_buf.len() - 1 + k] == img@[k]);
                assert(forall|k: int|
                    HDR_USIZE <= k < old_buf.len() - 1 ==> old_buf[k] == old_buf.subrange(
                        HDR_USIZE as int,
                        old_buf.len() - 1,
                    )[k - HDR_USIZE]);
            }
            assert(self.wf());
            assert(self@ == old(self)@.push(v@));
        }
        true
    }

    /// Offset of the first element, or `None` when the listpack is empty.
    pub fn first(&self) -> (r: Option<usize>)
        requires
            self.wf(),
        ensures
            self@.len() == 0 ==> r is None,
            self@.len() > 0 ==> r == Some(HDR_USIZE),
            self@.len() > 0 ==> (r matches Some(p) && self.is_elem_ptr(p as int)
                && self.elem_idx(p as int) == 0),
            self.elem_off(0) == HDR_USIZE,
    {
        proof {
            assert(elems_size(self@.take(0)) == 0) by {
                assert(self@.take(0) =~= Seq::<ValModel>::empty());
            }
            if self@.len() > 0 {
                self.lemma_elem_decode(0);
                self.lemma_offsets(0);
            } else {
                self.lemma_terminator();
            }
        }
        let b = self.buf[HDR_USIZE];
        if b == EOF {
            None
        } else {
            Some(HDR_USIZE)
        }
    }

    /// Encoded size (tag and payload, backlen excluded) of the element that
    /// starts at offset `p`, read from its tag as forward traversal reads
    /// it.
    fn encoded_size_at(&self, p: usize) -> (r: usize)
        requires
            self.wf(),
            self.is_elem_ptr(p as int),
        ensures
            r == enc_size(self@[self.elem_idx(p as int)]),
    {
        let ghost i = self.elem_idx(p as int);
        proof {
            self.lemma_offsets(i);
            self.lemma_elem_decode(i);
            lemma_enc_size_is_len(self@[i]);
        }
        let b = self.buf[p];
        if b & 0x80 == 0 {
            1
        } else if b & 0xC0 == 0x80 {
            1 + (b & 0x3f) as usize
        } else if b & 0xE0 == 0xC0 {
            2
        } else if b == 0xF1 {
            3
        } else if b == 0xF2 {
            4
        } else if b == 0xF3 {
            5
        } else if b == 0xF4 {
            9
        } else if b & 0xF0 == 0xE0 {
            let b1 = self.buf[p + 1];
            let slen: u32 = (((b & 0xF) as u32) << 8u32) | b1 as u32;
            proof {
                assert((((b & 0xF) as u32) << 8u32) | b1 as u32 <= 0xFFF + 0xFF) by (bit_vector);
            }
            2 + slen as usize
        } else if b == 0xF0 {
            let b1 = self.buf[p + 1];
            let b2 = self.buf[p + 2];
            let b3 = self.buf[p + 3];
            let b4 = self.buf[p + 4];
            let slen: u32 = b1 as u32 | (b2 as u32) << 8u32 | (b3 as u32) << 16u32 | (b4 as u32)
                << 24u32;
            let total: u64 = 5 + slen as u64;
            proof {
                assert(total == enc_size(self@[i]));
            }
            total as usize
        } else {
            proof {
                assert(false);
            }
            1
        }
    }

    /// Offset of the element after the one at `p`, or `None` at the tail.
    pub fn next(&self, p: usize) -> (r: Option<usize>)
        requires
            self.wf(),
            self.is_elem_ptr(p as int),
        ensures
            ({
                let i = self.elem_idx(p as int);
                &&& i + 1 < self@.len() ==> (r == Some((p + elem_size(self@[i])) as usize)
                    && self.is_elem_ptr((p + elem_size(self@[i])) as int)
                    && self.elem_idx(p + elem_size(self@[i])) == i + 1)
                &&& i + 1 == self@.len() ==> r is None
            }),
    {
        let ghost i = self.elem_idx(p as int);
        proof {
            self.lemma_offsets(i);
            self.lemma_elem_decode(i);
            lemma_enc_size_is_len(self@[i]);
            if i + 1 < self@.len() {
                self.lemma_offsets(i + 1);
                self.lemma_elem_decode(i + 1);
            } else {
                self.lemma_terminator();
            }
        }
        let entlen = self.encoded_size_at(p);
        let backlen = crate::codec::backlen_size(entlen as u64);
        let q = p + entlen + backlen as usize;
        let b = self.buf[q];
        if b == EOF {
            None
        } else {
            Some(q)
        }
    }

    /// Decode the element starting at offset `p`.
    pub fn get(&self, p: usize) -> (r: Option<Value>)
        requires
            self.wf(),
            self.is_elem_ptr(p as int),
        ensures
            (r matches Some(v) && v@ == self@[self.elem_idx(p as int)]),
    {
        let ghost i = self.elem_idx(p as int);
        let ghost m = self@[i];
        proof {
            self.lemma_offsets(i);
            self.lemma_elem_decode(i);
            lemma_enc_size_is_len(m);
        }
        let b = self.buf[p];
        if b & 0x80 == 0 {
            Some(Value::Int((b & 0x7f) as i64))
        } else if b & 0xC0 == 0x80 {
            let slen = (b & 0x3f) as usize;
            Some(Value::String(self.copy_range(p + 1, slen, Ghost(m))))
        } else if b & 0xE0 == 0xC0 {
            let b1 = self.buf[p + 1];
            let uval: u64 = ((b as u64 & 0x1f) << 8u64) | b1 as u64;
            proof {
                assert(((b as u64 & 0x1f) << 8u64) | b1 as u64 <= 0x1fff) by (bit_vector);
            }
            Some(Value::Int(Self::sign_fix(uval, 0x1000, 8191)))
        } else if b == 0xF1 {
            let b1 = self.buf[p + 1];
            let b2 = self.buf[p + 2];
            let uval: u64 = b1 as u64 | (b2 as u64) << 8u64;
            proof {
                assert(b1 as u64 | (b2 as u64) << 8u64 <= 0xffff) by (bit_vector);
            }
            Some(Value::Int(Self::sign_fix(uval, 0x8000, 0xFFFF)))
        } else if b == 0xF2 {
            let b1 = self.buf[p + 1];
            let b2 = self.buf[p + 2];
            let b3 = self.buf[p + 3];
            let uval: u64 = b1 as u64 | (b2 as u64) << 8u64 | (b3 as u64) << 16u64;
            proof {
                assert(b1 as u64 | (b2 as u64) << 8u64 | (b3 as u64) << 16u64 <= 0xffffff)
                    by (bit_vector);
            }
            Some(Value::Int(Self::sign_fix(uval, 0x800000, 0xFFFFFF)))
        } else if b == 0xF3 {
            let b1 = self.buf[p + 1];
            let b2 = self.buf[p + 2];
            let b3 = self.buf[p + 3];
            let b4 = self.buf[p + 4];
            let uval: u64 = b1 as u64 | (b2 as u64) << 8u64 | (b3 as u64) << 16u64 | (b4 as u64)
                << 24u64;
            proof {
                assert(b1 as u64 | (b2 as u64) << 8u64 | (b3 as u64) << 16u64 | (b4 as u64)
                    << 24u64 <= 0xffffffff) by (bit_vector);
            }
            Some(Value::Int(Self::sign_fix(uval, 0x80000000, 0xFFFFFFFF)))
        } else if b == 0xF4 {
            let uval: u64 = self.buf[p + 1] as u64 | (self.buf[p + 2] as u64) << 8u64 | (self.buf[p
                + 3] as u64) << 16u64 | (self.buf[p + 4] as u64) << 24u64 | (self.buf[p
                + 5] as u64) << 32u64 | (self.buf[p + 6] as u64) << 40u64 | (self.buf[p
                + 7] as u64) << 48u64 | (self.buf[p + 8] as u64) << 56u64;
            Some(Value::Int(Self::sign_fix(uval, 0x8000000000000000, 0xFFFFFFFFFFFFFFFF)))
        } else if b & 0xF0 == 0xE0 {
            let b1 = self.buf[p + 1];
            let slen: u32 = (((b & 0xF) as u32) << 8u32) | b1 as u32;
            proof {
                assert((((b & 0xF) as u32) << 8u32) | b1 as u32 <= 0xFFF + 0xFF) by (bit_vector);
            }
            Some(Value::String(self.copy_range(p + 2, slen as usize, Ghost(m))))
        } else {
            proof {
                if b != 0xF0 {
                    assert(false);
                }
            }
            let slen: u32 = self.buf[p + 1] as u32 | (self.buf[p + 2] as u32) << 8u32 | (self.buf[p
                + 3] as u32) << 16u32 | (self.buf[p + 4] as u32) << 24u32;
            Some(Value::String(self.copy_range(p + 5, slen as usize, Ghost(m))))
        }
    }

    /// Copy `count` buffer bytes starting at `start` into a fresh vector.
    fn copy_range(&self, start: usize, count: usize, m: Ghost<ValModel>) -> (r: Vec<u8>)
        requires
            start + count <= self.bytes_model().len(),
        ensures
            r@ =~= self.bytes_model().subrange(start as int, start + count),
    {
        let mut out: Vec<u8> = Vec::new();
        let total = self.buf.len();
        let mut k: usize = 0;
        while k < count
            invariant
                start + count <= total,
                total == self.buf@.len(),
                k <= count,
                out@ =~= self.buf@.subrange(start as int, start + k),
            decreases count - k,
        {
            out.push(self.buf[start + k]);
            proof {
                assert(out@ =~= self.buf@.subrange(start as int, start + k + 1));
            }
            k = k + 1;
        }
        out
    }

    /// Offset of the element before the one at `p`, found by reading the
    /// previous element's backlen field backward from `p - 1`.
    pub fn prev(&self, p: usize) -> (r: Option<usize>)
        requires
            self.wf(),
            self.is_elem_ptr(p as int),
        ensures
            self.elem_idx(p as int) == 0 ==> r is None,
            self.elem_idx(p as int) > 0 ==> (r matches Some(q) && q == self.elem_off(
                self.elem_idx(p as int) - 1,
            ) && self.is_elem_ptr(q as int) && self.elem_idx(q as int) == self.elem_idx(p as int)
                - 1),
    {
        let ghost i = self.elem_idx(p as int);
        proof {
            self.lemma_offsets(i);
            if i > 0 {
                self.lemma_offsets(i - 1);
                self.lemma_elem_decode(i - 1);
                lemma_enc_size_is_len(self@[i - 1]);
            } else {
                assert(self@.take(0) =~= Seq::<ValModel>::empty());
            }
        }
        if p <= HDR_USIZE {
            proof {
                if i > 0 {
                    lemma_prefix_size_monotonic(self@, 0, i);
                    assert(self@.take(0) =~= Seq::<ValModel>::empty());
                }
            }
            return None;
        }
        let prevlen = decode_backlen(&self.buf, p - 1);
        let back = crate::codec::backlen_size(prevlen);
        Some(p - prevlen as usize - back as usize)
    }

    /// Offset of the last element, or `None` when the listpack is empty.
    pub fn last(&self) -> (r: Option<usize>)
        requires
            self.wf(),
        ensures
            self@.len() == 0 ==> r is None,
            self@.len() > 0 ==> (r matches Some(q) && q == self.elem_off(self@.len() - 1)
                && self.is_elem_ptr(q as int) && self.elem_idx(q as int) == self@.len() - 1),
    {
        let ghost n = self@.len() as int;
        proof {
            self.lemma_terminator();
            if n > 0 {
                self.lemma_offsets(n - 1);
                self.lemma_elem_decode(n - 1);
                lemma_enc_size_is_len(self@[n - 1]);
            }
        }
        let total = self.buf.len();
        let p = total - 1;
        if p <= HDR_USIZE {
            proof {
                if n > 0 {
                    lemma_prefix_size_monotonic(self@, 0, n - 1);
                    assert(self@.take(0) =~= Seq::<ValModel>::empty());
                }
            }
            return None;
        }
        let prevlen = decode_backlen(&self.buf, p - 1);
        let back = crate::codec::backlen_size(prevlen);
        Some(p - prevlen as usize - back as usize)
    }

    /// Walk the whole listpack and return the exact element count.
    fn count_scan(&self) -> (r: u64)
        requires
            self.wf(),
        ensures
            r == self@.len(),
    {
        let ghost n = self@.len() as int;
        proof {
            lemma_elems_bytes_len(self@);
        }
        let mut idx: u64 = 0;
        let mut cur = self.first();
        while cur.is_some()
            invariant
                self.wf(),
                n == self@.len(),
                n <= 0x7FFF_FFFF,
                idx <= n,
                cur matches Some(q) ==> idx < n && q == self.elem_off(idx as int)
                    && self.is_elem_ptr(q as int) && self.elem_idx(q as int) == idx,
                cur is None ==> idx == n,
            decreases n - idx,
        {
            let p = cur.unwrap();
            cur = self.next(p);
            proof {
                self.lemma_offsets(idx as int);
            }
            idx = idx + 1;
        }
        idx
    }

    /// Look up the index of the element starting at offset `p`, scanning
    /// forward; `None` when no element starts there.
    pub fn find_idx(&self, p: usize) -> (r: Option<usize>)
        requires
            self.wf(),
        ensures
            r matches Some(i) ==> 0 <= i < self@.len() && p == self.elem_off(i as int)
                && self.elem_idx(p as int) == i && self.is_elem_ptr(p as int),
            r is None ==> !self.is_elem_ptr(p as int),
    {
        let ghost n = self@.len() as int;
        proof {
            lemma_elems_bytes_len(self@);
        }
        let mut idx: usize = 0;
        let mut cur = self.first();
        while cur.is_some()
            invariant
                self.wf(),
                n == self@.len(),
                n <= 0x7FFF_FFFF,
                idx <= n,
                cur matches Some(q) ==> idx < n && q == self.elem_off(idx as int)
                    && self.is_elem_ptr(q as int) && self.elem_idx(q as int) == idx,
                cur is None ==> idx == n,
                forall|j: int| 0 <= j < idx ==> self.elem_off(j) != p,
            decreases n - idx,
        {
            let q = cur.unwrap();
            if q == p {
                return Some(idx);
            }
            cur = self.next(q);
            proof {
                self.lemma_offsets(idx as int);
            }
            idx = idx + 1;
        }
        proof {
            if self.is_elem_ptr(p as int) {
                let i = self.elem_idx(p as int);
                assert(0 <= i < n && p == self.elem_off(i));
            }
        }
        None
    }

    /// Seek element `index`: non-negative indexes count from the head,
    /// negative ones from the tail (`-1` is the last element). Out of
    /// range yields `None`.
    pub fn seek(&self, index: isize) -> (r: Option<usize>)
        requires
            self.wf(),
        ensures
            ({
                let n = self@.len() as int;
                let t = if index >= 0 {
                    index as int
                } else {
                    n + index
                };
                &&& (0 <= t < n) ==> (r matches Some(q) && q == self.elem_off(t)
                    && self.is_elem_ptr(q as int) && self.elem_idx(q as int) == t)
                &&& !(0 <= t < n) ==> r is None
            }),
    {
        let ghost n = self@.len() as int;
        let count = self.count_scan();
        proof {
            lemma_elems_bytes_len(self@);
        }
        let target: i64 = if index >= 0 {
            index as i64
        } else {
            count as i64 + index as i64
        };
        if target < 0 || target >= count as i64 {
            return None;
        }
        let t = target as usize;
        // walk from whichever end is closer, as the cached count allows
        if t as u64 * 2 <= count {
            let mut idx: usize = 0;
            let mut cur = match self.first() {
                Some(q) => q,
                None => {
                    proof {
                        assert(false);
                    }
                    return None;
                },
            };
            while idx < t
                invariant
                    self.wf(),
                    n == self@.len(),
                    n <= 0x7FFF_FFFF,
                    idx <= t,
                    t < n,
                    cur == self.elem_off(idx as int),
                    self.is_elem_ptr(cur as int),
                    self.elem_idx(cur as int) == idx,
                decreases t - idx,
            {
                proof {
                    self.lemma_offsets(idx as int);
                    self.lemma_offsets(idx as int + 1);
                }
                cur = match self.next(cur) {
                    Some(q) => q,
                    None => {
                        proof {
                            assert(false);
                        }
                        return None;
                    },
                };
                idx = idx + 1;
            }
            Some(cur)
        } else {
            let mut idx: usize = count as usize - 1;
            let mut cur = match self.last() {
                Some(q) => q,
                None => {
                    proof {
                        assert(false);
                    }
                    return None;
                },
            };
            while idx > t
                invariant
                    self.wf(),
                    n == self@.len(),
                    n <= 0x7FFF_FFFF,
                    t <= idx < n,
                    cur == self.elem_off(idx as int),
                    self.is_elem_ptr(cur as int),
                    self.elem_idx(cur as int) == idx,
                decreases idx,
            {
                cur = match self.prev(cur) {
                    Some(q) => q,
                    None => {
                        proof {
                            assert(false);
                        }
                        return None;
                    },
                };
                idx = idx - 1;
            }
            Some(cur)
        }
    }

    /// All elements front to back.
    pub fn iter(&self) -> (r: Vec<Value>)
        requires
            self.wf(),
        ensures
            r@.len() == self@.len(),
            forall|k: int| 0 <= k < r@.len() ==> #[trigger] r@[k]@ == self@[k],
    {
        let ghost n = self@.len() as int;
        proof {
            lemma_elems_bytes_len(self@);
        }
        let mut out: Vec<Value> = Vec::new();
        let mut cur = self.first();
        while cur.is_some()
            invariant
                self.wf(),
                n == self@.len(),
                n <= 0x7FFF_FFFF,
                out@.len() <= n,
                cur matches Some(q) ==> out@.len() < n && q == self.elem_off(out@.len() as int)
                    && self.is_elem_ptr(q as int) && self.elem_idx(q as int) == out@.len(),
                cur is None ==> out@.len() == n,
                forall|k: int| 0 <= k < out@.len() ==> #[trigger] out@[k]@ == self@[k],
            decreases n - out@.len(),
        {
            let p = cur.unwrap();
            match self.get(p) {
                Some(v) => out.push(v),
                None => {
                    proof {
                        assert(false);
                    }
                },
            }
            cur = self.next(p);
            proof {
                self.lemma_offsets(out@.len() - 1);
            }
        }
        out
    }

    /// All elements back to front: the reverse of what `iter` yields.
    pub fn iter_rev(&self) -> (r: Vec<Value>)
        requires
            self.wf(),
        ensures
            r@.len() == self@.len(),
            forall|k: int| 0 <= k < r@.len() ==> #[trigger] r@[k]@ == self@[self@.len() - 1 - k],
    {
        let ghost n = self@.len() as int;
        proof {
            lemma_elems_bytes_len(self@);
        }
        let mut out: Vec<Value> = Vec::new();
        let mut cur = self.last();
        while cur.is_some()
            invariant
                self.wf(),
                n == self@.len(),
                n <= 0x7FFF_FFFF,
                out@.len() <= n,
                cur matches Some(q) ==> out@.len() < n && q == self.elem_off(
                    n - 1 - out@.len(),
                ) && self.is_elem_ptr(q as int) && self.elem_idx(q as int) == n - 1 - out@.len(),
                cur is None ==> out@.len() == n,
                forall|k: int| 0 <= k < out@.len() ==> #[trigger] out@[k]@ == self@[n - 1 - k],
            decreases n - out@.len(),
        {
            let p = cur.unwrap();
            match self.get(p) {
                Some(v) => out.push(v),
                None => {
                    proof {
                        assert(false);
                    }
                },
            }
            cur = self.prev(p);
        }
        out
    }

    /// All elements front to back, each with its position.
    pub fn iter_index(&self) -> (r: Vec<(usize, Value)>)
        requires
            self.wf(),
        ensures
            r@.len() == self@.len(),
            forall|k: int|
                0 <= k < r@.len() ==> (#[trigger] r@[k]).0 == k && r@[k].1@ == self@[k],
    {
        let vals = self.iter();
        let mut out: Vec<(usize, Value)> = Vec::new();
        let mut k: usize = 0;
        let len = vals.len();
        let mut rest = vals;
        proof {
            assert(rest@.subrange(0, k as int) =~= Seq::<Value>::empty());
        }
        let mut taken: Vec<(usize, Value)> = Vec::new();
        while k < len
            invariant
                rest@.len() == len,
                k <= len,
                len == self@.len(),
                forall|j: int| 0 <= j < len ==> #[trigger] rest@[j]@ == self@[j],
                taken@.len() == k,
                forall|j: int|
                    0 <= j < k ==> (#[trigger] taken@[j]).0 == j && taken@[j].1@ == self@[j],
            decreases len - k,
        {
            let v = match self.get_at_index(&rest, k) {
                Some(v) => v,
                None => {
                    proof {
                        assert(false);
                    }
                    return taken;
                },
            };
            taken.push((k, v));
            k = k + 1;
        }
        taken
    }

    /// Clone the `k`-th entry of a previously collected element vector.
    fn get_at_index(&self, vals: &Vec<Value>, k: usize) -> (r: Option<Value>)
        requires
            k < vals.len(),
        ensures
            r matches Some(v) && v@ == vals@[k as int]@,
    {
        match &vals[k] {
            Value::Int(v) => Some(Value::Int(*v)),
            Value::String(b) => {
                let mut copy: Vec<u8> = Vec::new();
                copy.extend_from_slice(b.as_slice());
                proof {
                    assert(copy@ =~= b@);
                }
                Some(Value::String(copy))
            },
        }
    }

    /// Two's-complement reconstruction for the fixed-width integer tiers.
    fn sign_fix(uval: u64, negstart: u64, negmax: u64) -> (r: i64)
        requires
            uval <= negmax,
            negstart >= 0x1000,
            negmax - negstart < 0x8000_0000_0000_0000,
        ensures
            r == crate::codec::sign_decode(uval, negstart, negmax),
    {
        if uval >= negstart {
            let diff = negmax - uval;
            -(diff as i64) - 1
        } else {
            #[verifier::truncate] (uval as i64)
        }
    }
}

pub proof fn lemma_elems_bytes_single(m: ValModel)
    ensures
        elems_bytes(seq![m]) == elem_bytes(m),
        elems_size(seq![m]) == elem_size(m),
{
    assert(seq![m].drop_first() =~= Seq::<ValModel>::empty());
    assert(elems_size(Seq::<ValModel>::empty()) == 0);
    assert(elems_bytes(Seq::<ValModel>::empty()) == Seq::<u8>::empty());
    assert(elems_bytes(seq![m]) =~= elem_bytes(m));
}

/// Where the insertion point sits relative to the target element.
pub enum Placement {
    /// Insert immediately before the target element.
    Before,
    /// Insert immediately after the target element.
    After,
}

/// Replace the bytes of `old` between `start` and `end` with `img`.
fn splice_bytes(old: &Vec<u8>, start: usize, end: usize, img: &Vec<u8>) -> (r: Vec<u8>)
    requires
        start <= end <= old.len(),
        old@.len() - (end - start) + img@.len() <= 0xFFFF_FFFF,
    ensures
        r@ == old@.subrange(0, start as int) + img@ + old@.subrange(end as int, old@.len() as int),
{
    let mut out: Vec<u8> = Vec::new();
    let mut k: usize = 0;
    while k < start
        invariant
            start <= end <= old@.len(),
            k <= start,
            out@ =~= old@.subrange(0, k as int),
        decreases start - k,
    {
        out.push(old[k]);
        proof {
            assert(out@ =~= old@.subrange(0, k + 1));
        }
        k = k + 1;
    }
    out.extend_from_slice(img.as_slice());
    let total = old.len();
    let mut j: usize = end;
    while j < total
        invariant
            start <= end <= total,
            total == old@.len(),
            end <= j <= total,
            out@ =~= old@.subrange(0, start as int) + img@ + old@.subrange(end as int, j as int),
        decreases total - j,
    {
        out.push(old[j]);
        proof {
            assert(out@ =~= old@.subrange(0, start as int) + img@ + old@.subrange(
                end as int,
                j + 1,
            ));
        }
        j = j + 1;
    }
    proof {
        assert(out@ =~= old@.subrange(0, start as int) + img@ + old@.subrange(
            end as int,
            old@.len() as int,
        ));
    }
    out
}

impl Listpack {
    /// Bytes of the first `i` elements and of the rest, located inside the
    /// buffer.
    pub proof fn lemma_buffer_split(&self, i: int)
        requires
            self.wf(),
            0 <= i <= self@.len(),
        ensures
            self.bytes_model().subrange(HDR_USIZE as int, self.elem_off(i)) =~= elems_bytes(
                self@.take(i),
            ),
            self.bytes_model().subrange(self.elem_off(i), self.total_bytes() - 1) =~= elems_bytes(
                self@.skip(i),
            ),
            HDR_USIZE <= self.elem_off(i) <= self.total_bytes() - 1,
    {
        let s = self.buf@;
        let vs = self@;
        lemma_elems_bytes_split(vs, i);
        lemma_elems_bytes_len(vs.take(i));
        lemma_elems_bytes_len(vs.skip(i));
        lemma_elems_bytes_len(vs);
        let cut = self.elem_off(i);
        assert forall|k: int| 0 <= k < cut - HDR_USIZE implies s.subrange(HDR_USIZE as int, cut)[k]
            == elems_bytes(vs.take(i))[k] by {
            assert(s.subrange(HDR_USIZE as int, s.len() - 1)[k] == elems_bytes(vs)[k]);
            assert(elems_bytes(vs)[k] == (elems_bytes(vs.take(i)) + elems_bytes(vs.skip(i)))[k]);
        }
        assert forall|k: int| 0 <= k < s.len() - 1 - cut implies s.subrange(cut, s.len() - 1)[k]
            == elems_bytes(vs.skip(i))[k] by {
            assert(s.subrange(HDR_USIZE as int, s.len() - 1)[(cut - HDR_USIZE) + k]
                == elems_bytes(vs)[(cut - HDR_USIZE) + k]);
            assert(elems_bytes(vs)[(cut - HDR_USIZE) + k] == (elems_bytes(vs.take(i))
                + elems_bytes(vs.skip(i)))[(cut - HDR_USIZE) + k]);
        }
    }

    /// Splice `img` (the image of the `added` values `mids`) over the byte
    /// range of elements `i..j` (`removed` of them), rewrite the headers,
    /// and update the ghost element sequence.
    fn splice_elems(
        &mut self,
        i: Ghost<int>,
        j: Ghost<int>,
        start: usize,
        end: usize,
        img: &Vec<u8>,
        added: u64,
        removed: u64,
        mids: Ghost<Seq<ValModel>>,
    )
        requires
            old(self).wf(),
            0 <= i@ <= j@ <= old(self)@.len(),
            removed == j@ - i@ <= 1,
            added == mids@.len() <= 1,
            start == old(self).elem_off(i@),
            end == old(self).elem_off(j@),
            img@ == elems_bytes(mids@),
            val_seq_ok(mids@),
            old(self).total_bytes() - (end - start) + img@.len() <= 0xFFFF_FFFF,
        ensures
            final(self).wf(),
            final(self)@ == old(self)@.take(i@) + mids@ + old(self)@.skip(j@),
            final(self).total_bytes() == old(self).total_bytes() - (end - start) + img@.len(),
    {
        let ghost old_elems = self.elems@;
        let ghost new_elems = old_elems.take(i@) + mids@ + old_elems.skip(j@);
        proof {
            self.lemma_buffer_split(i@);
            self.lemma_buffer_split(j@);
            lemma_prefix_size_monotonic(old_elems, i@, j@);
            lemma_elems_bytes_len(old_elems.take(i@));
            lemma_elems_bytes_len(old_elems.skip(j@));
            lemma_elems_bytes_len(mids@);
            lemma_elems_bytes_concat(old_elems.take(i@) + mids@, old_elems.skip(j@));
            lemma_elems_bytes_concat(old_elems.take(i@), mids@);
            lemma_elems_bytes_len(new_elems);
            lemma_elems_bytes_len(old_elems);
        }
        let nb = splice_bytes(&self.buf, start, end, img);
        self.buf = nb;
        let new_total = self.buf.len();
        set_total_bytes(&mut self.buf, new_total as u32);
        let cnt = get_num_elements(&self.buf);
        proof {
            self.elems@ = new_elems;
        }
        if cnt != HDR_NUMELE_UNKNOWN {
            let newcnt = cnt as u64 - removed + added;
            set_num_elements(&mut self.buf, newcnt as u16);
        }
        proof {
            let s = self.buf@;
            let os = old(self).bytes_model();
            assert(s.subrange(HDR_USIZE as int, s.len() - 1) =~= elems_bytes(new_elems)) by {
                assert(forall|k: int|
                    HDR_USIZE <= k < s.len() ==> s[k] == (os.subrange(0, start as int) + img@
                        + os.subrange(end as int, os.len() as int))[k]);
                assert(forall|k: int|
                    0 <= k < start - HDR_USIZE ==> os.subrange(0, start as int)[HDR_USIZE + k]
                        == os.subrange(HDR_USIZE as int, start as int)[k]);
            }
            assert(s[s.len() - 1] == (os.subrange(0, start as int) + img@ + os.subrange(
                end as int,
                os.len() as int,
            ))[s.len() - 1]);
            assert(self.wf());
        }
    }

    /// Marker for "no target element": insertion with this target appends.
    pub open spec fn null_target(&self, target: int) -> bool {
        target == usize::MAX || target == self.total_bytes() - 1
    }

    /// The element index at which `insert` places the new value.
    pub open spec fn insert_pos(&self, place: Placement, target: int) -> int {
        if self.null_target(target) {
            self@.len() as int
        } else {
            match place {
                Placement::Before => self.elem_idx(target),
                Placement::After => self.elem_idx(target) + 1,
            }
        }
    }

    /// Insert a value before or after the target element. A target of
    /// `usize::MAX` or of the terminator offset appends. Returns the offset
    /// of the newly inserted element; on a target that is no element, or a
    /// total size beyond the 32-bit limit, returns `None` with the listpack
    /// untouched.
    pub fn insert(&mut self, v: &Value, place: Placement, target: usize) -> (r: Option<usize>)
        requires
            old(self).wf(),
            val_ok(v@),
        ensures
            final(self).wf(),
            r is Some <==> (old(self).null_target(target as int) || old(self).is_elem_ptr(
                target as int,
            )) && old(self).total_bytes() + elem_size(v@) <= 0xFFFF_FFFF,
            r is None ==> *final(self) == *old(self),
            r matches Some(q) ==> ({
                let pos = old(self).insert_pos(place, target as int);
                &&& final(self)@ == old(self)@.insert(pos, v@)
                &&& q == final(self).elem_off(pos)
                &&& final(self).is_elem_ptr(q as int)
                &&& final(self).elem_idx(q as int) == pos
            }),
    {
        let ghost old_self = *self;
        let total = self.buf.len();
        let es = v.size_for_write();
        proof {
            lemma_enc_size_is_len(v@);
        }
        let fits = total as u64 + es as u64 <= 0xFFFF_FFFF;
        if target == usize::MAX || target == total - 1 {
            if !fits {
                return None;
            }
            let ghost n = self@.len() as int;
            let img = v.element_image();
            let ghost mvals: Seq<ValModel> = seq![v@];
            proof {
                lemma_elems_bytes_single(v@);
                self.lemma_terminator();
                assert(self@.take(n) =~= self@);
                assert(self@.skip(n) =~= Seq::<ValModel>::empty());
                lemma_elems_bytes_len(self@);
            }
            self.splice_elems(
                Ghost(n),
                Ghost(n),
                total - 1,
                total - 1,
                &img,
                1,
                0,
                Ghost(mvals),
            );
            proof {
                assert(self@ =~= old_self@.insert(n, v@));
                assert(self@.take(n) =~= old_self@);
                self.lemma_offsets(n);
            }
            Some(total - 1)
        } else {
            let found = self.find_idx(target);
            match found {
                None => None,
                Some(ti) => {
                    if !fits {
                        return None;
                    }
                    let ghost n = self@.len() as int;
                    proof {
                        self.lemma_offsets(ti as int);
                        lemma_enc_size_is_len(self@[ti as int]);
                        lemma_elems_bytes_len(self@);
                    }
                    let (pos, start) = match place {
                        Placement::Before => (ti, target),
                        Placement::After => {
                            let step = self.encoded_size_at(target);
                            let back = crate::codec::backlen_size(step as u64);
                            (ti + 1, target + step + back as usize)
                        },
                    };
                    let ghost gpos = pos as int;
                    proof {
                        if gpos == ti + 1 {
                            assert(self@.take(ti as int + 1) =~= self@.take(ti as int).push(
                                self@[ti as int],
                            ));
                            lemma_elems_bytes_push(self@.take(ti as int), self@[ti as int]);
                        }
                    }
                    let img = v.element_image();
                    let ghost mvals: Seq<ValModel> = seq![v@];
                    proof {
                        lemma_elems_bytes_single(v@);
                    }
                    self.splice_elems(
                        Ghost(gpos),
                        Ghost(gpos),
                        start,
                        start,
                        &img,
                        1,
                        0,
                        Ghost(mvals),
                    );
                    proof {
                        assert(self@ =~= old_self@.insert(gpos, v@));
                        assert(self@.take(gpos) =~= old_self@.take(gpos));
                        self.lemma_offsets(gpos);
                    }
                    Some(start)
                },
            }
        }
    }

    /// Replace the element at `target` with a new value, shifting the bytes
    /// that follow by the size delta. Returns the element's offset (which
    /// does not move); on a target that is no element, or a total size
    /// beyond the 32-bit limit, returns `None` with the listpack untouched.
    pub fn replace(&mut self, target: usize, v: &Value) -> (r: Option<usize>)
        requires
            old(self).wf(),
            val_ok(v@),
        ensures
            final(self).wf(),
            r is Some <==> old(self).is_elem_ptr(target as int) && old(self).total_bytes()
                - elem_size(old(self)@[old(self).elem_idx(target as int)]) + elem_size(v@)
                <= 0xFFFF_FFFF,
            r is None ==> *final(self) == *old(self),
            r matches Some(q) ==> ({
                let i = old(self).elem_idx(target as int);
                &&& final(self)@ == old(self)@.update(i, v@)
                &&& q == target
                &&& final(self).is_elem_ptr(q as int)
                &&& final(self).elem_idx(q as int) == i
            }),
    {
        let ghost old_self = *self;
        let found = self.find_idx(target);
        match found {
            None => None,
            Some(ti) => {
                let ghost gi = ti as int;
                proof {
                    self.lemma_offsets(gi);
                    lemma_enc_size_is_len(self@[gi]);
                }
                let step = self.encoded_size_at(target);
                let back = crate::codec::backlen_size(step as u64);
                let end = target + step + back as usize;
                let total = self.buf.len();
                let es = v.size_for_write();
                proof {
                    lemma_enc_size_is_len(v@);
                }
                if total as u64 - (end - target) as u64 + es as u64 > 0xFFFF_FFFF {
                    return None;
                }
                let img = v.element_image();
                let ghost mvals: Seq<ValModel> = seq![v@];
                proof {
                    lemma_elems_bytes_single(v@);
                    assert(self@.take(gi + 1) =~= self@.take(gi).push(self@[gi]));
                    lemma_elems_bytes_push(self@.take(gi), self@[gi]);
                }
                self.splice_elems(
                    Ghost(gi),
                    Ghost(gi + 1),
                    target,
                    end,
                    &img,
                    1,
                    1,
                    Ghost(mvals),
                );
                proof {
                    assert(self@ =~= old_self@.update(gi, v@));
                    assert(self@.take(gi) =~= old_self@.take(gi));
                    self.lemma_offsets(gi);
                }
                Some(target)
            },
        }
    }

    /// Delete the element at `target`, closing the gap. Returns the offset
    /// of the element that now occupies the deleted position (or the new
    /// last element when the tail was deleted); `None` when the target is
    /// no element (nothing deleted) or the listpack became empty.
    pub fn delete(&mut self, target: usize) -> (r: Option<usize>)
        requires
            old(self).wf(),
        ensures
            final(self).wf(),
            !old(self).is_elem_ptr(target as int) ==> *final(self) == *old(self) && r is None,
            old(self).is_elem_ptr(target as int) ==> ({
                let i = old(self).elem_idx(target as int);
                &&& final(self)@ == old(self)@.remove(i)
                &&& final(self).total_bytes() == old(self).total_bytes() - elem_size(
                    old(self)@[i],
                )
                &&& final(self)@.len() == 0 ==> r is None
                &&& (final(self)@.len() > 0 && i < final(self)@.len()) ==> r == Some(
                    target as usize,
                )
                &&& (final(self)@.len() > 0 && i == final(self)@.len()) ==> (r matches Some(q)
                    && q == final(self).elem_off(i - 1))
            }),
    {
        let ghost old_self = *self;
        let found = self.find_idx(target);
        match found {
            None => None,
            Some(ti) => {
                let ghost gi = ti as int;
                let prior = self.prev(target);
                proof {
                    self.lemma_offsets(gi);
                    lemma_enc_size_is_len(self@[gi]);
                }
                let step = self.encoded_size_at(target);
                let back = crate::codec::backlen_size(step as u64);
                let end = target + step + back as usize;
                let img: Vec<u8> = Vec::new();
                proof {
                    assert(elems_bytes(Seq::<ValModel>::empty()) == Seq::<u8>::empty());
                    assert(elems_size(Seq::<ValModel>::empty()) == 0);
                    assert(img@ =~= elems_bytes(Seq::<ValModel>::empty()));
                    assert(self@.take(gi + 1) =~= self@.take(gi).push(self@[gi]));
                    lemma_elems_bytes_push(self@.take(gi), self@[gi]);
                }
                self.splice_elems(
                    Ghost(gi),
                    Ghost(gi + 1),
                    target,
                    end,
                    &img,
                    0,
                    1,
                    Ghost(Seq::empty()),
                );
                proof {
                    assert(self@ =~= old_self@.remove(gi));
                    assert(self@.take(gi) =~= old_self@.take(gi));
                }
                let n_now = self.count_scan();
                if n_now == 0 {
                    None
                } else if (ti as u64) < n_now {
                    proof {
                        self.lemma_offsets(gi);
                    }
                    Some(target)
                } else {
                    proof {
                        assert(old_self@.remove(gi).take(gi - 1) =~= old_self@.take(gi - 1));
                        assert(prior matches Some(q) ==> q == old_self.elem_off(gi - 1));
                    }
                    match prior {
                        Some(q) => Some(q),
                        None => {
                            proof {
                                assert(false);
                            }
                            None
                        },
                    }
                }
            },
        }
    }
}

/// The little-endian integer a raw byte string of one of the machine
/// widths (1, 2, 4, 8 or 16 bytes) denotes; anything else denotes zero.
pub open spec fn bytes_le_val(s: Seq<u8>) -> u128 {
    if s.len() == 1 {
        s[0] as u128
    } else if s.len() == 2 {
        s[0] as u128 | (s[1] as u128) << 8u128
    } else if s.len() == 4 {
        s[0] as u128 | (s[1] as u128) << 8u128 | (s[2] as u128) << 16u128 | (s[3] as u128)
            << 24u128
    } else if s.len() == 8 {
        s[0] as u128 | (s[1] as u128) << 8u128 | (s[2] as u128) << 16u128 | (s[3] as u128)
            << 24u128 | (s[4] as u128) << 32u128 | (s[5] as u128) << 40u128 | (s[6] as u128)
            << 48u128 | (s[7] as u128) << 56u128
    } else if s.len() == 16 {
        s[0] as u128 | (s[1] as u128) << 8u128 | (s[2] as u128) << 16u128 | (s[3] as u128)
            << 24u128 | (s[4] as u128) << 32u128 | (s[5] as u128) << 40u128 | (s[6] as u128)
            << 48u128 | (s[7] as u128) << 56u128 | (s[8] as u128) << 64u128 | (s[9] as u128)
            << 72u128 | (s[10] as u128) << 80u128 | (s[11] as u128) << 88u128 | (s[12] as u128)
            << 96u128 | (s[13] as u128) << 104u128 | (s[14] as u128) << 112u128 | (s[15] as u128)
            << 120u128
    } else {
        0
    }
}

/// The signed reading of a raw byte string of one of the machine widths:
/// the little-endian integer of that width, sign-extended. Anything else
/// denotes zero.
pub open spec fn bytes_le_sval(s: Seq<u8>) -> i128 {
    if s.len() == 1 {
        s[0] as i8 as i128
    } else if s.len() == 2 {
        (s[0] as u16 | (s[1] as u16) << 8u16) as i16 as i128
    } else if s.len() == 4 {
        (s[0] as u32 | (s[1] as u32) << 8u32 | (s[2] as u32) << 16u32 | (s[3] as u32)
            << 24u32) as i32 as i128
    } else if s.len() == 8 {
        (s[0] as u64 | (s[1] as u64) << 8u64 | (s[2] as u64) << 16u64 | (s[3] as u64) << 24u64 | (
        s[4] as u64) << 32u64 | (s[5] as u64) << 40u64 | (s[6] as u64) << 48u64 | (s[7] as u64)
            << 56u64) as i64 as i128
    } else if s.len() == 16 {
        bytes_le_val(s) as i128
    } else {
        0
    }
}

/// The numeric reading of an element value: integers read as themselves,
/// byte strings as their little-endian machine-width reinterpretation.
pub open spec fn numeric_of(m: ValModel) -> u128 {
    match m {
        ValModel::Int(v) => v as u128,
        ValModel::Bytes(s) => bytes_le_val(s),
    }
}

/// The signed reading of an element value: integers read as themselves,
/// byte strings as their sign-extended little-endian machine-width
/// reinterpretation, the way the signed typed getters read them.
pub open spec fn numeric_signed_of(m: ValModel) -> i128 {
    match m {
        ValModel::Int(v) => v as i128,
        ValModel::Bytes(s) => bytes_le_sval(s),
    }
}

/// Reinterpret a raw byte string as a little-endian integer, as the typed
/// getters do for machine-width strings.
fn raw_le_val(b: &Vec<u8>) -> (r: u128)
    ensures
        r == bytes_le_val(b@),
{
    let n = b.len();
    if n == 1 {
        b[0] as u128
    } else if n == 2 {
        b[0] as u128 | (b[1] as u128) << 8u128
    } else if n == 4 {
        b[0] as u128 | (b[1] as u128) << 8u128 | (b[2] as u128) << 16u128 | (b[3] as u128)
            << 24u128
    } else if n == 8 {
        b[0] as u128 | (b[1] as u128) << 8u128 | (b[2] as u128) << 16u128 | (b[3] as u128)
            << 24u128 | (b[4] as u128) << 32u128 | (b[5] as u128) << 40u128 | (b[6] as u128)
            << 48u128 | (b[7] as u128) << 56u128
    } else if n == 16 {
        b[0] as u128 | (b[1] as u128) << 8u128 | (b[2] as u128) << 16u128 | (b[3] as u128)
            << 24u128 | (b[4] as u128) << 32u128 | (b[5] as u128) << 40u128 | (b[6] as u128)
            << 48u128 | (b[7] as u128) << 56u128 | (b[8] as u128) << 64u128 | (b[9] as u128)
            << 72u128 | (b[10] as u128) << 80u128 | (b[11] as u128) << 88u128 | (b[12] as u128)
            << 96u128 | (b[13] as u128) << 104u128 | (b[14] as u128) << 112u128 | (b[15] as u128)
            << 120u128
    } else {
        0
    }
}

/// Reinterpret a raw byte string as a sign-extended little-endian
/// integer, as the signed typed getters do for machine-width strings.
fn raw_le_sval(b: &Vec<u8>) -> (r: i128)
    ensures
        r == bytes_le_sval(b@),
{
    let n = b.len();
    if n == 1 {
        b[0] as i8 as i128
    } else if n == 2 {
        #[verifier::truncate] ((b[0] as u16 | (b[1] as u16) << 8u16) as i16) as i128
    } else if n == 4 {
        #[verifier::truncate] ((b[0] as u32 | (b[1] as u32) << 8u32 | (b[2] as u32) << 16u32 | (
        b[3] as u32) << 24u32) as i32) as i128
    } else if n == 8 {
        #[verifier::truncate] ((b[0] as u64 | (b[1] as u64) << 8u64 | (b[2] as u64) << 16u64 | (
        b[3] as u64) << 24u64 | (b[4] as u64) << 32u64 | (b[5] as u64) << 40u64 | (b[6] as u64)
            << 48u64 | (b[7] as u64) << 56u64) as i64) as i128
    } else if n == 16 {
        #[verifier::truncate] (raw_le_val(b) as i128)
    } else {
        0
    }
}

/// The numeric reading of the element at `p`, before any width cast.
fn numeric_at(lp: &Listpack, p: usize) -> (r: u128)
    requires
        lp.wf(),
        lp.is_elem_ptr(p as int),
    ensures
        r == numeric_of(lp@[lp.elem_idx(p as int)]),
{
    match get(lp, p) {
        Value::Int(v) => #[verifier::truncate] (v as u128),
        Value::String(b) => raw_le_val(&b),
    }
}

/// The signed reading of the element at `p`, before any width cast.
fn numeric_signed_at(lp: &Listpack, p: usize) -> (r: i128)
    requires
        lp.wf(),
        lp.is_elem_ptr(p as int),
    ensures
        r == numeric_signed_of(lp@[lp.elem_idx(p as int)]),
{
    match get(lp, p) {
        Value::Int(v) => v as i128,
        Value::String(b) => raw_le_sval(&b),
    }
}

// --- free-function face of the listpack, as callers use it ---

/// A fresh, empty listpack.
pub fn new() -> (r: Listpack)
    ensures
        r.wf(),
        r@ =~= Seq::<ValModel>::empty(),
{
    Listpack::new()
}

/// Decode the element at offset `p`.
pub fn get(lp: &Listpack, p: usize) -> (r: Value)
    requires
        lp.wf(),
        lp.is_elem_ptr(p as int),
    ensures
        r@ == lp@[lp.elem_idx(p as int)],
{
    match lp.get(p) {
        Some(v) => v,
        None => {
            proof {
                assert(false);
            }
            Value::Int(0)
        },
    }
}

/// Offset of the first element.
pub fn first(lp: &Listpack) -> (r: Option<usize>)
    requires
        lp.wf(),
    ensures
        lp@.len() == 0 ==> r is None,
        lp@.len() > 0 ==> (r matches Some(p) && lp.is_elem_ptr(p as int) && lp.elem_idx(p as int)
            == 0),
{
    lp.first()
}

/// Offset of the last element.
pub fn last(lp: &Listpack) -> (r: Option<usize>)
    requires
        lp.wf(),
    ensures
        lp@.len() == 0 ==> r is None,
        lp@.len() > 0 ==> (r matches Some(p) && lp.is_elem_ptr(p as int) && lp.elem_idx(p as int)
            == lp@.len() - 1),
{
    lp.last()
}

/// Offset of the element after `p`.
pub fn next(lp: &Listpack, p: usize) -> (r: Option<usize>)
    requires
        lp.wf(),
        lp.is_elem_ptr(p as int),
    ensures
        lp.elem_idx(p as int) + 1 == lp@.len() ==> r is None,
        lp.elem_idx(p as int) + 1 < lp@.len() ==> (r matches Some(q) && lp.is_elem_ptr(q as int)
            && lp.elem_idx(q as int) == lp.elem_idx(p as int) + 1),
{
    proof {
        lp.lemma_offsets(lp.elem_idx(p as int));
    }
    lp.next(p)
}

/// Offset of the element before `p`.
pub fn prev(lp: &Listpack, p: usize) -> (r: Option<usize>)
    requires
        lp.wf(),
        lp.is_elem_ptr(p as int),
    ensures
        lp.elem_idx(p as int) == 0 ==> r is None,
        lp.elem_idx(p as int) > 0 ==> (r matches Some(q) && lp.is_elem_ptr(q as int)
            && lp.elem_idx(q as int) == lp.elem_idx(p as int) - 1),
{
    lp.prev(p)
}

/// Seek by position, counting from the tail for negative positions.
pub fn seek(lp: &Listpack, index: isize) -> (r: Option<usize>)
    requires
        lp.wf(),
    ensures
        ({
            let n = lp@.len() as int;
            let t = if index >= 0 {
                index as int
            } else {
                n + index
            };
            &&& (0 <= t < n) ==> (r matches Some(q) && lp.is_elem_ptr(q as int) && lp.elem_idx(
                q as int,
            ) == t)
            &&& !(0 <= t < n) ==> r is None
        }),
{
    lp.seek(index)
}

/// Whether an element starts at offset `ele`.
pub fn is_valid_element(lp: &Listpack, ele: usize) -> (r: bool)
    requires
        lp.wf(),
    ensures
        r == lp.is_elem_ptr(ele as int),
{
    lp.find_idx(ele).is_some()
}

/// Exact element count. Uses the cached header field when it is exact;
/// otherwise rescans, and repairs the field if the count fits again.
pub fn length(lp: &mut Listpack) -> (r: u32)
    requires
        old(lp).wf(),
    ensures
        final(lp).wf(),
        final(lp)@ == old(lp)@,
        r == old(lp)@.len(),
{
    let cnt = lp.len();
    if cnt != HDR_NUMELE_UNKNOWN {
        cnt as u32
    } else {
        let n = lp.count_scan();
        proof {
            lemma_elems_bytes_len(lp@);
        }
        if n < HDR_NUMELE_UNKNOWN as u64 {
            let ghost before = lp.buf@;
            set_num_elements(&mut lp.buf, n as u16);
            proof {
                assert(lp.buf@.subrange(HDR_USIZE as int, lp.buf@.len() - 1) =~= before.subrange(
                    HDR_USIZE as int,
                    before.len() - 1,
                ));
                assert(lp.wf());
            }
        }
        n as u32
    }
}

/// All elements front to back.
pub fn iter(lp: &Listpack) -> (r: Vec<Value>)
    requires
        lp.wf(),
    ensures
        r@.len() == lp@.len(),
        forall|k: int| 0 <= k < r@.len() ==> #[trigger] r@[k]@ == lp@[k],
{
    lp.iter()
}

/// All elements front to back, with positions.
pub fn iter_index(lp: &Listpack) -> (r: Vec<(usize, Value)>)
    requires
        lp.wf(),
    ensures
        r@.len() == lp@.len(),
        forall|k: int| 0 <= k < r@.len() ==> (#[trigger] r@[k]).0 == k && r@[k].1@ == lp@[k],
{
    lp.iter_index()
}

/// All elements back to front.
pub fn iter_rev(lp: &Listpack) -> (r: Vec<Value>)
    requires
        lp.wf(),
    ensures
        r@.len() == lp@.len(),
        forall|k: int| 0 <= k < r@.len() ==> #[trigger] r@[k]@ == lp@[lp@.len() - 1 - k],
{
    lp.iter_rev()
}

impl Listpack {
    /// The header's total-bytes field always equals the actual allocation
    /// size, and the count field is exact whenever it is not the saturated
    /// sentinel: the header never lies.
    pub proof fn lemma_header_exact(&self)
        requires
            self.wf(),
        ensures
            le32_at(self.bytes_model(), 0) == self.total_bytes(),
            le16_at(self.bytes_model(), 4) != HDR_NUMELE_UNKNOWN ==> le16_at(
                self.bytes_model(),
                4,
            ) == self@.len(),
            self.total_bytes() == HDR_USIZE + elems_size(self@) + 1,
    {
    }

    /// Typed getter: see the free function of the same name.
    pub fn get_i8(&self, p: usize) -> (r: i8)
        requires
            self.wf(),
            self.is_elem_ptr(p as int),
        ensures
            r == numeric_signed_of(self@[self.elem_idx(p as int)]) as i8,
    {
        get_i8(self, p)
    }

    /// Typed getter: see the free function of the same name.
    pub fn get_u8(&self, p: usize) -> (r: u8)
        requires
            self.wf(),
            self.is_elem_ptr(p as int),
        ensures
            r == numeric_of(self@[self.elem_idx(p as int)]) as u8,
    {
        get_u8(self, p)
    }

    /// Typed getter: see the free function of the same name.
    pub fn get_i16(&self, p: usize) -> (r: i16)
        requires
            self.wf(),
            self.is_elem_ptr(p as int),
        ensures
            r == numeric_signed_of(self@[self.elem_idx(p as int)]) as i16,
    {
        get_i16(self, p)
    }

    /// Typed getter: see the free function of the same name.
    pub fn get_u16(&self, p: usize) -> (r: u16)
        requires
            self.wf(),
            self.is_elem_ptr(p as int),
        ensures
            r == numeric_of(self@[self.elem_idx(p as int)]) as u16,
    {
        get_u16(self, p)
    }

    /// Typed getter: see the free function of the same name.
    pub fn get_i32(&self, p: usize) -> (r: i32)
        requires
            self.wf(),
            self.is_elem_ptr(p as int),
        ensures
            r == numeric_signed_of(self@[self.elem_idx(p as int)]) as i32,
    {
        get_i32(self, p)
    }

    /// Typed getter: see the free function of the same name.
    pub fn get_u32(&self, p: usize) -> (r: u32)
        requires
            self.wf(),
            self.is_elem_ptr(p as int),
        ensures
            r == numeric_of(self@[self.elem_idx(p as int)]) as u32,
    {
        get_u32(self, p)
    }

    /// Typed getter: see the free function of the same name.
    pub fn get_i64(&self, p: usize) -> (r: i64)
        requires
            self.wf(),
            self.is_elem_ptr(p as int),
        ensures
            r == numeric_signed_of(self@[self.elem_idx(p as int)]) as i64,
    {
        get_i64(self, p)
    }

    /// Typed getter: see the free function of the same name.
    pub fn get_u64(&self, p: usize) -> (r: u64)
        requires
            self.wf(),
            self.is_elem_ptr(p as int),
        ensures
            r == numeric_of(self@[self.elem_idx(p as int)]) as u64,
    {
        get_u64(self, p)
    }

    /// Typed getter: see the free function of the same name.
    pub fn get_i128(&self, p: usize) -> (r: i128)
        requires
            self.wf(),
            self.is_elem_ptr(p as int),
        ensures
            r == numeric_signed_of(self@[self.elem_idx(p as int)]) as i128,
    {
        get_i128(self, p)
    }

    /// Typed getter: see the free function of the same name.
    pub fn get_u128(&self, p: usize) -> (r: u128)
        requires
            self.wf(),
            self.is_elem_ptr(p as int),
        ensures
            r == numeric_of(self@[self.elem_idx(p as int)]),
    {
        get_u128(self, p)
    }

    /// Typed getter: see the free function of the same name.
    pub fn get_isize(&self, p: usize) -> (r: isize)
        requires
            self.wf(),
            self.is_elem_ptr(p as int),
        ensures
            r == numeric_signed_of(self@[self.elem_idx(p as int)]) as isize,
    {
        get_isize(self, p)
    }

    /// Typed getter: see the free function of the same name.
    pub fn get_usize(&self, p: usize) -> (r: usize)
        requires
            self.wf(),
            self.is_elem_ptr(p as int),
        ensures
            r == numeric_of(self@[self.elem_idx(p as int)]) as usize,
    {
        get_usize(self, p)
    }

    /// Typed getter: see the free function of the same name.
    pub fn get_int(&self, p: usize) -> (r: i64)
        requires
            self.wf(),
            self.is_elem_ptr(p as int),
        ensures
            r == numeric_signed_of(self@[self.elem_idx(p as int)]) as i64,
    {
        get_int(self, p)
    }

    /// Typed getter: see the free function of the same name.
    pub fn get_signed_int(&self, p: usize) -> (r: i64)
        requires
            self.wf(),
            self.is_elem_ptr(p as int),
        ensures
            ({
                let n = numeric_signed_of(self@[self.elem_idx(p as int)]) as i64;
                r == ((n >> 1u64) ^ (-((n & 1) as int) as i64))
            }),
    {
        get_signed_int(self, p)
    }

    /// Raw bytes of the element at `p`.
    pub fn get_bytes(&self, p: usize) -> (r: Vec<u8>)
        requires
            self.wf(),
            self.is_elem_ptr(p as int),
        ensures
            ({
                match self@[self.elem_idx(p as int)] {
                    ValModel::Int(v) => r@ == i64_le_bytes(v),
                    ValModel::Bytes(s) => r@ == s,
                }
            }),
    {
        get_bytes(self, p)
    }

    /// Raw bytes of the element at `p`; text decoding is the caller's
    /// concern.
    pub fn get_str(&self, p: usize) -> (r: Vec<u8>)
        requires
            self.wf(),
            self.is_elem_ptr(p as int),
        ensures
            ({
                match self@[self.elem_idx(p as int)] {
                    ValModel::Int(v) => r@ == i64_le_bytes(v),
                    ValModel::Bytes(s) => r@ == s,
                }
            }),
    {
        get_str(self, p)
    }

    /// Append a value by reference; `true` exactly when it fits.
    pub fn append_val(&mut self, v: &Value) -> (r: bool)
        requires
            old(self).wf(),
            val_ok(v@),
        ensures
            final(self).wf(),
            r ==> final(self)@ == old(self)@.push(v@),
            !r ==> *final(self) == *old(self),
            r <==> old(self).total_bytes() + elem_size(v@) <= 0xFFFF_FFFF,
    {
        self.append(v)
    }

    /// Append a value by reference; `true` exactly when it fits.
    pub fn append_val2(&mut self, v: &Value) -> (r: bool)
        requires
            old(self).wf(),
            val_ok(v@),
        ensures
            final(self).wf(),
            r ==> final(self)@ == old(self)@.push(v@),
            !r ==> *final(self) == *old(self),
            r <==> old(self).total_bytes() + elem_size(v@) <= 0xFFFF_FFFF,
    {
        self.append(v)
    }

    /// Append an integer in zigzag form; see the free function.
    pub fn append_signed_int<I: Int>(&mut self, v: I) -> (r: bool)
        requires
            old(self).wf(),
        ensures
            final(self).wf(),
            r ==> final(self)@ == old(self)@.push(zigzag_model(v.int_model())),
            !r ==> *final(self) == *old(self),
            r <==> old(self).total_bytes() + elem_size(zigzag_model(v.int_model()))
                <= 0xFFFF_FFFF,
    {
        append_signed_int(self, v)
    }

    /// Append a byte string; see the free function.
    pub fn append_string<S: Str>(&mut self, v: &S) -> (r: bool)
        requires
            old(self).wf(),
            v.str_model().len() <= MAX_STR_LEN,
        ensures
            final(self).wf(),
            r ==> final(self)@ == old(self)@.push(ValModel::Bytes(v.str_model())),
            !r ==> *final(self) == *old(self),
            r <==> old(self).total_bytes() + elem_size(ValModel::Bytes(v.str_model()))
                <= 0xFFFF_FFFF,
    {
        append_string(self, v)
    }

    /// Insert a zigzag-encoded integer relative to the target element; see
    /// the free function.
    pub fn insert_signed_int<I: Int>(&mut self, v: I, place: Placement, target: usize) -> (r:
        Option<usize>)
        requires
            old(self).wf(),
        ensures
            final(self).wf(),
            r is Some <==> (old(self).null_target(target as int) || old(self).is_elem_ptr(
                target as int,
            )) && old(self).total_bytes() + elem_size(zigzag_model(v.int_model()))
                <= 0xFFFF_FFFF,
            r is None ==> *final(self) == *old(self),
            r matches Some(q) ==> ({
                let pos = old(self).insert_pos(place, target as int);
                &&& final(self)@ == old(self)@.insert(pos, zigzag_model(v.int_model()))
                &&& q == final(self).elem_off(pos)
                &&& final(self).is_elem_ptr(q as int)
                &&& final(self).elem_idx(q as int) == pos
            }),
    {
        insert_signed_int(self, v, place, target)
    }

    /// Insert a byte string relative to the target element; see the free
    /// function.
    pub fn insert_string<S: Str>(&mut self, v: &S, place: Placement, target: usize) -> (r: Option<
        usize,
    >)
        requires
            old(self).wf(),
            v.str_model().len() <= MAX_STR_LEN,
        ensures
            final(self).wf(),
            r is Some <==> (old(self).null_target(target as int) || old(self).is_elem_ptr(
                target as int,
            )) && old(self).total_bytes() + elem_size(ValModel::Bytes(v.str_model()))
                <= 0xFFFF_FFFF,
            r is None ==> *final(self) == *old(self),
            r matches Some(q) ==> ({
                let pos = old(self).insert_pos(place, target as int);
                &&& final(self)@ == old(self)@.insert(pos, ValModel::Bytes(v.str_model()))
                &&& q == final(self).elem_off(pos)
                &&& final(self).is_elem_ptr(q as int)
                &&& final(self).elem_idx(q as int) == pos
            }),
    {
        insert_string(self, v, place, target)
    }

    /// Replace the target element with a zigzag-encoded integer; see the
    /// free function.
    pub fn replace_signed_int<I: Int>(&mut self, p: usize, v: I) -> (r: Option<usize>)
        requires
            old(self).wf(),
        ensures
            final(self).wf(),
            r is Some <==> old(self).is_elem_ptr(p as int) && old(self).total_bytes() - elem_size(
                old(self)@[old(self).elem_idx(p as int)],
            ) + elem_size(zigzag_model(v.int_model())) <= 0xFFFF_FFFF,
            r is None ==> *final(self) == *old(self),
            r matches Some(q) ==> q == p && final(self)@ == old(self)@.update(
                old(self).elem_idx(p as int),
                zigzag_model(v.int_model()),
            ),
    {
        replace_signed_int(self, p, v)
    }

    /// Replace the target element with a byte string; see the free
    /// function.
    pub fn replace_string<S: Str>(&mut self, p: usize, v: &S) -> (r: Option<usize>)
        requires
            old(self).wf(),
            v.str_model().len() <= MAX_STR_LEN,
        ensures
            final(self).wf(),
            r is Some <==> old(self).is_elem_ptr(p as int) && old(self).total_bytes() - elem_size(
                old(self)@[old(self).elem_idx(p as int)],
            ) + elem_size(ValModel::Bytes(v.str_model())) <= 0xFFFF_FFFF,
            r is None ==> *final(self) == *old(self),
            r matches Some(q) ==> q == p && final(self)@ == old(self)@.update(
                old(self).elem_idx(p as int),
                ValModel::Bytes(v.str_model()),
            ),
    {
        replace_string(self, p, v)
    }
}

/// Little-endian byte image of a 64-bit integer, as the raw getters hand
/// an integer element out when bytes are asked for.
pub open spec fn i64_le_bytes(v: i64) -> Seq<u8> {
    seq![
        (v & 0xff) as u8,
        ((v >> 8u64) & 0xff) as u8,
        ((v >> 16u64) & 0xff) as u8,
        ((v >> 24u64) & 0xff) as u8,
        ((v >> 32u64) & 0xff) as u8,
        ((v >> 40u64) & 0xff) as u8,
        ((v >> 48u64) & 0xff) as u8,
        ((v >> 56u64) & 0xff) as u8,
    ]
}

/// Element at `p` as a signed byte: a machine-width string payload is
/// read as a signed little-endian integer and sign-extended before the
/// final cast; an integer element is truncated.
pub fn get_i8(lp: &Listpack, p: usize) -> (r: i8)
    requires
        lp.wf(),
        lp.is_elem_ptr(p as int),
    ensures
        r == numeric_signed_of(lp@[lp.elem_idx(p as int)]) as i8,
{
    #[verifier::truncate] (numeric_signed_at(lp, p) as i8)
}

/// Element at `p` as an unsigned byte.
pub fn get_u8(lp: &Listpack, p: usize) -> (r: u8)
    requires
        lp.wf(),
        lp.is_elem_ptr(p as int),
    ensures
        r == numeric_of(lp@[lp.elem_idx(p as int)]) as u8,
{
    #[verifier::truncate] (numeric_at(lp, p) as u8)
}

/// Element at `p` as a signed 16-bit integer; machine-width string
/// payloads are read signed and sign-extended.
pub fn get_i16(lp: &Listpack, p: usize) -> (r: i16)
    requires
        lp.wf(),
        lp.is_elem_ptr(p as int),
    ensures
        r == numeric_signed_of(lp@[lp.elem_idx(p as int)]) as i16,
{
    #[verifier::truncate] (numeric_signed_at(lp, p) as i16)
}

/// Element at `p` as an unsigned 16-bit integer.
pub fn get_u16(lp: &Listpack, p: usize) -> (r: u16)
    requires
        lp.wf(),
        lp.is_elem_ptr(p as int),
    ensures
        r == numeric_of(lp@[lp.elem_idx(p as int)]) as u16,
{
    #[verifier::truncate] (numeric_at(lp, p) as u16)
}

/// Element at `p` as a signed 32-bit integer; machine-width string
/// payloads are read signed and sign-extended.
pub fn get_i32(lp: &Listpack, p: usize) -> (r: i32)
    requires
        lp.wf(),
        lp.is_elem_ptr(p as int),
    ensures
        r == numeric_signed_of(lp@[lp.elem_idx(p as int)]) as i32,
{
    #[verifier::truncate] (numeric_signed_at(lp, p) as i32)
}

/// Element at `p` as an unsigned 32-bit integer.
pub fn get_u32(lp: &Listpack, p: usize) -> (r: u32)
    requires
        lp.wf(),
        lp.is_elem_ptr(p as int),
    ensures
        r == numeric_of(lp@[lp.elem_idx(p as int)]) as u32,
{
    #[verifier::truncate] (numeric_at(lp, p) as u32)
}

/// Element at `p` as a signed 64-bit integer; machine-width string
/// payloads are read signed and sign-extended.
pub fn get_i64(lp: &Listpack, p: usize) -> (r: i64)
    requires
        lp.wf(),
        lp.is_elem_ptr(p as int),
    ensures
        r == numeric_signed_of(lp@[lp.elem_idx(p as int)]) as i64,
{
    #[verifier::truncate] (numeric_signed_at(lp, p) as i64)
}

/// Element at `p` as an unsigned 64-bit integer.
pub fn get_u64(lp: &Listpack, p: usize) -> (r: u64)
    requires
        lp.wf(),
        lp.is_elem_ptr(p as int),
    ensures
        r == numeric_of(lp@[lp.elem_idx(p as int)]) as u64,
{
    #[verifier::truncate] (numeric_at(lp, p) as u64)
}

/// Element at `p` as a signed 128-bit integer; machine-width string
/// payloads are read signed and sign-extended.
pub fn get_i128(lp: &Listpack, p: usize) -> (r: i128)
    requires
        lp.wf(),
        lp.is_elem_ptr(p as int),
    ensures
        r == numeric_signed_of(lp@[lp.elem_idx(p as int)]) as i128,
{
    #[verifier::truncate] (numeric_signed_at(lp, p) as i128)
}

/// Element at `p` as an unsigned 128-bit integer.
pub fn get_u128(lp: &Listpack, p: usize) -> (r: u128)
    requires
        lp.wf(),
        lp.is_elem_ptr(p as int),
    ensures
        r == numeric_of(lp@[lp.elem_idx(p as int)]),
{
    numeric_at(lp, p)
}

/// Element at `p` as a signed machine word; machine-width string
/// payloads are read signed and sign-extended.
pub fn get_isize(lp: &Listpack, p: usize) -> (r: isize)
    requires
        lp.wf(),
        lp.is_elem_ptr(p as int),
    ensures
        r == numeric_signed_of(lp@[lp.elem_idx(p as int)]) as isize,
{
    #[verifier::truncate] (numeric_signed_at(lp, p) as isize)
}

/// Element at `p` as an unsigned machine word.
pub fn get_usize(lp: &Listpack, p: usize) -> (r: usize)
    requires
        lp.wf(),
        lp.is_elem_ptr(p as int),
    ensures
        r == numeric_of(lp@[lp.elem_idx(p as int)]) as usize,
{
    #[verifier::truncate] (numeric_at(lp, p) as usize)
}

/// Element at `p` as a 64-bit integer, the storage layer's common
/// reading; machine-width string payloads are read signed.
pub fn get_int(lp: &Listpack, p: usize) -> (r: i64)
    requires
        lp.wf(),
        lp.is_elem_ptr(p as int),
    ensures
        r == numeric_signed_of(lp@[lp.elem_idx(p as int)]) as i64,
{
    get_i64(lp, p)
}

/// Element at `p` as a zigzag-read signed integer, undoing what
/// `append_signed_int` stored.
pub fn get_signed_int(lp: &Listpack, p: usize) -> (r: i64)
    requires
        lp.wf(),
        lp.is_elem_ptr(p as int),
    ensures
        ({
            let n = numeric_signed_of(lp@[lp.elem_idx(p as int)]) as i64;
            r == ((n >> 1u64) ^ (-((n & 1) as int) as i64))
        }),
{
    crate::codec::zigzag(get_i64(lp, p))
}

/// Raw bytes of the element at `p`: a string's own bytes, or an integer's
/// little-endian image.
pub fn get_bytes(lp: &Listpack, p: usize) -> (r: Vec<u8>)
    requires
        lp.wf(),
        lp.is_elem_ptr(p as int),
    ensures
        ({
            match lp@[lp.elem_idx(p as int)] {
                ValModel::Int(v) => r@ == i64_le_bytes(v),
                ValModel::Bytes(s) => r@ == s,
            }
        }),
{
    match get(lp, p) {
        Value::Int(v) => {
            let mut out: Vec<u8> = Vec::new();
            out.push(#[verifier::truncate] ((v & 0xff) as u8));
            out.push(#[verifier::truncate] (((v >> 8u64) & 0xff) as u8));
            out.push(#[verifier::truncate] (((v >> 16u64) & 0xff) as u8));
            out.push(#[verifier::truncate] (((v >> 24u64) & 0xff) as u8));
            out.push(#[verifier::truncate] (((v >> 32u64) & 0xff) as u8));
            out.push(#[verifier::truncate] (((v >> 40u64) & 0xff) as u8));
            out.push(#[verifier::truncate] (((v >> 48u64) & 0xff) as u8));
            out.push(#[verifier::truncate] (((v >> 56u64) & 0xff) as u8));
            proof {
                assert(out@ =~= i64_le_bytes(v));
            }
            out
        },
        Value::String(b) => b,
    }
}

/// Like `get_bytes`; the bytes are handed out raw, their text encoding is
/// the caller's concern.
pub fn get_str(lp: &Listpack, p: usize) -> (r: Vec<u8>)
    requires
        lp.wf(),
        lp.is_elem_ptr(p as int),
    ensures
        ({
            match lp@[lp.elem_idx(p as int)] {
                ValModel::Int(v) => r@ == i64_le_bytes(v),
                ValModel::Bytes(s) => r@ == s,
            }
        }),
{
    get_bytes(lp, p)
}

/// An integer-like type the listpack can store via `to_int64`.
pub trait Int: Sized {
    /// The 64-bit reading of this value.
    spec fn int_model(&self) -> i64;

    /// Convert to the stored 64-bit form.
    fn to_int64(self) -> (r: i64)
        ensures
            r == self.int_model(),
    ;
}

impl Int for bool {
    open spec fn int_model(&self) -> i64 {
        if *self {
            1
        } else {
            0
        }
    }

    fn to_int64(self) -> i64 {
        if self {
            1
        } else {
            0
        }
    }
}

impl Int for i16 {
    open spec fn int_model(&self) -> i64 {
        *self as i64
    }

    fn to_int64(self) -> i64 {
        self as i64
    }
}

impl Int for u16 {
    open spec fn int_model(&self) -> i64 {
        *self as i64
    }

    fn to_int64(self) -> i64 {
        self as i64
    }
}

impl Int for i32 {
    open spec fn int_model(&self) -> i64 {
        *self as i64
    }

    fn to_int64(self) -> i64 {
        self as i64
    }
}

impl Int for u32 {
    open spec fn int_model(&self) -> i64 {
        *self as i64
    }

    fn to_int64(self) -> i64 {
        self as i64
    }
}

impl Int for i64 {
    open spec fn int_model(&self) -> i64 {
        *self
    }

    fn to_int64(self) -> i64 {
        self
    }
}

impl Int for u64 {
    open spec fn int_model(&self) -> i64 {
        *self as i64
    }

    fn to_int64(self) -> i64 {
        #[verifier::truncate] (self as i64)
    }
}

impl Int for i128 {
    open spec fn int_model(&self) -> i64 {
        *self as i64
    }

    fn to_int64(self) -> i64 {
        #[verifier::truncate] (self as i64)
    }
}

impl Int for u128 {
    open spec fn int_model(&self) -> i64 {
        *self as i64
    }

    fn to_int64(self) -> i64 {
        #[verifier::truncate] (self as i64)
    }
}

impl Int for isize {
    open spec fn int_model(&self) -> i64 {
        *self as i64
    }

    fn to_int64(self) -> i64 {
        self as i64
    }
}

impl Int for usize {
    open spec fn int_model(&self) -> i64 {
        *self as i64
    }

    fn to_int64(self) -> i64 {
        #[verifier::truncate] (self as i64)
    }
}

/// A byte-string-like type the listpack can store via `as_value`.
pub trait Str: Sized {
    /// The byte string this value denotes.
    spec fn str_model(&self) -> Seq<u8>;

    /// Wrap as a string element value.
    fn as_value(&self) -> (r: Value)
        ensures
            r@ == ValModel::Bytes(self.str_model()),
            self.str_model().len() <= MAX_STR_LEN ==> val_ok(r@),
    ;
}

impl Str for Vec<u8> {
    open spec fn str_model(&self) -> Seq<u8> {
        self@
    }

    fn as_value(&self) -> Value {
        let mut copy: Vec<u8> = Vec::new();
        copy.extend_from_slice(self.as_slice());
        proof {
            assert(copy@ =~= self@);
        }
        Value::String(copy)
    }
}

impl Str for u64 {
    open spec fn str_model(&self) -> Seq<u8> {
        i64_le_bytes(*self as i64)
    }

    fn as_value(&self) -> Value {
        let v: i64 = #[verifier::truncate] (*self as i64);
        let mut out: Vec<u8> = Vec::new();
        out.push(#[verifier::truncate] ((v & 0xff) as u8));
        out.push(#[verifier::truncate] (((v >> 8u64) & 0xff) as u8));
        out.push(#[verifier::truncate] (((v >> 16u64) & 0xff) as u8));
        out.push(#[verifier::truncate] (((v >> 24u64) & 0xff) as u8));
        out.push(#[verifier::truncate] (((v >> 32u64) & 0xff) as u8));
        out.push(#[verifier::truncate] (((v >> 40u64) & 0xff) as u8));
        out.push(#[verifier::truncate] (((v >> 48u64) & 0xff) as u8));
        out.push(#[verifier::truncate] (((v >> 56u64) & 0xff) as u8));
        proof {
            assert(out@ =~= i64_le_bytes(*self as i64));
        }
        Value::String(out)
    }
}

/// The stored model of a zigzag-encoded signed integer: the encode map
/// `(n << 1) ^ (n >> 63)` turns small negatives into small codes, and
/// `get_signed_int`'s decode map reads them back.
pub open spec fn zigzag_model(n: i64) -> ValModel {
    ValModel::Int((n << 1u64) ^ (n >> 63u64))
}

/// Append a value at the tail, free-function form.
pub fn append(lp: &mut Listpack, v: &Value) -> (r: bool)
    requires
        old(lp).wf(),
        val_ok(v@),
    ensures
        final(lp).wf(),
        r ==> final(lp)@ == old(lp)@.push(v@),
        !r ==> *final(lp) == *old(lp),
        r <==> old(lp).total_bytes() + elem_size(v@) <= 0xFFFF_FFFF,
{
    lp.append(v)
}

/// Append an integer.
pub fn append_int<I: Int>(lp: &mut Listpack, v: I) -> (r: bool)
    requires
        old(lp).wf(),
    ensures
        final(lp).wf(),
        r ==> final(lp)@ == old(lp)@.push(ValModel::Int(v.int_model())),
        !r ==> *final(lp) == *old(lp),
        r <==> old(lp).total_bytes() + elem_size(ValModel::Int(v.int_model())) <= 0xFFFF_FFFF,
{
    lp.append(&Value::Int(v.to_int64()))
}

/// Append an integer in zigzag form, so that small negatives stay small.
pub fn append_signed_int<I: Int>(lp: &mut Listpack, v: I) -> (r: bool)
    requires
        old(lp).wf(),
    ensures
        final(lp).wf(),
        r ==> final(lp)@ == old(lp)@.push(zigzag_model(v.int_model())),
        !r ==> *final(lp) == *old(lp),
        r <==> old(lp).total_bytes() + elem_size(zigzag_model(v.int_model())) <= 0xFFFF_FFFF,
{
    lp.append(&Value::Int(crate::codec::zigzag_encode(v.to_int64())))
}

/// Append a byte string.
pub fn append_string<S: Str>(lp: &mut Listpack, v: &S) -> (r: bool)
    requires
        old(lp).wf(),
        v.str_model().len() <= MAX_STR_LEN,
    ensures
        final(lp).wf(),
        r ==> final(lp)@ == old(lp)@.push(ValModel::Bytes(v.str_model())),
        !r ==> *final(lp) == *old(lp),
        r <==> old(lp).total_bytes() + elem_size(ValModel::Bytes(v.str_model()))
            <= 0xFFFF_FFFF,
{
    lp.append(&v.as_value())
}

/// Insert an integer relative to the target element.
pub fn insert_int<I: Int>(lp: &mut Listpack, v: I, place: Placement, target: usize) -> (r: Option<
    usize,
>)
    requires
        old(lp).wf(),
    ensures
        final(lp).wf(),
        r is Some <==> (old(lp).null_target(target as int) || old(lp).is_elem_ptr(target as int))
            && old(lp).total_bytes() + elem_size(ValModel::Int(v.int_model())) <= 0xFFFF_FFFF,
        r is None ==> *final(lp) == *old(lp),
        r matches Some(q) ==> ({
            let pos = old(lp).insert_pos(place, target as int);
            &&& final(lp)@ == old(lp)@.insert(pos, ValModel::Int(v.int_model()))
            &&& q == final(lp).elem_off(pos)
            &&& final(lp).is_elem_ptr(q as int)
            &&& final(lp).elem_idx(q as int) == pos
        }),
{
    lp.insert(&Value::Int(v.to_int64()), place, target)
}

/// Insert a zigzag-encoded integer relative to the target element.
pub fn insert_signed_int<I: Int>(lp: &mut Listpack, v: I, place: Placement, target: usize) -> (r:
    Option<usize>)
    requires
        old(lp).wf(),
    ensures
        final(lp).wf(),
        r is Some <==> (old(lp).null_target(target as int) || old(lp).is_elem_ptr(target as int))
            && old(lp).total_bytes() + elem_size(zigzag_model(v.int_model())) <= 0xFFFF_FFFF,
        r is None ==> *final(lp) == *old(lp),
        r matches Some(q) ==> ({
            let pos = old(lp).insert_pos(place, target as int);
            &&& final(lp)@ == old(lp)@.insert(pos, zigzag_model(v.int_model()))
            &&& q == final(lp).elem_off(pos)
            &&& final(lp).is_elem_ptr(q as int)
            &&& final(lp).elem_idx(q as int) == pos
        }),
{
    lp.insert(&Value::Int(crate::codec::zigzag_encode(v.to_int64())), place, target)
}

/// Insert a byte string relative to the target element.
pub fn insert_string<S: Str>(lp: &mut Listpack, v: &S, place: Placement, target: usize) -> (r:
    Option<usize>)
    requires
        old(lp).wf(),
        v.str_model().len() <= MAX_STR_LEN,
    ensures
        final(lp).wf(),
        r is Some <==> (old(lp).null_target(target as int) || old(lp).is_elem_ptr(target as int))
            && old(lp).total_bytes() + elem_size(ValModel::Bytes(v.str_model())) <= 0xFFFF_FFFF,
        r is None ==> *final(lp) == *old(lp),
        r matches Some(q) ==> ({
            let pos = old(lp).insert_pos(place, target as int);
            &&& final(lp)@ == old(lp)@.insert(pos, ValModel::Bytes(v.str_model()))
            &&& q == final(lp).elem_off(pos)
            &&& final(lp).is_elem_ptr(q as int)
            &&& final(lp).elem_idx(q as int) == pos
        }),
{
    lp.insert(&v.as_value(), place, target)
}

/// Replace the target element with an integer.
pub fn replace_int<I: Int>(lp: &mut Listpack, p: usize, v: I) -> (r: Option<usize>)
    requires
        old(lp).wf(),
    ensures
        final(lp).wf(),
        r is Some <==> old(lp).is_elem_ptr(p as int) && old(lp).total_bytes() - elem_size(
            old(lp)@[old(lp).elem_idx(p as int)],
        ) + elem_size(ValModel::Int(v.int_model())) <= 0xFFFF_FFFF,
        r is None ==> *final(lp) == *old(lp),
        r matches Some(q) ==> q == p && final(lp)@ == old(lp)@.update(
            old(lp).elem_idx(p as int),
            ValModel::Int(v.int_model()),
        ),
{
    lp.replace(p, &Value::Int(v.to_int64()))
}

/// Replace the target element with a zigzag-encoded integer.
pub fn replace_signed_int<I: Int>(lp: &mut Listpack, p: usize, v: I) -> (r: Option<usize>)
    requires
        old(lp).wf(),
    ensures
        final(lp).wf(),
        r is Some <==> old(lp).is_elem_ptr(p as int) && old(lp).total_bytes() - elem_size(
            old(lp)@[old(lp).elem_idx(p as int)],
        ) + elem_size(zigzag_model(v.int_model())) <= 0xFFFF_FFFF,
        r is None ==> *final(lp) == *old(lp),
        r matches Some(q) ==> q == p && final(lp)@ == old(lp)@.update(
            old(lp).elem_idx(p as int),
            zigzag_model(v.int_model()),
        ),
{
    lp.replace(p, &Value::Int(crate::codec::zigzag_encode(v.to_int64())))
}

/// Replace the target element with a byte string.
pub fn replace_string<S: Str>(lp: &mut Listpack, p: usize, v: &S) -> (r: Option<usize>)
    requires
        old(lp).wf(),
        v.str_model().len() <= MAX_STR_LEN,
    ensures
        final(lp).wf(),
        r is Some <==> old(lp).is_elem_ptr(p as int) && old(lp).total_bytes() - elem_size(
            old(lp)@[old(lp).elem_idx(p as int)],
        ) + elem_size(ValModel::Bytes(v.str_model())) <= 0xFFFF_FFFF,
        r is None ==> *final(lp) == *old(lp),
        r matches Some(q) ==> q == p && final(lp)@ == old(lp)@.update(
            old(lp).elem_idx(p as int),
            ValModel::Bytes(v.str_model()),
        ),
{
    lp.replace(p, &v.as_value())
}

/// The result of a low-level write: whether it succeeded, the offset of
/// the written element, and the bytes it occupies.
pub struct WriteResult(pub bool, pub usize, pub u32);

/// Append a value and report where its element landed, for callers that
/// keep their own tally of the bytes written.
pub fn append_write(lp: &mut Listpack, v: &Value) -> (r: WriteResult)
    requires
        old(lp).wf(),
        val_ok(v@),
    ensures
        final(lp).wf(),
        r.0 ==> final(lp)@ == old(lp)@.push(v@) && r.1 == old(lp).total_bytes() - 1 && r.2
            == elem_size(v@),
        !r.0 ==> *final(lp) == *old(lp),
        r.0 <==> old(lp).total_bytes() + elem_size(v@) <= 0xFFFF_FFFF,
{
    let at = lp.bytes() as usize - 1;
    let sz = v.size_for_write();
    let ok = lp.append(v);
    if ok {
        WriteResult(true, at, sz)
    } else {
        WriteResult(false, 0, 0)
    }
}

/// Whether `pat` occurs in `buf` starting at `at`.
fn bytes_match(buf: &Vec<u8>, at: usize, pat: &Vec<u8>) -> (r: bool)
    ensures
        r == (at + pat@.len() <= buf@.len() && buf@.subrange(at as int, at + pat@.len()) == pat@),
{
    let n = pat.len();
    let total = buf.len();
    if at > total || n > total - at {
        return false;
    }
    let mut k: usize = 0;
    while k < n
        invariant
            at + n <= total,
            total == buf@.len(),
            n == pat@.len(),
            k <= n,
            forall|j: int| 0 <= j < k ==> buf@[at + j] == pat@[j],
        decreases n - k,
    {
        if buf[at + k] != pat[k] {
            proof {
                assert(buf@.subrange(at as int, at + pat@.len())[k as int] == buf@[at + k]);
            }
            return false;
        }
        k = k + 1;
    }
    proof {
        assert(buf@.subrange(at as int, at + pat@.len()) =~= pat@);
    }
    true
}

/// Read the value of the element encoding that starts at `off`. Returns
/// `None` when no stored element can start there; when a stored element
/// does start there, returns exactly its value.
fn read_candidate(buf: &Vec<u8>, off: usize) -> (r: Option<Value>)
    requires
        off < buf@.len(),
    ensures
        forall|m: ValModel|
            elem_at(buf@, off as int, m) ==> (r matches Some(v) && v@ == m),
{
    let total = buf.len();
    let avail = total - off;
    let b = buf[off];
    if b & 0x80 == 0 {
        let v = Value::Int((b & 0x7f) as i64);
        proof {
            assert forall|m: ValModel| elem_at(buf@, off as int, m) implies v@ == m by {
                lemma_elem_at_dec(buf@, off as int, m);
            }
        }
        Some(v)
    } else if b & 0xC0 == 0x80 {
        let slen = (b & 0x3f) as usize;
        if slen + 1 > avail {
            proof {
                assert forall|m: ValModel| elem_at(buf@, off as int, m) implies false by {
                    lemma_elem_at_dec(buf@, off as int, m);
                }
            }
            return None;
        }
        let mut out: Vec<u8> = Vec::new();
        let mut k: usize = 0;
        while k < slen
            invariant
                off + 1 + slen <= total,
                total == buf@.len(),
                k <= slen,
                out@ =~= buf@.subrange(off + 1, off + 1 + k),
            decreases slen - k,
        {
            out.push(buf[off + 1 + k]);
            proof {
                assert(out@ =~= buf@.subrange(off + 1, off + 1 + k + 1));
            }
            k = k + 1;
        }
        let v = Value::String(out);
        proof {
            assert forall|m: ValModel| elem_at(buf@, off as int, m) implies v@ == m by {
                lemma_elem_at_dec(buf@, off as int, m);
            }
        }
        Some(v)
    } else if b & 0xE0 == 0xC0 {
        if avail < 2 {
            proof {
                assert forall|m: ValModel| elem_at(buf@, off as int, m) implies false by {
                    lemma_elem_at_dec(buf@, off as int, m);
                }
            }
            return None;
        }
        let b1 = buf[off + 1];
        let uval: u64 = ((b as u64 & 0x1f) << 8u64) | b1 as u64;
        proof {
            assert(((b as u64 & 0x1f) << 8u64) | b1 as u64 <= 0x1fff) by (bit_vector);
        }
        let v = Value::Int(Listpack::sign_fix(uval, 0x1000, 8191));
        proof {
            assert forall|m: ValModel| elem_at(buf@, off as int, m) implies v@ == m by {
                lemma_elem_at_dec(buf@, off as int, m);
            }
        }
        Some(v)
    } else if b == 0xF1 {
        if avail < 3 {
            proof {
                assert forall|m: ValModel| elem_at(buf@, off as int, m) implies false by {
                    lemma_elem_at_dec(buf@, off as int, m);
                }
            }
            return None;
        }
        let b1 = buf[off + 1];
        let b2 = buf[off + 2];
        let uval: u64 = b1 as u64 | (b2 as u64) << 8u64;
        proof {
            assert(b1 as u64 | (b2 as u64) << 8u64 <= 0xffff) by (bit_vector);
        }
        let v = Value::Int(Listpack::sign_fix(uval, 0x8000, 0xFFFF));
        proof {
            assert forall|m: ValModel| elem_at(buf@, off as int, m) implies v@ == m by {
                lemma_elem_at_dec(buf@, off as int, m);
            }
        }
        Some(v)
    } else if b == 0xF2 {
        if avail < 4 {
            proof {
                assert forall|m: ValModel| elem_at(buf@, off as int, m) implies false by {
                    lemma_elem_at_dec(buf@, off as int, m);
                }
            }
            return None;
        }
        let b1 = buf[off + 1];
        let b2 = buf[off + 2];
        let b3 = buf[off + 3];
        let uval: u64 = b1 as u64 | (b2 as u64) << 8u64 | (b3 as u64) << 16u64;
        proof {
            assert(b1 as u64 | (b2 as u64) << 8u64 | (b3 as u64) << 16u64 <= 0xffffff)
                by (bit_vector);
        }
        let v = Value::Int(Listpack::sign_fix(uval, 0x800000, 0xFFFFFF));
        proof {
            assert forall|m: ValModel| elem_at(buf@, off as int, m) implies v@ == m by {
                lemma_elem_at_dec(buf@, off as int, m);
            }
        }
        Some(v)
    } else if b == 0xF3 {
        if avail < 5 {
            proof {
                assert forall|m: ValModel| elem_at(buf@, off as int, m) implies false by {
                    lemma_elem_at_dec(buf@, off as int, m);
                }
            }
            return None;
        }
        let b1 = buf[off + 1];
        let b2 = buf[off + 2];
        let b3 = buf[off + 3];
        let b4 = buf[off + 4];
        let uval: u64 = b1 as u64 | (b2 as u64) << 8u64 | (b3 as u64) << 16u64 | (b4 as u64)
            << 24u64;
        proof {
            assert(b1 as u64 | (b2 as u64) << 8u64 | (b3 as u64) << 16u64 | (b4 as u64) << 24u64
                <= 0xffffffff) by (bit_vector);
        }
        let v = Value::Int(Listpack::sign_fix(uval, 0x80000000, 0xFFFFFFFF));
        proof {
            assert forall|m: ValModel| elem_at(buf@, off as int, m) implies v@ == m by {
                lemma_elem_at_dec(buf@, off as int, m);
            }
        }
        Some(v)
    } else if b == 0xF4 {
        if avail < 9 {
            proof {
                assert forall|m: ValModel| elem_at(buf@, off as int, m) implies false by {
                    lemma_elem_at_dec(buf@, off as int, m);
                }
            }
            return None;
        }
        let uval: u64 = buf[off + 1] as u64 | (buf[off + 2] as u64) << 8u64 | (buf[off
            + 3] as u64) << 16u64 | (buf[off + 4] as u64) << 24u64 | (buf[off + 5] as u64)
            << 32u64 | (buf[off + 6] as u64) << 40u64 | (buf[off + 7] as u64) << 48u64 | (buf[off
            + 8] as u64) << 56u64;
        let v = Value::Int(Listpack::sign_fix(uval, 0x8000000000000000, 0xFFFFFFFFFFFFFFFF));
        proof {
            assert forall|m: ValModel| elem_at(buf@, off as int, m) implies v@ == m by {
                lemma_elem_at_dec(buf@, off as int, m);
            }
        }
        Some(v)
    } else if b & 0xF0 == 0xE0 {
        if avail < 2 {
            proof {
                assert forall|m: ValModel| elem_at(buf@, off as int, m) implies false by {
                    lemma_elem_at_dec(buf@, off as int, m);
                }
            }
            return None;
        }
        let b1 = buf[off + 1];
        let slen = ((((b & 0xF) as u32) << 8u32) | b1 as u32) as usize;
        proof {
            assert((((b & 0xF) as u32) << 8u32) | b1 as u32 <= 0xFFF + 0xFF) by (bit_vector);
        }
        if slen + 2 > avail {
            proof {
                assert forall|m: ValModel| elem_at(buf@, off as int, m) implies false by {
                    lemma_elem_at_dec(buf@, off as int, m);
                }
            }
            return None;
        }
        let mut out: Vec<u8> = Vec::new();
        let mut k: usize = 0;
        while k < slen
            invariant
                off + 2 + slen <= total,
                total == buf@.len(),
                k <= slen,
                out@ =~= buf@.subrange(off + 2, off + 2 + k),
            decreases slen - k,
        {
            out.push(buf[off + 2 + k]);
            proof {
                assert(out@ =~= buf@.subrange(off + 2, off + 2 + k + 1));
            }
            k = k + 1;
        }
        let v = Value::String(out);
        proof {
            assert forall|m: ValModel| elem_at(buf@, off as int, m) implies v@ == m by {
                lemma_elem_at_dec(buf@, off as int, m);
            }
        }
        Some(v)
    } else if b == 0xF0 {
        if avail < 5 {
            proof {
                assert forall|m: ValModel| elem_at(buf@, off as int, m) implies false by {
                    lemma_elem_at_dec(buf@, off as int, m);
                }
            }
            return None;
        }
        let slen32: u32 = buf[off + 1] as u32 | (buf[off + 2] as u32) << 8u32 | (buf[off
            + 3] as u32) << 16u32 | (buf[off + 4] as u32) << 24u32;
        if slen32 > crate::codec::MAX_STR_LEN {
            proof {
                assert forall|m: ValModel| elem_at(buf@, off as int, m) implies false by {
                    lemma_elem_at_dec(buf@, off as int, m);
                }
            }
            return None;
        }
        let slen = slen32 as usize;
        if slen > avail - 5 {
            proof {
                assert forall|m: ValModel| elem_at(buf@, off as int, m) implies false by {
                    lemma_elem_at_dec(buf@, off as int, m);
                }
            }
            return None;
        }
        let mut out: Vec<u8> = Vec::new();
        let mut k: usize = 0;
        while k < slen
            invariant
                off + 5 + slen <= total,
                total == buf@.len(),
                k <= slen,
                out@ =~= buf@.subrange(off + 5, off + 5 + k),
            decreases slen - k,
        {
            out.push(buf[off + 5 + k]);
            proof {
                assert(out@ =~= buf@.subrange(off + 5, off + 5 + k + 1));
            }
            k = k + 1;
        }
        let v = Value::String(out);
        proof {
            assert forall|m: ValModel| elem_at(buf@, off as int, m) implies v@ == m by {
                lemma_elem_at_dec(buf@, off as int, m);
            }
        }
        Some(v)
    } else {
        proof {
            assert forall|m: ValModel| elem_at(buf@, off as int, m) implies false by {
                lemma_elem_at_dec(buf@, off as int, m);
                match m {
                    ValModel::Int(v2) => {
                        assert(buf@.subrange(off as int, off + elem_size(m))[0] == buf@[off as int]);
                        assert(buf@[off as int] == (v2 as u8));
                        assert(!(0 <= v2 <= 127 && ((v2 as u8) & 0x80) != 0)) by (bit_vector);
                    },
                    ValModel::Bytes(bs) => {
                        assert(buf@.subrange(off as int, off + elem_size(m))[0] == buf@[off as int]);
                        assert(buf@[off as int] == ((0 as u8) | 0x80));
                        assert(((0u8 | 0x80) & 0xC0) == 0x80) by (bit_vector);
                    },
                }
            }
        }
        None
    }
}

/// Certify that a stored element starts at `off`: guess its value from
/// the bytes, re-encode it, and demand the buffer holds exactly that
/// canonical image followed by its backlen. Returns the value and the
/// element's full size.
fn validate_elem(buf: &Vec<u8>, off: usize) -> (r: Option<(Value, usize)>)
    requires
        off < buf@.len(),
    ensures
        r matches Some(p) ==> ({
            &&& val_ok(p.0@)
            &&& p.1 == elem_size(p.0@)
            &&& off + p.1 <= buf@.len()
            &&& buf@.subrange(off as int, off + p.1) == elem_bytes(p.0@)
        }),
        forall|m: ValModel|
            elem_at(buf@, off as int, m) ==> (r matches Some(p) && p.0@ == m),
{
    let cand = match read_candidate(buf, off) {
        Some(v) => v,
        None => {
            return None;
        },
    };
    let ok = match &cand {
        Value::Int(_) => true,
        Value::String(bs) => bs.len() <= crate::codec::MAX_STR_LEN as usize,
    };
    if !ok {
        return None;
    }
    let total = buf.len();
    let enc = cand.encode();
    if !bytes_match(buf, off, &enc) {
        proof {
            assert forall|m: ValModel| elem_at(buf@, off as int, m) implies false by {
                lemma_elem_at_dec(buf@, off as int, m);
                crate::codec::lemma_enc_size_is_len(m);
                assert forall|k: int| 0 <= k < enc@.len() implies buf@.subrange(
                    off as int,
                    off + enc@.len(),
                )[k] == enc@[k] by {
                    assert(buf@.subrange(off as int, off + elem_size(m))[k] == buf@[off + k]);
                    assert(elem_bytes(m)[k] == enc_val(m)[k]);
                }
                assert(buf@.subrange(off as int, off + enc@.len()) =~= enc@);
            }
        }
        return None;
    }
    proof {
        assert(off + enc@.len() <= total);
    }
    proof {
        crate::codec::lemma_enc_size_is_len(cand@);
    }
    let bl = crate::codec::encode_backlen(enc.len() as u64);
    if !bytes_match(buf, off + enc.len(), &bl) {
        proof {
            assert forall|m: ValModel| elem_at(buf@, off as int, m) implies false by {
                lemma_elem_at_dec(buf@, off as int, m);
                crate::codec::lemma_enc_size_is_len(m);
                assert forall|k: int| 0 <= k < bl@.len() implies buf@.subrange(
                    off + enc@.len(),
                    off + enc@.len() + bl@.len(),
                )[k] == bl@[k] by {
                    assert(buf@.subrange(off as int, off + elem_size(m))[enc@.len() + k]
                        == buf@[off + enc@.len() + k]);
                    assert(elem_bytes(m)[enc@.len() + k] == backlen_bytes(
                        enc_size(m) as u64,
                    )[k]);
                }
                assert(buf@.subrange(off + enc@.len(), off + enc@.len() + bl@.len()) =~= bl@);
            }
        }
        return None;
    }
    let step = enc.len() + bl.len();
    proof {
        assert(buf@.subrange(off as int, off + step) =~= elem_bytes(cand@));
        assert(elem_at(buf@, off as int, cand@));
        assert forall|m: ValModel| elem_at(buf@, off as int, m) implies cand@ == m by {
            lemma_elem_at_dec(buf@, off as int, m);
            lemma_elem_at_dec(buf@, off as int, cand@);
        }
    }
    Some((cand, step))
}

/// Adopt a raw byte buffer as a listpack, after checking that it is a
/// well-formed image: header fields that describe the buffer, a run of
/// canonically encoded elements each followed by its exact backlen, and
/// the terminator. `None` leaves nothing adopted.
pub fn from_raw(buf: Vec<u8>) -> (r: Option<Listpack>)
    ensures
        r matches Some(lp) ==> lp.wf() && lp.bytes_model() == buf@,
        (exists|vs: Seq<ValModel>| wf_image(buf@, vs)) ==> r is Some,
{
    let ghost havewf = exists|vs: Seq<ValModel>| wf_image(buf@, vs);
    let ghost vs0: Seq<ValModel> = choose|vs: Seq<ValModel>| wf_image(buf@, vs);
    let total = buf.len();
    if total < HDR_USIZE + 1 || total as u64 > 0xFFFF_FFFF {
        return None;
    }
    if get_total_bytes(&buf) as u64 != total as u64 {
        return None;
    }
    if buf[total - 1] != EOF {
        return None;
    }
    let ghost image = Listpack { buf: buf, elems: Ghost(vs0) };
    proof {
        if havewf {
            assert(image.wf());
        }
    }
    let mut off: usize = HDR_USIZE;
    let mut count: u64 = 0;
    let ghost mut vs: Seq<ValModel> = Seq::empty();
    proof {
        assert(buf@.subrange(HDR_USIZE as int, HDR_USIZE as int) =~= elems_bytes(vs));
        assert(elems_size(vs) == 0);
        if havewf {
            assert(vs0.take(0) =~= vs);
        }
    }
    while off < total - 1
        invariant
            HDR_USIZE + 1 <= total == buf@.len() <= 0xFFFF_FFFF,
            HDR_USIZE <= off <= total - 1,
            count == vs.len(),
            2 * count <= off - HDR_USIZE,
            val_seq_ok(vs),
            elems_size(vs) == off - HDR_USIZE,
            buf@.subrange(HDR_USIZE as int, off as int) == elems_bytes(vs),
            havewf == exists|vs2: Seq<ValModel>| wf_image(buf@, vs2),
            havewf ==> wf_image(buf@, vs0) && image == (Listpack {
                buf: buf,
                elems: Ghost(vs0),
            }) && image.wf(),
            havewf ==> count <= vs0.len() && vs == vs0.take(count as int) && off
                == image.elem_off(count as int),
        decreases total - off,
    {
        proof {
            if havewf {
                lemma_elems_bytes_len(vs0);
                if count == vs0.len() {
                    image.lemma_terminator();
                    assert(vs0.take(count as int) =~= vs0);
                    assert(false);
                }
                image.lemma_offsets(count as int);
                image.lemma_elem_bytes_at(count as int);
                crate::codec::lemma_enc_size_is_len(vs0[count as int]);
                let m0 = vs0[count as int];
                let goff = off as int;
                assert forall|k: int| 0 <= k < elem_size(m0) implies buf@.subrange(
                    goff,
                    goff + elem_size(m0),
                )[k] == elem_bytes(m0)[k] by {
                    if k < enc_size(m0) {
                        assert(buf@.subrange(goff, goff + enc_size(m0))[k] == buf@[goff + k]);
                        assert(buf@.subrange(goff, goff + enc_size(m0))[k] == enc_val(m0)[k]);
                    } else {
                        assert(buf@.subrange(goff + enc_size(m0), goff + elem_size(m0))[k
                            - enc_size(m0)] == buf@[goff + k]);
                        assert(buf@.subrange(goff + enc_size(m0), goff + elem_size(m0))[k
                            - enc_size(m0)] == backlen_bytes(enc_size(m0) as u64)[k - enc_size(
                            m0,
                        )]);
                    }
                }
                assert(buf@.subrange(goff, goff + elem_size(m0)) =~= elem_bytes(m0));
                assert(elem_at(buf@, off as int, vs0[count as int]));
            }
        }
        let (v, step) = match validate_elem(&buf, off) {
            Some(p) => p,
            None => {
                return None;
            },
        };
        if step > total - 1 - off {
            proof {
                if havewf {
                    image.lemma_offsets(count as int);
                }
            }
            return None;
        }
        proof {
            lemma_elems_bytes_push(vs, v@);
            crate::codec::lemma_enc_size_is_len(v@);
            assert(buf@.subrange(HDR_USIZE as int, off + step) =~= elems_bytes(vs.push(v@)));
            vs = vs.push(v@);
            if havewf {
                assert(v@ == vs0[count as int]);
                assert(vs =~= vs0.take(count as int + 1));
                image.lemma_offsets(count as int);
            }
        }
        off = off + step;
        count = count + 1;
    }
    let cnt = get_num_elements(&buf);
    proof {
        if havewf {
            lemma_elems_bytes_len(vs0);
            lemma_elems_bytes_len(vs);
            assert(elems_size(vs0.take(count as int)) == elems_size(vs0)) by {
                lemma_elems_bytes_split(vs0, count as int);
                lemma_elems_bytes_len(vs0.skip(count as int));
                if vs0.skip(count as int).len() > 0 {
                    lemma_prefix_size_monotonic(vs0, count as int, vs0.len() as int);
                    assert(vs0.take(vs0.len() as int) =~= vs0);
                }
            }
            lemma_prefix_size_monotonic(vs0, count as int, vs0.len() as int);
            assert(vs0.take(vs0.len() as int) =~= vs0);
            assert(count == vs0.len());
            assert(vs =~= vs0);
        }
    }
    if cnt != HDR_NUMELE_UNKNOWN && cnt as u64 != count {
        return None;
    }
    let lp = Listpack { buf, elems: Ghost(vs) };
    proof {
        assert(lp.buf@.subrange(HDR_USIZE as int, lp.buf@.len() - 1) == elems_bytes(vs));
        assert(lp.wf());
    }
    Some(lp)
}

impl Listpack {
    /// Adopt a raw byte buffer as a listpack after validating it; see the
    /// free function of the same name.
    pub fn from_raw(buf: Vec<u8>) -> (r: Option<Listpack>)
        ensures
            r matches Some(lp) ==> lp.wf() && lp.bytes_model() == buf@,
            (exists|vs: Seq<ValModel>| wf_image(buf@, vs)) ==> r is Some,
    {
        from_raw(buf)
    }

    /// A copy of the raw byte image, the exact form `from_raw` adopts.
    pub fn to_raw(&self) -> (r: Vec<u8>)
        ensures
            r@ == self.bytes_model(),
    {
        let mut out: Vec<u8> = Vec::new();
        out.extend_from_slice(self.buf.as_slice());
        proof {
            assert(out@ =~= self.buf@);
        }
        out
    }
}

/// Iterating front to back yields exactly the reverse of iterating back to
/// front: the two traversals see the same elements.
pub proof fn lemma_traversal_symmetry(a: Seq<ValModel>, fwd: Seq<ValModel>, rev: Seq<ValModel>)
    requires
        fwd.len() == a.len(),
        rev.len() == a.len(),
        forall|k: int| 0 <= k < a.len() ==> #[trigger] fwd[k] == a[k],
        forall|k: int| 0 <= k < a.len() ==> #[trigger] rev[k] == a[a.len() - 1 - k],
    ensures
        fwd == rev.reverse(),
{
    assert(fwd =~= rev.reverse());
}

} // verus!
