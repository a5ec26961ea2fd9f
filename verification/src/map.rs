//! The ordered index: an associative container keyed by byte strings in
//! lexicographic order, holding reference-counted value handles. Stream
//! identifiers and raw 64-bit words enter it through their big-endian key
//! form, whose byte-wise order matches the numeric one.

use vstd::prelude::*;

use std::rc::Rc;

use crate::id::StreamID;
use crate::id::bswap64;
use crate::id::swap_bytes_u64;
use crate::stream::StreamError;

verus! {

/// Strict lexicographic order on byte strings: a proper prefix comes
/// first, otherwise the first differing byte decides.
pub open spec fn lex_lt(a: Seq<u8>, b: Seq<u8>) -> bool
    decreases a.len(),
{
    if b.len() == 0 {
        false
    } else if a.len() == 0 {
        true
    } else if a[0] < b[0] {
        true
    } else if a[0] > b[0] {
        false
    } else {
        lex_lt(a.skip(1), b.skip(1))
    }
}

/// Exactly one of `a < b`, `a == b`, `b < a` holds: the order is total.
pub proof fn lemma_lex_trichotomy(a: Seq<u8>, b: Seq<u8>)
    ensures
        lex_lt(a, b) || lex_lt(b, a) || a == b,
        lex_lt(a, b) ==> !lex_lt(b, a) && a != b,
        lex_lt(b, a) ==> !lex_lt(a, b) && a != b,
    decreases a.len(),
{
    if a.len() == 0 || b.len() == 0 {
        if a.len() == 0 && b.len() == 0 {
            assert(a =~= b);
        }
    } else if a[0] == b[0] {
        lemma_lex_trichotomy(a.skip(1), b.skip(1));
        if a.skip(1) == b.skip(1) {
            assert forall|j: int| 0 <= j < a.len() implies a[j] == b[j] by {
                if j >= 1 {
                    assert(a.skip(1)[j - 1] == b.skip(1)[j - 1]);
                }
            }
            assert(a =~= b);
        }
        if a == b {
            assert(a.skip(1) =~= b.skip(1));
        }
    }
}

/// The order is transitive.
pub proof fn lemma_lex_transitive(a: Seq<u8>, b: Seq<u8>, c: Seq<u8>)
    requires
        lex_lt(a, b),
        lex_lt(b, c),
    ensures
        lex_lt(a, c),
    decreases a.len(),
{
    if a.len() != 0 && b.len() != 0 && c.len() != 0 {
        if a[0] == b[0] && b[0] == c[0] {
            lemma_lex_transitive(a.skip(1), b.skip(1), c.skip(1));
        }
    }
}

/// If two strings agree on their first `i` bytes, what happens at position
/// `i` decides their order.
pub proof fn lemma_lex_at(a: Seq<u8>, b: Seq<u8>, i: int)
    requires
        0 <= i <= a.len(),
        i <= b.len(),
        forall|j: int| 0 <= j < i ==> a[j] == b[j],
    ensures
        (i < a.len() && i < b.len() && a[i] < b[i]) ==> lex_lt(a, b),
        (i < a.len() && i < b.len() && a[i] > b[i]) ==> lex_lt(b, a),
        (i == a.len() && i < b.len()) ==> lex_lt(a, b),
        (i == a.len() && i == b.len()) ==> a == b,
    decreases i,
{
    if i == 0 {
        if a.len() == 0 && b.len() == 0 {
            assert(a =~= b);
        }
    } else {
        lemma_lex_at(a.skip(1), b.skip(1), i - 1);
        assert(forall|j: int| 0 <= j < i - 1 ==> a.skip(1)[j] == b.skip(1)[j]);
        if i < a.len() && i < b.len() {
            assert(a.skip(1)[i - 1] == a[i] && b.skip(1)[i - 1] == b[i]);
        }
        if i == a.len() && i == b.len() && a.skip(1) == b.skip(1) {
            assert forall|j: int| 0 <= j < a.len() implies a[j] == b[j] by {
                if j >= 1 {
                    assert(a.skip(1)[j - 1] == b.skip(1)[j - 1]);
                }
            }
            assert(a =~= b);
        }
    }
}

/// Three-way lexicographic comparison of two byte strings.
pub fn lex_cmp(a: &Vec<u8>, b: &Vec<u8>) -> (r: core::cmp::Ordering)
    ensures
        r == core::cmp::Ordering::Less <==> lex_lt(a@, b@),
        r == core::cmp::Ordering::Greater <==> lex_lt(b@, a@),
        r == core::cmp::Ordering::Equal <==> a@ == b@,
{
    let na = a.len();
    let nb = b.len();
    let mut i: usize = 0;
    loop
        invariant
            i <= na <= a@.len(),
            i <= nb <= b@.len(),
            na == a@.len(),
            nb == b@.len(),
            forall|j: int| 0 <= j < i ==> a@[j] == b@[j],
        decreases na - i,
    {
        proof {
            lemma_lex_at(a@, b@, i as int);
            lemma_lex_trichotomy(a@, b@);
        }
        if i == na || i == nb {
            if na == nb {
                return core::cmp::Ordering::Equal;
            } else if na < nb {
                return core::cmp::Ordering::Less;
            } else {
                proof {
                    lemma_lex_at(b@, a@, i as int);
                }
                return core::cmp::Ordering::Greater;
            }
        }
        let ba = a[i];
        let bb = b[i];
        if ba < bb {
            return core::cmp::Ordering::Less;
        } else if ba > bb {
            return core::cmp::Ordering::Greater;
        }
        i = i + 1;
    }
}

/// A key type the index can store: convertible to and from its canonical
/// byte-string form.
pub trait RaxKey: Sized {
    /// The canonical byte-string image of this key.
    spec fn key_model(&self) -> Seq<u8>;

    /// Byte strings that are images of some key.
    spec fn key_valid(k: Seq<u8>) -> bool;

    /// Encode into the canonical byte-string form.
    fn into_rax(&self) -> (r: Vec<u8>)
        ensures
            r@ == self.key_model(),
            Self::key_valid(r@),
    ;

    /// Decode from the canonical byte-string form.
    fn from_rax(key: &Vec<u8>) -> (r: Self)
        ensures
            Self::key_valid(key@) ==> r.key_model() == key@,
    ;
}

impl RaxKey for u64 {
    open spec fn key_model(&self) -> Seq<u8> {
        crate::listpack::i64_le_bytes(bswap64(*self) as i64)
    }

    open spec fn key_valid(k: Seq<u8>) -> bool {
        k.len() == 8
    }

    fn into_rax(&self) -> (r: Vec<u8>) {
        let v: i64 = #[verifier::truncate] (swap_bytes_u64(*self) as i64);
        let mut out: Vec<u8> = Vec::new();
        out.push(#[verifier::truncate] ((v & 0xff) as u8));
        out.push(#[verifier::truncate] (((v >> 8u64) & 0xff) as u8));
        out.push(#[verifier::truncate] (((v >> 16u64) & 0xff) as u8));
        out.push(#[verifier::truncate] (((v >> 24u64) & 0xff) as u8));
        out.push(#[verifier::truncate] (((v >> 32u64) & 0xff) as u8));
        out.push(#[verifier::truncate] (((v >> 40u64) & 0xff) as u8));
        out.push(#[verifier::truncate] (((v >> 48u64) & 0xff) as u8));
        out.push(#[verifier::truncate] (((v >> 56u64) & 0xff) as u8));
        proof {
            assert(out@ =~= crate::listpack::i64_le_bytes(bswap64(*self) as i64));
        }
        out
    }

    fn from_rax(key: &Vec<u8>) -> (r: u64) {
        if key.len() != 8 {
            return 0;
        }
        let b0 = key[0];
        let b1 = key[1];
        let b2 = key[2];
        let b3 = key[3];
        let b4 = key[4];
        let b5 = key[5];
        let b6 = key[6];
        let b7 = key[7];
        let w: u64 = b0 as u64 | (b1 as u64) << 8u64 | (b2 as u64) << 16u64 | (b3 as u64)
            << 24u64 | (b4 as u64) << 32u64 | (b5 as u64) << 40u64 | (b6 as u64) << 48u64 | (
        b7 as u64) << 56u64;
        let r = swap_bytes_u64(w);
        proof {
            crate::id::lemma_bswap64_involution(w);
            assert(((w as i64) & 0xff) as u8 == b0 && (((w as i64) >> 8u64) & 0xff) as u8 == b1
                && (((w as i64) >> 16u64) & 0xff) as u8 == b2 && (((w as i64) >> 24u64)
                & 0xff) as u8 == b3 && (((w as i64) >> 32u64) & 0xff) as u8 == b4 && (((w as i64)
                >> 40u64) & 0xff) as u8 == b5 && (((w as i64) >> 48u64) & 0xff) as u8 == b6 && (((
            w as i64) >> 56u64) & 0xff) as u8 == b7) by (bit_vector)
                requires
                    w == b0 as u64 | (b1 as u64) << 8u64 | (b2 as u64) << 16u64 | (b3 as u64)
                        << 24u64 | (b4 as u64) << 32u64 | (b5 as u64) << 40u64 | (b6 as u64)
                        << 48u64 | (b7 as u64) << 56u64,
            ;
            assert(crate::listpack::i64_le_bytes(bswap64(r) as i64) =~= key@);
        }
        r
    }
}

impl RaxKey for StreamID {
    open spec fn key_model(&self) -> Seq<u8> {
        crate::listpack::i64_le_bytes(bswap64(self.ms) as i64) + crate::listpack::i64_le_bytes(
            bswap64(self.seq) as i64,
        )
    }

    open spec fn key_valid(k: Seq<u8>) -> bool {
        k.len() == 16
    }

    fn into_rax(&self) -> (r: Vec<u8>) {
        let mut out = self.ms.into_rax();
        let lo = self.seq.into_rax();
        out.extend_from_slice(lo.as_slice());
        proof {
            assert(out@ =~= self.key_model());
        }
        out
    }

    fn from_rax(key: &Vec<u8>) -> (r: StreamID) {
        if key.len() != 16 {
            return StreamID { ms: 0, seq: 0 };
        }
        let mut hi: Vec<u8> = Vec::new();
        let mut k: usize = 0;
        while k < 8
            invariant
                key@.len() == 16,
                k <= 8,
                hi@ =~= key@.subrange(0, k as int),
            decreases 8 - k,
        {
            hi.push(key[k]);
            proof {
                assert(hi@ =~= key@.subrange(0, k + 1));
            }
            k = k + 1;
        }
        let mut lo: Vec<u8> = Vec::new();
        let mut j: usize = 8;
        while j < 16
            invariant
                key@.len() == 16,
                8 <= j <= 16,
                lo@ =~= key@.subrange(8, j as int),
            decreases 16 - j,
        {
            lo.push(key[j]);
            proof {
                assert(lo@ =~= key@.subrange(8, j + 1));
            }
            j = j + 1;
        }
        let ms = u64::from_rax(&hi);
        let seq = u64::from_rax(&lo);
        let r = StreamID { ms, seq };
        proof {
            assert(r.key_model() =~= key@);
        }
        r
    }
}

/// Lexicographic comparison distributes over concatenation when the
/// prefixes have equal length: the prefixes decide unless they are equal,
/// and then the suffixes do.
pub proof fn lemma_lex_concat(a: Seq<u8>, b: Seq<u8>, c: Seq<u8>, d: Seq<u8>)
    requires
        a.len() == b.len(),
        c.len() > 0,
        d.len() > 0,
    ensures
        lex_lt(a + c, b + d) == (lex_lt(a, b) || (a == b && lex_lt(c, d))),
    decreases a.len(),
{
    if a.len() == 0 {
        assert(a + c =~= c);
        assert(b + d =~= d);
        assert(a =~= b);
    } else {
        assert((a + c)[0] == a[0]);
        assert((b + d)[0] == b[0]);
        lemma_lex_concat(a.skip(1), b.skip(1), c, d);
        assert((a + c).skip(1) =~= a.skip(1) + c);
        assert((b + d).skip(1) =~= b.skip(1) + d);
        if a[0] == b[0] {
            if a.skip(1) == b.skip(1) {
                assert forall|j: int| 0 <= j < a.len() implies a[j] == b[j] by {
                    if j >= 1 {
                        assert(a.skip(1)[j - 1] == b.skip(1)[j - 1]);
                    }
                }
                assert(a =~= b);
            }
            if a == b {
                assert(a.skip(1) =~= b.skip(1));
            }
        }
    }
}

/// Byte `sh/8` of the big-endian key form of `x`.
pub open spec fn key_byte(x: u64, sh: u64) -> u8 {
    if sh == 0 {
        ((bswap64(x) as i64) & 0xff) as u8
    } else {
        (((bswap64(x) as i64) >> sh) & 0xff) as u8
    }
}

/// Comparison of the big-endian key forms from byte position `k` on:
/// the first differing byte decides.
pub open spec fn key_tail_lt(x: u64, y: u64, k: int) -> bool
    decreases 8 - k,
{
    if k < 0 || k >= 8 {
        false
    } else {
        key_byte(x, (8 * k) as u64) < key_byte(y, (8 * k) as u64) || (key_byte(x, (8 * k) as u64)
            == key_byte(y, (8 * k) as u64) && key_tail_lt(x, y, k + 1))
    }
}

/// The lexicographic order of the key suffixes is the byte-chain order.
proof fn lemma_key_tail_order(x: u64, y: u64, k: int)
    requires
        0 <= k <= 8,
    ensures
        lex_lt(x.key_model().skip(k), y.key_model().skip(k)) == key_tail_lt(x, y, k),
    decreases 8 - k,
{
    let a = x.key_model();
    let b = y.key_model();
    if k == 8 {
        assert(a.skip(8) =~= Seq::<u8>::empty());
        assert(b.skip(8) =~= Seq::<u8>::empty());
    } else {
        lemma_key_tail_order(x, y, k + 1);
        assert(a.skip(k)[0] == a[k]);
        assert(b.skip(k)[0] == b[k]);
        assert(a.skip(k).skip(1) =~= a.skip(k + 1));
        assert(b.skip(k).skip(1) =~= b.skip(k + 1));
        assert(a[k] == key_byte(x, (8 * k) as u64));
        assert(b[k] == key_byte(y, (8 * k) as u64));
    }
}

/// The canonical key form orders exactly as the numbers do: byte-wise
/// comparison of big-endian keys is numeric comparison.
pub proof fn lemma_u64_key_order(x: u64, y: u64)
    ensures
        lex_lt(x.key_model(), y.key_model()) == (x < y),
        x.key_model() == y.key_model() ==> x == y,
        x.key_model().len() == 8,
{
    let a = x.key_model();
    let b = y.key_model();
    lemma_key_tail_order(x, y, 0);
    assert(a.skip(0) =~= a);
    assert(b.skip(0) =~= b);
    assert(key_tail_lt(x, y, 0) == (x < y)) by (bit_vector);
    assert((key_byte(x, 0) == key_byte(y, 0) && key_byte(x, 8) == key_byte(y, 8) && key_byte(x, 16)
        == key_byte(y, 16) && key_byte(x, 24) == key_byte(y, 24) && key_byte(x, 32) == key_byte(
        y,
        32,
    ) && key_byte(x, 40) == key_byte(y, 40) && key_byte(x, 48) == key_byte(y, 48) && key_byte(
        x,
        56,
    ) == key_byte(y, 56)) ==> x == y) by (bit_vector);
    if a == b {
        assert(forall|k: int| 0 <= k < 8 ==> a[k] == b[k]);
        assert(a[0] == key_byte(x, 0) && a[1] == key_byte(x, 8) && a[2] == key_byte(x, 16) && a[3]
            == key_byte(x, 24) && a[4] == key_byte(x, 32) && a[5] == key_byte(x, 40) && a[6]
            == key_byte(x, 48) && a[7] == key_byte(x, 56));
        assert(b[0] == key_byte(y, 0) && b[1] == key_byte(y, 8) && b[2] == key_byte(y, 16) && b[3]
            == key_byte(y, 24) && b[4] == key_byte(y, 32) && b[5] == key_byte(y, 40) && b[6]
            == key_byte(y, 48) && b[7] == key_byte(y, 56));
    }
}

/// Stream identifier keys order exactly as the identifiers do.
pub proof fn lemma_id_key_order(x: StreamID, y: StreamID)
    ensures
        lex_lt(x.key_model(), y.key_model()) == x.lt_spec(y),
{
    let ax = x.ms.key_model();
    let ay = y.ms.key_model();
    let cx = x.seq.key_model();
    let cy = y.seq.key_model();
    lemma_u64_key_order(x.ms, y.ms);
    lemma_u64_key_order(x.seq, y.seq);
    lemma_lex_concat(ax, ay, cx, cy);
    assert(x.key_model() == ax + cx);
    assert(y.key_model() == ay + cy);
}

/// A handle to the same reference-counted value.
///
/// Relies on std's `Rc::clone`: the returned handle points at the very
/// value the argument points at; only the reference count changes.
#[verifier::external_body]
fn rc_clone<T>(rc: &Rc<T>) -> (r: Rc<T>)
    ensures
        r == *rc,
{
    Rc::clone(rc)
}

/// An ordered associative container keyed by canonical byte strings,
/// holding one reference-counted handle per key. Keys are kept strictly
/// sorted; lookups return fresh handles to the stored values, never the
/// stored slot itself.
pub struct RcRax<K: RaxKey, V> {
    keys: Vec<Vec<u8>>,
    vals: Vec<Rc<V>>,
    key_kind: core::marker::PhantomData<K>,
}

impl<K: RaxKey, V> RcRax<K, V> {
    /// Number of entries.
    pub closed spec fn key_count(&self) -> nat {
        self.keys@.len()
    }

    /// The `i`-th smallest key.
    pub closed spec fn key_at(&self, i: int) -> Seq<u8> {
        self.keys@[i]@
    }

    /// The handle stored under the `i`-th smallest key.
    pub closed spec fn val_at(&self, i: int) -> Rc<V> {
        self.vals@[i]
    }

    /// Some entry has this key.
    pub open spec fn contains_key(&self, k: Seq<u8>) -> bool {
        exists|i: int| 0 <= i < self.key_count() && self.key_at(i) == k
    }

    /// The position of the entry with key `k`.
    pub open spec fn key_index(&self, k: Seq<u8>) -> int {
        choose|i: int| 0 <= i < self.key_count() && self.key_at(i) == k
    }

    /// The handle stored under key `k`.
    pub open spec fn val_of(&self, k: Seq<u8>) -> Rc<V> {
        self.val_at(self.key_index(k))
    }

    /// Structural well-formedness: one value per key, keys strictly
    /// ascending and all in canonical form.
    pub closed spec fn wf(&self) -> bool {
        &&& self.keys@.len() == self.vals@.len()
        &&& forall|i: int, j: int|
            0 <= i < j < self.key_count() ==> lex_lt(self.key_at(i), self.key_at(j))
        &&& forall|i: int| 0 <= i < self.key_count() ==> K::key_valid(#[trigger] self.key_at(i))
    }

    /// No two entries share a key, so the position of a key is unique.
    pub proof fn lemma_key_index(&self, i: int)
        requires
            self.wf(),
            0 <= i < self.key_count(),
        ensures
            self.key_index(self.key_at(i)) == i,
            self.contains_key(self.key_at(i)),
    {
        let k = self.key_at(i);
        let j = self.key_index(k);
        assert(0 <= j < self.key_count() && self.key_at(j) == k);
        if i < j {
            lemma_lex_trichotomy(self.key_at(i), self.key_at(j));
        } else if j < i {
            lemma_lex_trichotomy(self.key_at(j), self.key_at(i));
        }
    }

    /// An empty index.
    pub fn new() -> (r: RcRax<K, V>)
        ensures
            r.wf(),
            r.key_count() == 0,
    {
        RcRax { keys: Vec::new(), vals: Vec::new(), key_kind: core::marker::PhantomData }
    }

    /// Number of entries.
    pub fn len(&self) -> (r: u64)
        requires
            self.wf(),
            self.key_count() <= u64::MAX,
        ensures
            r == self.key_count(),
    {
        self.keys.len() as u64
    }

    /// Number of entries.
    pub fn size(&self) -> (r: u64)
        requires
            self.wf(),
            self.key_count() <= u64::MAX,
        ensures
            r == self.key_count(),
    {
        self.len()
    }

    /// The position at which `kb` sits or would be inserted: the first
    /// position whose key is not below `kb`.
    fn find_pos(&self, kb: &Vec<u8>) -> (r: (usize, bool))
        requires
            self.wf(),
        ensures
            r.0 <= self.key_count(),
            forall|j: int| 0 <= j < r.0 ==> lex_lt(#[trigger] self.key_at(j), kb@),
            r.1 ==> r.0 < self.key_count() && self.key_at(r.0 as int) == kb@,
            !r.1 && r.0 < self.key_count() ==> lex_lt(kb@, self.key_at(r.0 as int)),
            r.1 == self.contains_key(kb@),
            r.1 ==> self.key_index(kb@) == r.0,
    {
        let n = self.keys.len();
        let mut i: usize = 0;
        while i < n
            invariant
                self.wf(),
                n == self.key_count(),
                i <= n,
                forall|j: int| 0 <= j < i ==> lex_lt(#[trigger] self.key_at(j), kb@),
            decreases n - i,
        {
            match lex_cmp(&self.keys[i], kb) {
                core::cmp::Ordering::Less => {
                    i = i + 1;
                },
                core::cmp::Ordering::Equal => {
                    proof {
                        self.lemma_key_index(i as int);
                    }
                    return (i, true);
                },
                core::cmp::Ordering::Greater => {
                    proof {
                        self.lemma_no_key(i as int, kb@);
                    }
                    return (i, false);
                },
            }
        }
        proof {
            self.lemma_no_key(n as int, kb@);
        }
        (n, false)
    }

    /// If every key before `pos` is below `kb` and the key at `pos` (when
    /// there is one) is above it, no entry has key `kb`.
    proof fn lemma_no_key(&self, pos: int, kb: Seq<u8>)
        requires
            self.wf(),
            0 <= pos <= self.key_count(),
            forall|j: int| 0 <= j < pos ==> lex_lt(#[trigger] self.key_at(j), kb),
            pos < self.key_count() ==> lex_lt(kb, self.key_at(pos)),
        ensures
            !self.contains_key(kb),
    {
        assert forall|i: int| 0 <= i < self.key_count() implies self.key_at(i) != kb by {
            if i < pos {
                lemma_lex_trichotomy(self.key_at(i), kb);
            } else {
                if i > pos {
                    lemma_lex_transitive(kb, self.key_at(pos), self.key_at(i));
                }
                lemma_lex_trichotomy(kb, self.key_at(i));
            }
        }
    }

    /// Insert or replace: the key now maps to `value`; the displaced
    /// handle, if any, is handed back to the caller. No other entry moves.
    pub fn insert(&mut self, key: &K, value: Rc<V>) -> (r: Result<Option<Rc<V>>, StreamError>)
        requires
            old(self).wf(),
        ensures
            final(self).wf(),
            final(self).contains_key(key.key_model()),
            final(self).val_of(key.key_model()) == value,
            old(self).contains_key(key.key_model()) ==> final(self).key_count() == old(
                self,
            ).key_count() && r == Ok::<_, StreamError>(
                Some(old(self).val_of(key.key_model())),
            ),
            !old(self).contains_key(key.key_model()) ==> final(self).key_count() == old(
                self,
            ).key_count() + 1 && r == Ok::<_, StreamError>(None::<Rc<V>>),
            forall|k: Seq<u8>|
                k != key.key_model() ==> #[trigger] final(self).contains_key(k)
                    == old(self).contains_key(k),
            forall|k: Seq<u8>|
                k != key.key_model() && old(self).contains_key(k)
                    ==> #[trigger] final(self).val_of(k) == old(self).val_of(k),
    {
        let kb = key.into_rax();
        let (pos, found) = self.find_pos(&kb);
        if found {
            let displaced = rc_clone(&self.vals[pos]);
            self.vals[pos] = value;
            proof {
                self.lemma_insert_frame(*old(self), key.key_model(), pos as int, value);
            }
            Ok(Some(displaced))
        } else {
            self.keys.insert(pos, kb);
            self.vals.insert(pos, value);
            proof {
                self.lemma_after_grow(*old(self), key.key_model(), pos as int);
            }
            Ok(None)
        }
    }

    /// Replacing a value in place changes no key and no other value.
    proof fn lemma_insert_frame(&self, prev: RcRax<K, V>, km: Seq<u8>, pos: int, nv: Rc<V>)
        requires
            prev.wf(),
            0 <= pos < prev.key_count(),
            prev.key_at(pos) == km,
            self.keys@ == prev.keys@,
            self.vals@ == prev.vals@.update(pos, nv),
        ensures
            self.wf(),
            self.contains_key(km),
            self.key_index(km) == pos,
            self.val_of(km) == nv,
            forall|k: Seq<u8>| k != km ==> #[trigger] self.contains_key(k)
                == prev.contains_key(k),
            forall|k: Seq<u8>|
                k != km && prev.contains_key(k) ==> #[trigger] self.val_of(k) == prev.val_of(k),
    {
        assert(forall|i: int|
            0 <= i < self.key_count() ==> #[trigger] self.key_at(i) == prev.key_at(i));
        assert(self.wf());
        self.lemma_key_index(pos);
        assert forall|k: Seq<u8>| k != km implies #[trigger] self.contains_key(k)
            == prev.contains_key(k) by {
            if prev.contains_key(k) {
                let i = prev.key_index(k);
                prev.lemma_key_index(i);
                assert(self.key_at(i) == k);
                self.lemma_key_index(i);
                prev.lemma_key_index(pos);
            }
            if self.contains_key(k) {
                let i = self.key_index(k);
                assert(prev.key_at(i) == k);
                prev.lemma_key_index(i);
            }
        }
        assert forall|k: Seq<u8>|
            k != km && prev.contains_key(k) implies #[trigger] self.val_of(k) == prev.val_of(
            k,
        ) by {
            if prev.contains_key(k) {
                let i = prev.key_index(k);
                prev.lemma_key_index(i);
                assert(self.key_at(i) == k);
                self.lemma_key_index(i);
                prev.lemma_key_index(pos);
            }
            if self.contains_key(k) {
                let i = self.key_index(k);
                assert(prev.key_at(i) == k);
                prev.lemma_key_index(i);
            }
        }
    }

    /// Inserting a fresh key at its sorted position keeps the order and
    /// moves no other entry's key-value association.
    #[verifier::spinoff_prover]
    proof fn lemma_after_grow(&self, prev: RcRax<K, V>, km: Seq<u8>, pos: int)
        requires
            prev.wf(),
            0 <= pos <= prev.key_count(),
            forall|j: int| 0 <= j < pos ==> lex_lt(#[trigger] prev.key_at(j), km),
            pos < prev.key_count() ==> lex_lt(km, prev.key_at(pos)),
            K::key_valid(km),
            self.keys@.len() == prev.keys@.len() + 1,
            self.vals@.len() == prev.vals@.len() + 1,
            self.keys@[pos].view() == km,
            forall|j: int| 0 <= j < pos ==> #[trigger] self.keys@[j] == prev.keys@[j],
            forall|j: int| 0 <= j < pos ==> #[trigger] self.vals@[j] == prev.vals@[j],
            forall|j: int|
                pos < j < self.keys@.len() ==> #[trigger] self.keys@[j] == prev.keys@[j - 1],
            forall|j: int|
                pos < j < self.vals@.len() ==> #[trigger] self.vals@[j] == prev.vals@[j - 1],
        ensures
            self.wf(),
            self.contains_key(km),
            self.key_index(km) == pos,
            self.val_of(km) == self.val_at(pos),
            forall|k: Seq<u8>| k != km ==> #[trigger] self.contains_key(k)
                == prev.contains_key(k),
            forall|k: Seq<u8>|
                k != km && prev.contains_key(k) ==> #[trigger] self.val_of(k) == prev.val_of(k),
    {
        assert(forall|j: int| 0 <= j < pos ==> #[trigger] self.key_at(j) == prev.key_at(j));
        assert(forall|j: int|
            pos < j < self.key_count() ==> #[trigger] self.key_at(j) == prev.key_at(j - 1));
        assert(self.key_at(pos) == km);
        assert forall|i: int, j: int|
            0 <= i < j < self.key_count() implies lex_lt(self.key_at(i), self.key_at(j)) by {
            if j < pos {
                // both inside the unchanged prefix
            } else if j == pos {
                assert(lex_lt(prev.key_at(i), km));
            } else {
                // j lands above the insertion point
                assert(self.key_at(j) == prev.key_at(j - 1));
                if i < pos {
                    assert(lex_lt(prev.key_at(i), km));
                    lemma_lex_transitive(prev.key_at(i), km, prev.key_at(pos));
                    if j - 1 > pos {
                        lemma_lex_transitive(prev.key_at(i), prev.key_at(pos), prev.key_at(j - 1));
                    }
                } else if i == pos {
                    if j - 1 == pos {
                        assert(lex_lt(km, prev.key_at(pos)));
                    } else {
                        lemma_lex_transitive(km, prev.key_at(pos), prev.key_at(j - 1));
                    }
                } else {
                    assert(lex_lt(prev.key_at(i - 1), prev.key_at(j - 1)));
                }
            }
        }
        assert(self.wf());
        self.lemma_key_index(pos);
        assert forall|k: Seq<u8>| k != km implies #[trigger] self.contains_key(k)
            == prev.contains_key(k) by {
            if prev.contains_key(k) {
                let i = prev.key_index(k);
                prev.lemma_key_index(i);
                if i < pos {
                    assert(self.key_at(i) == k);
                    self.lemma_key_index(i);
                } else {
                    assert(self.key_at(i + 1) == k);
                    self.lemma_key_index(i + 1);
                }
            }
            if self.contains_key(k) {
                let i = self.key_index(k);
                if i < pos {
                    assert(prev.key_at(i) == k);
                    prev.lemma_key_index(i);
                } else if i > pos {
                    assert(prev.key_at(i - 1) == k);
                    prev.lemma_key_index(i - 1);
                }
            }
        }
        assert forall|k: Seq<u8>|
            k != km && prev.contains_key(k) implies #[trigger] self.val_of(k) == prev.val_of(
            k,
        ) by {
            if prev.contains_key(k) {
                let i = prev.key_index(k);
                prev.lemma_key_index(i);
                if i < pos {
                    assert(self.key_at(i) == k);
                    self.lemma_key_index(i);
                } else {
                    assert(self.key_at(i + 1) == k);
                    self.lemma_key_index(i + 1);
                }
            }
            if self.contains_key(k) {
                let i = self.key_index(k);
                if i < pos {
                    assert(prev.key_at(i) == k);
                    prev.lemma_key_index(i);
                } else if i > pos {
                    assert(prev.key_at(i - 1) == k);
                    prev.lemma_key_index(i - 1);
                }
            }
        }
    }

    /// Insert only if the key is absent. When the key already exists, the
    /// stored value is left untouched and a fresh handle to it is handed
    /// back; the attempted value is simply dropped.
    pub fn try_insert(&mut self, key: &K, value: Rc<V>) -> (r: Result<
        Option<Rc<V>>,
        StreamError,
    >)
        requires
            old(self).wf(),
        ensures
            final(self).wf(),
            final(self).contains_key(key.key_model()),
            old(self).contains_key(key.key_model()) ==> *final(self) == *old(self) && r == Ok::<
                _,
                StreamError,
            >(Some(old(self).val_of(key.key_model()))),
            !old(self).contains_key(key.key_model()) ==> final(self).key_count() == old(
                self,
            ).key_count() + 1 && final(self).val_of(key.key_model()) == value && r == Ok::<
                _,
                StreamError,
            >(None::<Rc<V>>),
            forall|k: Seq<u8>|
                k != key.key_model() ==> #[trigger] final(self).contains_key(k)
                    == old(self).contains_key(k),
            forall|k: Seq<u8>|
                k != key.key_model() && old(self).contains_key(k)
                    ==> #[trigger] final(self).val_of(k) == old(self).val_of(k),
    {
        let kb = key.into_rax();
        let (pos, found) = self.find_pos(&kb);
        if found {
            Ok(Some(rc_clone(&self.vals[pos])))
        } else {
            self.keys.insert(pos, kb);
            self.vals.insert(pos, value);
            proof {
                self.lemma_after_grow(*old(self), key.key_model(), pos as int);
            }
            Ok(None)
        }
    }

    /// Remove the entry with this key, handing ownership of its value to
    /// the caller; reports whether anything was removed.
    pub fn remove(&mut self, key: &K) -> (r: (bool, Option<Rc<V>>))
        requires
            old(self).wf(),
        ensures
            final(self).wf(),
            !final(self).contains_key(key.key_model()),
            r.0 == old(self).contains_key(key.key_model()),
            old(self).contains_key(key.key_model()) ==> final(self).key_count() == old(
                self,
            ).key_count() - 1 && r.1 == Some(old(self).val_of(key.key_model())),
            !old(self).contains_key(key.key_model()) ==> *final(self) == *old(self) && r.1
                is None,
            forall|k: Seq<u8>|
                k != key.key_model() ==> #[trigger] final(self).contains_key(k)
                    == old(self).contains_key(k),
            forall|k: Seq<u8>|
                k != key.key_model() && old(self).contains_key(k)
                    ==> #[trigger] final(self).val_of(k) == old(self).val_of(k),
    {
        let kb = key.into_rax();
        let (pos, found) = self.find_pos(&kb);
        if found {
            self.keys.remove(pos);
            let v = self.vals.remove(pos);
            proof {
                self.lemma_after_shrink(*old(self), key.key_model(), pos as int);
            }
            (true, Some(v))
        } else {
            (false, None)
        }
    }

    /// Removing an entry keeps the order and moves no other entry's
    /// key-value association.
    proof fn lemma_after_shrink(&self, prev: RcRax<K, V>, km: Seq<u8>, pos: int)
        requires
            prev.wf(),
            0 <= pos < prev.key_count(),
            prev.key_at(pos) == km,
            self.keys@.len() == prev.keys@.len() - 1,
            self.vals@.len() == prev.vals@.len() - 1,
            forall|j: int| 0 <= j < pos ==> #[trigger] self.keys@[j] == prev.keys@[j],
            forall|j: int| 0 <= j < pos ==> #[trigger] self.vals@[j] == prev.vals@[j],
            forall|j: int|
                pos <= j < self.keys@.len() ==> #[trigger] self.keys@[j] == prev.keys@[j + 1],
            forall|j: int|
                pos <= j < self.vals@.len() ==> #[trigger] self.vals@[j] == prev.vals@[j + 1],
        ensures
            self.wf(),
            !self.contains_key(km),
            forall|k: Seq<u8>| k != km ==> #[trigger] self.contains_key(k)
                == prev.contains_key(k),
            forall|k: Seq<u8>|
                k != km && prev.contains_key(k) ==> #[trigger] self.val_of(k) == prev.val_of(k),
    {
        assert(forall|j: int| 0 <= j < pos ==> #[trigger] self.key_at(j) == prev.key_at(j));
        assert(forall|j: int|
            pos <= j < self.key_count() ==> #[trigger] self.key_at(j) == prev.key_at(j + 1));
        assert forall|i: int, j: int|
            0 <= i < j < self.key_count() implies lex_lt(self.key_at(i), self.key_at(j)) by {
            if i < pos && j >= pos {
                assert(lex_lt(prev.key_at(i), prev.key_at(j + 1)));
            }
        }
        assert(self.wf());
        assert forall|i: int| 0 <= i < self.key_count() implies self.key_at(i) != km by {
            if i < pos {
                lemma_lex_trichotomy(prev.key_at(i), km);
            } else {
                lemma_lex_trichotomy(km, prev.key_at(i + 1));
            }
        }
        assert forall|k: Seq<u8>| k != km implies #[trigger] self.contains_key(k)
            == prev.contains_key(k) by {
            if prev.contains_key(k) {
                let i = prev.key_index(k);
                prev.lemma_key_index(i);
                if i < pos {
                    assert(self.key_at(i) == k);
                    self.lemma_key_index(i);
                } else if i > pos {
                    assert(self.key_at(i - 1) == k);
                    self.lemma_key_index(i - 1);
                }
            }
            if self.contains_key(k) {
                let i = self.key_index(k);
                if i < pos {
                    assert(prev.key_at(i) == k);
                    prev.lemma_key_index(i);
                } else {
                    assert(prev.key_at(i + 1) == k);
                    prev.lemma_key_index(i + 1);
                }
            }
        }
        assert forall|k: Seq<u8>|
            k != km && prev.contains_key(k) implies #[trigger] self.val_of(k) == prev.val_of(
            k,
        ) by {
            if prev.contains_key(k) {
                let i = prev.key_index(k);
                prev.lemma_key_index(i);
                if i < pos {
                    assert(self.key_at(i) == k);
                    self.lemma_key_index(i);
                } else if i > pos {
                    assert(self.key_at(i - 1) == k);
                    self.lemma_key_index(i - 1);
                }
            }
            if self.contains_key(k) {
                let i = self.key_index(k);
                if i < pos {
                    assert(prev.key_at(i) == k);
                    prev.lemma_key_index(i);
                } else {
                    assert(prev.key_at(i + 1) == k);
                    prev.lemma_key_index(i + 1);
                }
            }
        }
    }

    /// A fresh handle to the value stored under this key, if any.
    pub fn find(&self, key: &K) -> (r: Option<Rc<V>>)
        requires
            self.wf(),
        ensures
            self.contains_key(key.key_model()) ==> r == Some(self.val_of(key.key_model())),
            !self.contains_key(key.key_model()) ==> r is None,
    {
        let kb = key.into_rax();
        let (pos, found) = self.find_pos(&kb);
        if found {
            Some(rc_clone(&self.vals[pos]))
        } else {
            None
        }
    }

    /// A fresh handle to the value stored under this key, if any.
    pub fn get(&self, key: &K) -> (r: Option<Rc<V>>)
        requires
            self.wf(),
        ensures
            self.contains_key(key.key_model()) ==> r == Some(self.val_of(key.key_model())),
            !self.contains_key(key.key_model()) ==> r is None,
    {
        self.find(key)
    }

    /// Whether the key has an entry, and a fresh handle to its value.
    pub fn find_exists(&self, key: &K) -> (r: (bool, Option<Rc<V>>))
        requires
            self.wf(),
        ensures
            r.0 == self.contains_key(key.key_model()),
            self.contains_key(key.key_model()) ==> r.1 == Some(self.val_of(key.key_model())),
            !self.contains_key(key.key_model()) ==> r.1 is None,
    {
        match self.find(key) {
            Some(v) => (true, Some(v)),
            None => (false, None),
        }
    }

    /// Whether the key has an entry.
    pub fn key_exists(&self, key: &K) -> (r: bool)
        requires
            self.wf(),
        ensures
            r == self.contains_key(key.key_model()),
    {
        let kb = key.into_rax();
        let (_, found) = self.find_pos(&kb);
        found
    }

    /// The smallest key, when the index is not empty.
    pub fn first_key(&self) -> (r: Option<K>)
        requires
            self.wf(),
        ensures
            self.key_count() == 0 ==> r is None,
            self.key_count() > 0 ==> (r matches Some(k) && k.key_model() == self.key_at(0)),
    {
        if self.keys.len() == 0 {
            None
        } else {
            Some(K::from_rax(&self.keys[0]))
        }
    }

    /// The greatest key, when the index is not empty.
    pub fn last_key(&self) -> (r: Option<K>)
        requires
            self.wf(),
        ensures
            self.key_count() == 0 ==> r is None,
            self.key_count() > 0 ==> (r matches Some(k) && k.key_model() == self.key_at(
                self.key_count() - 1,
            )),
    {
        let n = self.keys.len();
        if n == 0 {
            None
        } else {
            Some(K::from_rax(&self.keys[n - 1]))
        }
    }

    /// Position of the first entry whose key is at or above this key.
    pub fn seek_greater_equal(&self, key: &K) -> (r: Option<usize>)
        requires
            self.wf(),
        ensures
            r matches Some(i) ==> i < self.key_count() && !lex_lt(
                self.key_at(i as int),
                key.key_model(),
            ) && forall|j: int| 0 <= j < i ==> lex_lt(#[trigger] self.key_at(j), key.key_model()),
            r is None ==> forall|j: int|
                0 <= j < self.key_count() ==> lex_lt(#[trigger] self.key_at(j), key.key_model()),
    {
        let kb = key.into_rax();
        let (pos, found) = self.find_pos(&kb);
        proof {
            if found {
                lemma_lex_trichotomy(self.key_at(pos as int), key.key_model());
            } else if (pos as int) < self.key_count() {
                lemma_lex_trichotomy(self.key_at(pos as int), key.key_model());
            }
        }
        if pos < self.keys.len() {
            Some(pos)
        } else {
            None
        }
    }

    /// Position of the first entry whose key is strictly above this key.
    pub fn seek_greater(&self, key: &K) -> (r: Option<usize>)
        requires
            self.wf(),
        ensures
            r matches Some(i) ==> i < self.key_count() && lex_lt(
                key.key_model(),
                self.key_at(i as int),
            ),
            r is None ==> forall|j: int|
                0 <= j < self.key_count() ==> !lex_lt(key.key_model(), #[trigger] self.key_at(j)),
    {
        let kb = key.into_rax();
        let n = self.keys.len();
        let (pos, found) = self.find_pos(&kb);
        let at = if found {
            pos + 1
        } else {
            pos
        };
        proof {
            if at < self.key_count() {
                if found {
                    assert(lex_lt(self.key_at(pos as int), self.key_at(pos as int + 1)));
                }
            } else {
                assert forall|j: int|
                    0 <= j < self.key_count() implies !lex_lt(
                    key.key_model(),
                    #[trigger] self.key_at(j),
                ) by {
                    lemma_lex_trichotomy(key.key_model(), self.key_at(j));
                }
            }
        }
        if at < self.keys.len() {
            Some(at)
        } else {
            None
        }
    }

    /// Position of the last entry whose key is strictly below this key.
    pub fn seek_lesser(&self, key: &K) -> (r: Option<usize>)
        requires
            self.wf(),
        ensures
            r matches Some(i) ==> i < self.key_count() && lex_lt(
                self.key_at(i as int),
                key.key_model(),
            ),
            r is None ==> forall|j: int|
                0 <= j < self.key_count() ==> !lex_lt(#[trigger] self.key_at(j), key.key_model()),
    {
        let kb = key.into_rax();
        let (pos, found) = self.find_pos(&kb);
        if pos > 0 {
            Some(pos - 1)
        } else {
            proof {
                assert forall|j: int|
                    0 <= j < self.key_count() implies !lex_lt(
                    #[trigger] self.key_at(j),
                    key.key_model(),
                ) by {
                    lemma_lex_trichotomy(self.key_at(0), key.key_model());
                    if j > 0 && lex_lt(self.key_at(j), key.key_model()) {
                        lemma_lex_transitive(self.key_at(0), self.key_at(j), key.key_model());
                    }
                }
            }
            None
        }
    }

    /// Position of the last entry whose key is at or below this key.
    pub fn seek_lesser_equal(&self, key: &K) -> (r: Option<usize>)
        requires
            self.wf(),
        ensures
            r matches Some(i) ==> i < self.key_count() && !lex_lt(
                key.key_model(),
                self.key_at(i as int),
            ),
            r is None ==> forall|j: int|
                0 <= j < self.key_count() ==> lex_lt(key.key_model(), #[trigger] self.key_at(j)),
    {
        let kb = key.into_rax();
        let (pos, found) = self.find_pos(&kb);
        if found {
            proof {
                lemma_lex_trichotomy(key.key_model(), self.key_at(pos as int));
            }
            Some(pos)
        } else if pos > 0 {
            proof {
                lemma_lex_trichotomy(key.key_model(), self.key_at(pos as int - 1));
            }
            Some(pos - 1)
        } else {
            proof {
                assert forall|j: int|
                    0 <= j < self.key_count() implies lex_lt(
                    key.key_model(),
                    #[trigger] self.key_at(j),
                ) by {
                    if j > 0 {
                        lemma_lex_transitive(key.key_model(), self.key_at(0), self.key_at(j));
                    }
                }
            }
            None
        }
    }

    /// The key of the entry at a cursor position.
    pub fn key_at_pos(&self, i: usize) -> (r: K)
        requires
            self.wf(),
            i < self.key_count(),
        ensures
            r.key_model() == self.key_at(i as int),
    {
        K::from_rax(&self.keys[i])
    }

    /// A fresh handle to the value of the entry at a cursor position.
    pub fn value_at_pos(&self, i: usize) -> (r: Rc<V>)
        requires
            self.wf(),
            i < self.key_count(),
        ensures
            r == self.val_at(i as int),
    {
        rc_clone(&self.vals[i])
    }
}

/// An ordered index specialised to stream identifiers.
pub struct StreamIDRax<V> {
    pub rax: RcRax<StreamID, V>,
}

impl<V> StreamIDRax<V> {
    /// An empty identifier index.
    pub fn new() -> (r: StreamIDRax<V>)
        ensures
            r.rax.wf(),
            r.rax.key_count() == 0,
    {
        StreamIDRax { rax: RcRax::new() }
    }
}

} // verus!
