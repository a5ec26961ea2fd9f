//! The binary value codec: compact encodings for integers and byte strings,
//! and the reverse-readable "backlen" length field that makes backward
//! traversal of a listpack possible.

use vstd::prelude::*;

verus! {

/// Terminator byte closing every listpack buffer.
pub const EOF: u8 = 0xFF;
/// Header length in bytes: a 4-byte total size, then a 2-byte element count.
pub const HDR_USIZE: usize = 6;
/// Element-count field value meaning "count unknown, recompute by scanning".
pub const HDR_NUMELE_UNKNOWN: u16 = 0xFFFF;
/// Largest number of bytes a backlen field can occupy.
pub const MAX_BACKLEN_SIZE: usize = 5;
/// Largest length a backlen field can represent (five 7-bit groups).
pub const MAX_ENTRY_BACKLEN: u64 = 34359738367;

/// Bytes of the reverse-readable length field for `l`: base-128 groups,
/// most significant group first, continuation bit set on every group but
/// the first so that a reader moving backward knows where to stop.
pub open spec fn backlen_bytes(l: u64) -> Seq<u8> {
    if l <= 127 {
        seq![l as u8]
    } else if l < 16383 {
        seq![(l >> 7u64) as u8, ((l & 127) as u8) | 128]
    } else if l < 2097151 {
        seq![
            (l >> 14u64) as u8,
            (((l >> 7u64) & 127) as u8) | 128,
            ((l & 127) as u8) | 128,
        ]
    } else if l < 268435455 {
        seq![
            (l >> 21u64) as u8,
            (((l >> 14u64) & 127) as u8) | 128,
            (((l >> 7u64) & 127) as u8) | 128,
            ((l & 127) as u8) | 128,
        ]
    } else {
        seq![
            (l >> 28u64) as u8,
            (((l >> 21u64) & 127) as u8) | 128,
            (((l >> 14u64) & 127) as u8) | 128,
            (((l >> 7u64) & 127) as u8) | 128,
            ((l & 127) as u8) | 128,
        ]
    }
}

/// Number of bytes `encode_backlen` writes for length `l`.
pub fn backlen_size(l: u64) -> (r: u32)
    ensures
        r == backlen_bytes(l).len(),
{
    if l <= 127 {
        1
    } else if l < 16383 {
        2
    } else if l < 2097151 {
        3
    } else if l < 268435455 {
        4
    } else {
        5
    }
}

/// Encode the length `l` of a just-written element as a reverse-readable
/// field, returning the encoded bytes (1 to 5 of them).
pub fn encode_backlen(l: u64) -> (r: Vec<u8>)
    ensures
        r@ == backlen_bytes(l),
{
    let mut buf: Vec<u8> = Vec::new();
    if l <= 127 {
        buf.push(#[verifier::truncate] (l as u8));
    } else if l < 16383 {
        buf.push(#[verifier::truncate] ((l >> 7u64) as u8));
        buf.push(#[verifier::truncate] (((l & 127) as u8)) | 128);
    } else if l < 2097151 {
        buf.push(#[verifier::truncate] ((l >> 14u64) as u8));
        buf.push(#[verifier::truncate] ((((l >> 7u64) & 127) as u8)) | 128);
        buf.push(#[verifier::truncate] (((l & 127) as u8)) | 128);
    } else if l < 268435455 {
        buf.push(#[verifier::truncate] ((l >> 21u64) as u8));
        buf.push(#[verifier::truncate] ((((l >> 14u64) & 127) as u8)) | 128);
        buf.push(#[verifier::truncate] ((((l >> 7u64) & 127) as u8)) | 128);
        buf.push(#[verifier::truncate] (((l & 127) as u8)) | 128);
    } else {
        buf.push(#[verifier::truncate] ((l >> 28u64) as u8));
        buf.push(#[verifier::truncate] ((((l >> 21u64) & 127) as u8)) | 128);
        buf.push(#[verifier::truncate] ((((l >> 14u64) & 127) as u8)) | 128);
        buf.push(#[verifier::truncate] ((((l >> 7u64) & 127) as u8)) | 128);
        buf.push(#[verifier::truncate] (((l & 127) as u8)) | 128);
    }
    proof {
        assert(buf@ =~= backlen_bytes(l));
    }
    buf
}

/// What a reader that starts at byte `i` of `s` and walks backward,
/// accumulating 7-bit groups, reconstructs. Mirrors the element-by-element
/// reads of `decode_backlen`; `u64::MAX` marks a malformed field.
pub open spec fn backlen_read_back(s: Seq<u8>, i: int) -> u64 {
    if i < 0 || i >= s.len() {
        u64::MAX
    } else {
        let b0 = s[i];
        let v0 = (b0 & 127) as u64;
        if b0 & 128 == 0 {
            v0
        } else if i < 1 {
            u64::MAX
        } else {
            let b1 = s[i - 1];
            let v1 = v0 | (((b1 & 127) as u64) << 7u64);
            if b1 & 128 == 0 {
                v1
            } else if i < 2 {
                u64::MAX
            } else {
                let b2 = s[i - 2];
                let v2 = v1 | (((b2 & 127) as u64) << 14u64);
                if b2 & 128 == 0 {
                    v2
                } else if i < 3 {
                    u64::MAX
                } else {
                    let b3 = s[i - 3];
                    let v3 = v2 | (((b3 & 127) as u64) << 21u64);
                    if b3 & 128 == 0 {
                        v3
                    } else if i < 4 {
                        u64::MAX
                    } else {
                        let b4 = s[i - 4];
                        let v4 = v3 | (((b4 & 127) as u64) << 28u64);
                        if b4 & 128 == 0 {
                            v4
                        } else {
                            u64::MAX
                        }
                    }
                }
            }
        }
    }
}

/// Decode a backlen field whose last byte sits at index `last`, reading
/// backward through `buf`. Returns `u64::MAX` when no well-formed field
/// ends there.
pub fn decode_backlen(buf: &Vec<u8>, last: usize) -> (r: u64)
    requires
        last < buf.len(),
    ensures
        r == backlen_read_back(buf@, last as int),
{
    let b0 = buf[last];
    let v0: u64 = (b0 & 127) as u64;
    if b0 & 128 == 0 {
        return v0;
    }
    if last < 1 {
        return u64::MAX;
    }
    let b1 = buf[last - 1];
    let v1: u64 = v0 | (((b1 & 127) as u64) << 7u64);
    if b1 & 128 == 0 {
        return v1;
    }
    if last < 2 {
        return u64::MAX;
    }
    let b2 = buf[last - 2];
    let v2: u64 = v1 | (((b2 & 127) as u64) << 14u64);
    if b2 & 128 == 0 {
        return v2;
    }
    if last < 3 {
        return u64::MAX;
    }
    let b3 = buf[last - 3];
    let v3: u64 = v2 | (((b3 & 127) as u64) << 21u64);
    if b3 & 128 == 0 {
        return v3;
    }
    if last < 4 {
        return u64::MAX;
    }
    let b4 = buf[last - 4];
    let v4: u64 = v3 | (((b4 & 127) as u64) << 28u64);
    if b4 & 128 == 0 {
        return v4;
    }
    u64::MAX
}

/// A backlen field written by `encode_backlen` reads back to the length it
/// was written for, from whatever surrounds it: reverse traversal can always
/// recover an element's length from the bytes that follow it.
pub proof fn lemma_backlen_round_trip(s: Seq<u8>, l: u64, endpos: int)
    requires
        l <= MAX_ENTRY_BACKLEN,
        0 <= endpos < s.len(),
        endpos + 1 >= backlen_bytes(l).len(),
        s.subrange(endpos + 1 - backlen_bytes(l).len(), endpos + 1) =~= backlen_bytes(l),
    ensures
        backlen_read_back(s, endpos) == l,
{
    let bl = backlen_bytes(l);
    let base = endpos + 1 - bl.len();
    assert(forall|k: int| 0 <= k < bl.len() ==> s[base + k] == bl[k]);
    if l <= 127 {
        assert(s[base + 0] == bl[0]);
        assert(s[endpos] == l as u8);
        assert((l as u8) & 128 == 0 && ((l as u8) & 127) as u64 == l) by (bit_vector)
            requires
                l <= 127u64,
        ;
    } else if l < 16383 {
        assert(s[base + 0] == bl[0]);
        assert(s[base + 1] == bl[1]);
        assert(s[endpos] == ((l & 127) as u8) | 128);
        assert(s[endpos - 1] == (l >> 7u64) as u8);
        assert((((l & 127) as u8) | 128) & 128 != 0
            && ((l >> 7u64) as u8) & 128 == 0
            && (((((l & 127) as u8) | 128) & 127) as u64
                | ((((l >> 7u64) as u8) & 127) as u64) << 7u64) == l) by (bit_vector)
            requires
                127u64 < l < 16383u64,
        ;
    } else if l < 2097151 {
        assert(s[base + 0] == bl[0]);
        assert(s[base + 1] == bl[1]);
        assert(s[base + 2] == bl[2]);
        assert(s[endpos] == ((l & 127) as u8) | 128);
        assert(s[endpos - 1] == (((l >> 7u64) & 127) as u8) | 128);
        assert(s[endpos - 2] == (l >> 14u64) as u8);
        assert((((l & 127) as u8) | 128) & 128 != 0
            && ((((l >> 7u64) & 127) as u8) | 128) & 128 != 0
            && ((l >> 14u64) as u8) & 128 == 0
            && ((((((l & 127) as u8) | 128) & 127) as u64
                    | ((((((l >> 7u64) & 127) as u8) | 128) & 127) as u64) << 7u64)
                | ((((l >> 14u64) as u8) & 127) as u64) << 14u64) == l) by (bit_vector)
            requires
                16383u64 <= l < 2097151u64,
        ;
    } else if l < 268435455 {
        assert(s[base + 0] == bl[0]);
        assert(s[base + 1] == bl[1]);
        assert(s[base + 2] == bl[2]);
        assert(s[base + 3] == bl[3]);
        assert(s[endpos] == ((l & 127) as u8) | 128);
        assert(s[endpos - 1] == (((l >> 7u64) & 127) as u8) | 128);
        assert(s[endpos - 2] == (((l >> 14u64) & 127) as u8) | 128);
        assert(s[endpos - 3] == (l >> 21u64) as u8);
        assert((((l & 127) as u8) | 128) & 128 != 0
            && ((((l >> 7u64) & 127) as u8) | 128) & 128 != 0
            && ((((l >> 14u64) & 127) as u8) | 128) & 128 != 0
            && ((l >> 21u64) as u8) & 128 == 0
            && (((((((l & 127) as u8) | 128) & 127) as u64
                        | ((((((l >> 7u64) & 127) as u8) | 128) & 127) as u64) << 7u64)
                    | ((((((l >> 14u64) & 127) as u8) | 128) & 127) as u64) << 14u64)
                | ((((l >> 21u64) as u8) & 127) as u64) << 21u64) == l) by (bit_vector)
            requires
                2097151u64 <= l < 268435455u64,
        ;
    } else {
        assert(s[base + 0] == bl[0]);
        assert(s[base + 1] == bl[1]);
        assert(s[base + 2] == bl[2]);
        assert(s[base + 3] == bl[3]);
        assert(s[base + 4] == bl[4]);
        assert(s[endpos] == ((l & 127) as u8) | 128);
        assert(s[endpos - 1] == (((l >> 7u64) & 127) as u8) | 128);
        assert(s[endpos - 2] == (((l >> 14u64) & 127) as u8) | 128);
        assert(s[endpos - 3] == (((l >> 21u64) & 127) as u8) | 128);
        assert(s[endpos - 4] == (l >> 28u64) as u8);
        assert((((l & 127) as u8) | 128) & 128 != 0
            && ((((l >> 7u64) & 127) as u8) | 128) & 128 != 0
            && ((((l >> 14u64) & 127) as u8) | 128) & 128 != 0
            && ((((l >> 21u64) & 127) as u8) | 128) & 128 != 0
            && ((l >> 28u64) as u8) & 128 == 0
            && ((((((((l & 127) as u8) | 128) & 127) as u64
                            | ((((((l >> 7u64) & 127) as u8) | 128) & 127) as u64) << 7u64)
                        | ((((((l >> 14u64) & 127) as u8) | 128) & 127) as u64) << 14u64)
                    | ((((((l >> 21u64) & 127) as u8) | 128) & 127) as u64) << 21u64)
                | ((((l >> 28u64) as u8) & 127) as u64) << 28u64) == l) by (bit_vector)
            requires
                268435455u64 <= l <= 34359738367u64,
        ;
    }
}

/// Mathematical model of a listpack element: a 64-bit integer or a byte
/// string.
pub enum ValModel {
    Int(i64),
    Bytes(Seq<u8>),
}

/// A listpack element value. Integers are stored in the smallest of six
/// width tiers; strings carry their bytes with a length prefix.
#[derive(Clone, Debug, PartialEq, Eq)]
pub enum Value {
    Int(i64),
    String(Vec<u8>),
}

impl View for Value {
    type V = ValModel;

    open spec fn view(&self) -> ValModel {
        match self {
            Value::Int(v) => ValModel::Int(*v),
            Value::String(b) => ValModel::Bytes(b@),
        }
    }
}

/// Byte strings must leave room for their length tag, backlen and the
/// listpack header inside the 32-bit total-bytes limit.
pub const MAX_STR_LEN: u32 = 0xFFFF_FFEF;

/// A value the codec can represent: any integer, or a byte string short
/// enough that its encoded form still fits the 32-bit size arithmetic.
pub open spec fn val_ok(m: ValModel) -> bool {
    match m {
        ValModel::Int(_) => true,
        ValModel::Bytes(b) => b.len() <= MAX_STR_LEN,
    }
}

/// The `m`-bit two's-complement image of `v` as an unsigned word
/// (`m` is passed as the modulus, e.g. 8192 for the 13-bit tier).
pub open spec fn twos(v: i64, modulus: int) -> u64 {
    (if v < 0 {
        v + modulus
    } else {
        v as int
    }) as u64
}

/// Encoded bytes of an integer element: tag plus payload, by the smallest
/// tier that represents the value.
pub open spec fn enc_int(v: i64) -> Seq<u8> {
    if 0 <= v <= 127 {
        seq![v as u8]
    } else if -4096 <= v <= 4095 {
        let w = twos(v, 8192);
        seq![((w >> 8u64) as u8) | 0xC0, (w & 0xff) as u8]
    } else if -32768 <= v <= 32767 {
        let w = twos(v, 65536);
        seq![0xF1u8, (w & 0xff) as u8, (w >> 8u64) as u8]
    } else if -8388608 <= v <= 8388607 {
        let w = twos(v, 16777216);
        seq![0xF2u8, (w & 0xff) as u8, ((w >> 8u64) & 0xff) as u8, (w >> 16u64) as u8]
    } else if -2147483648 <= v <= 2147483647 {
        let w = twos(v, 4294967296);
        seq![
            0xF3u8,
            (w & 0xff) as u8,
            ((w >> 8u64) & 0xff) as u8,
            ((w >> 16u64) & 0xff) as u8,
            (w >> 24u64) as u8,
        ]
    } else {
        let w = v as u64;
        seq![
            0xF4u8,
            (w & 0xff) as u8,
            ((w >> 8u64) & 0xff) as u8,
            ((w >> 16u64) & 0xff) as u8,
            ((w >> 24u64) & 0xff) as u8,
            ((w >> 32u64) & 0xff) as u8,
            ((w >> 40u64) & 0xff) as u8,
            ((w >> 48u64) & 0xff) as u8,
            (w >> 56u64) as u8,
        ]
    }
}

/// Encoded bytes of a string element: length tag by tier, then the bytes.
pub open spec fn enc_str(b: Seq<u8>) -> Seq<u8> {
    let n = b.len() as u32;
    if b.len() < 64 {
        seq![(n as u8) | 0x80] + b
    } else if b.len() < 4096 {
        seq![((n >> 8u32) as u8) | 0xE0, (n & 0xff) as u8] + b
    } else {
        seq![
            0xF0u8,
            (n & 0xff) as u8,
            ((n >> 8u32) & 0xff) as u8,
            ((n >> 16u32) & 0xff) as u8,
            (n >> 24u32) as u8,
        ] + b
    }
}

/// Encoded bytes of an element value (tag and payload, backlen excluded).
pub open spec fn enc_val(m: ValModel) -> Seq<u8> {
    match m {
        ValModel::Int(v) => enc_int(v),
        ValModel::Bytes(b) => enc_str(b),
    }
}

/// Encoded size of an element value, backlen excluded. Always equals
/// `enc_val(m).len()`.
pub open spec fn enc_size(m: ValModel) -> int {
    match m {
        ValModel::Int(v) => {
            if 0 <= v <= 127 {
                1
            } else if -4096 <= v <= 4095 {
                2
            } else if -32768 <= v <= 32767 {
                3
            } else if -8388608 <= v <= 8388607 {
                4
            } else if -2147483648 <= v <= 2147483647 {
                5
            } else {
                9
            }
        },
        ValModel::Bytes(b) => {
            if b.len() < 64 {
                1 + b.len() as int
            } else if b.len() < 4096 {
                2 + b.len() as int
            } else {
                5 + b.len() as int
            }
        },
    }
}

/// Total bytes an element occupies in a listpack: encoding plus backlen.
pub open spec fn elem_size(m: ValModel) -> int {
    enc_size(m) + backlen_bytes(enc_size(m) as u64).len()
}

/// Full byte image of one stored element: encoded value then its backlen.
pub open spec fn elem_bytes(m: ValModel) -> Seq<u8> {
    enc_val(m) + backlen_bytes(enc_size(m) as u64)
}

pub proof fn lemma_enc_size_is_len(m: ValModel)
    ensures
        enc_val(m).len() == enc_size(m),
        1 <= enc_size(m),
        val_ok(m) ==> enc_size(m) <= 5 + MAX_STR_LEN,
        elem_bytes(m).len() == elem_size(m),
        val_ok(m) ==> elem_size(m) <= 10 + MAX_STR_LEN,
{
}

// --- element tag classification ---

/// Tag test: one byte holding an unsigned integer in its low 7 bits.
pub fn is_7bit_uint(b: u8) -> (r: bool)
    ensures
        r == (b & 0x80 == 0),
{
    b & 0x80 == 0
}

/// Tag test: a string of up to 63 bytes, length in the tag's low 6 bits.
pub fn is_6bit_str(b: u8) -> (r: bool)
    ensures
        r == (b & 0xC0 == 0x80),
{
    b & 0xC0 == 0x80
}

/// Tag test: a 13-bit signed integer spread over the tag byte and one more.
pub fn is_13bit_int(b: u8) -> (r: bool)
    ensures
        r == (b & 0xE0 == 0xC0),
{
    b & 0xE0 == 0xC0
}

/// Tag test: a string of up to 4095 bytes, length split over two bytes.
pub fn is_12bit_str(b: u8) -> (r: bool)
    ensures
        r == (b & 0xF0 == 0xE0),
{
    b & 0xF0 == 0xE0
}

/// Tag test: a 16-bit signed integer following the tag byte.
pub fn is_16bit_int(b: u8) -> (r: bool)
    ensures
        r == (b == 0xF1),
{
    b == 0xF1
}

/// Tag test: a 24-bit signed integer following the tag byte.
pub fn is_24bit_int(b: u8) -> (r: bool)
    ensures
        r == (b == 0xF2),
{
    b == 0xF2
}

/// Tag test: a 32-bit signed integer following the tag byte.
pub fn is_32bit_int(b: u8) -> (r: bool)
    ensures
        r == (b == 0xF3),
{
    b == 0xF3
}

/// Tag test: a string with a 32-bit length field following the tag byte.
pub fn is_32bit_str(b: u8) -> (r: bool)
    ensures
        r == (b == 0xF0),
{
    b == 0xF0
}

/// Tag test: a 64-bit signed integer following the tag byte.
pub fn is_64bit_int(b: u8) -> (r: bool)
    ensures
        r == (b == 0xF4),
{
    b == 0xF4
}

// --- encoding, executable ---

/// Encode an integer into tag-plus-payload form, returning the bytes
/// (1 to 9 of them; the backlen is not included).
pub fn encode_int(v: i64) -> (r: Vec<u8>)
    ensures
        r@ == enc_int(v),
{
    let mut buf: Vec<u8> = Vec::new();
    if v >= 0 && v <= 127 {
        buf.push(v as u8);
    } else if v >= -4096 && v <= 4095 {
        let w: u64 = if v < 0 {
            (v + 8192) as u64
        } else {
            v as u64
        };
        buf.push(#[verifier::truncate] ((w >> 8u64) as u8) | 0xC0);
        buf.push(#[verifier::truncate] ((w & 0xff) as u8));
    } else if v >= -32768 && v <= 32767 {
        let w: u64 = if v < 0 {
            (v + 65536) as u64
        } else {
            v as u64
        };
        buf.push(0xF1);
        buf.push(#[verifier::truncate] ((w & 0xff) as u8));
        buf.push(#[verifier::truncate] ((w >> 8u64) as u8));
    } else if v >= -8388608 && v <= 8388607 {
        let w: u64 = if v < 0 {
            (v + 16777216) as u64
        } else {
            v as u64
        };
        buf.push(0xF2);
        buf.push(#[verifier::truncate] ((w & 0xff) as u8));
        buf.push(#[verifier::truncate] (((w >> 8u64) & 0xff) as u8));
        buf.push(#[verifier::truncate] ((w >> 16u64) as u8));
    } else if v >= -2147483648 && v <= 2147483647 {
        let w: u64 = if v < 0 {
            (v + 4294967296) as u64
        } else {
            v as u64
        };
        buf.push(0xF3);
        buf.push(#[verifier::truncate] ((w & 0xff) as u8));
        buf.push(#[verifier::truncate] (((w >> 8u64) & 0xff) as u8));
        buf.push(#[verifier::truncate] (((w >> 16u64) & 0xff) as u8));
        buf.push(#[verifier::truncate] ((w >> 24u64) as u8));
    } else {
        let w: u64 = #[verifier::truncate] (v as u64);
        buf.push(0xF4);
        buf.push(#[verifier::truncate] ((w & 0xff) as u8));
        buf.push(#[verifier::truncate] (((w >> 8u64) & 0xff) as u8));
        buf.push(#[verifier::truncate] (((w >> 16u64) & 0xff) as u8));
        buf.push(#[verifier::truncate] (((w >> 24u64) & 0xff) as u8));
        buf.push(#[verifier::truncate] (((w >> 32u64) & 0xff) as u8));
        buf.push(#[verifier::truncate] (((w >> 40u64) & 0xff) as u8));
        buf.push(#[verifier::truncate] (((w >> 48u64) & 0xff) as u8));
        buf.push(#[verifier::truncate] ((w >> 56u64) as u8));
    }
    proof {
        assert(buf@ =~= enc_int(v));
    }
    buf
}

/// Bytes the length tag of a string of `size` bytes occupies: 1, 2 or 5.
pub fn string_front_len(size: u32) -> (r: u64)
    ensures
        size < 64 ==> r == 1,
        64 <= size < 4096 ==> r == 2,
        size >= 4096 ==> r == 5,
{
    if size < 64 {
        1
    } else if size < 4096 {
        2
    } else {
        5
    }
}

/// The zigzag decode map `(n >> 1) ^ -(n & 1)`, applied when a signed
/// integer is read back; it undoes `zigzag_encode`.
pub fn zigzag(n: i64) -> (r: i64)
    ensures
        r == ((n >> 1u64) ^ (-((n & 1) as int) as i64)),
{
    let low: i64 = n & 1;
    proof {
        assert(n & 1 == 0 || n & 1 == 1) by (bit_vector);
    }
    n >> 1u64 ^ (-low)
}

/// The zigzag encode map `(n << 1) ^ (n >> 63)`, applied when a signed
/// integer is stored: small negatives become small non-negative codes,
/// which the integer tiers then encode in one or two bytes.
pub fn zigzag_encode(n: i64) -> (r: i64)
    ensures
        r == ((n << 1u64) ^ (n >> 63u64)),
{
    n << 1u64 ^ (n >> 63u64)
}

/// Reading a zigzag-stored integer back undoes the store transform: the
/// decode map inverts the encode map. The inverse holds for magnitudes
/// below two to the sixty-second; above that the encode shift wraps and
/// the arithmetic-shift decode cannot recover the sign.
pub proof fn lemma_zigzag_round_trip(n: i64)
    requires
        -0x4000_0000_0000_0000 <= n < 0x4000_0000_0000_0000,
    ensures
        ({
            let m = (n << 1u64) ^ (n >> 63u64);
            ((m >> 1u64) ^ (-((m & 1) as int) as i64)) == n
        }),
{
    let m = (n << 1u64) ^ (n >> 63u64);
    assert(m & 1 == 0 || m & 1 == 1) by (bit_vector);
    let d: i64 = (-((m & 1) as int)) as i64;
    if m & 1 == 0 {
        assert(d == 0);
        assert((m >> 1u64) ^ 0i64 == n) by (bit_vector)
            requires
                m == ((n << 1u64) ^ (n >> 63u64)),
                m & 1 == 0,
                -0x4000_0000_0000_0000 <= n < 0x4000_0000_0000_0000,
        ;
    } else {
        assert(d == -1i64);
        assert((m >> 1u64) ^ (-1i64) == n) by (bit_vector)
            requires
                m == ((n << 1u64) ^ (n >> 63u64)),
                m & 1 == 1,
                -0x4000_0000_0000_0000 <= n < 0x4000_0000_0000_0000,
        ;
    }
}

impl Value {
    /// Number of bytes `encode` produces for this value, excluding the
    /// backlen field; pure pre-flight arithmetic, no encoding happens.
    pub fn encoded_size(&self) -> (r: u32)
        requires
            val_ok(self@),
        ensures
            r == enc_size(self@),
    {
        match self {
            Value::Int(v) => {
                let v = *v;
                if v >= 0 && v <= 127 {
                    1
                } else if v >= -4096 && v <= 4095 {
                    2
                } else if v >= -32768 && v <= 32767 {
                    3
                } else if v >= -8388608 && v <= 8388607 {
                    4
                } else if v >= -2147483648 && v <= 2147483647 {
                    5
                } else {
                    9
                }
            },
            Value::String(b) => {
                let size = b.len();
                if size < 64 {
                    1 + size as u32
                } else if size < 4096 {
                    2 + size as u32
                } else {
                    5 + size as u32
                }
            },
        }
    }

    /// Encoded size and the size of the backlen field that follows it.
    pub fn encoded_sizes(&self) -> (r: (u32, u32))
        requires
            val_ok(self@),
        ensures
            r.0 == enc_size(self@),
            r.1 == backlen_bytes(enc_size(self@) as u64).len(),
    {
        let size = self.encoded_size();
        (size, backlen_size(size as u64))
    }

    /// Total bytes a write of this value adds to a listpack: encoding plus
    /// backlen.
    pub fn size_for_write(&self) -> (r: u32)
        requires
            val_ok(self@),
        ensures
            r == elem_size(self@),
    {
        let size = self.encoded_size();
        size + backlen_size(size as u64)
    }

    /// The raw bytes of this value: a string's own bytes, or an
    /// integer's little-endian image.
    pub fn as_bytes(&self) -> (r: Vec<u8>)
        ensures
            ({
                match self@ {
                    ValModel::Int(v) => r@ == crate::listpack::i64_le_bytes(v),
                    ValModel::Bytes(s) => r@ == s,
                }
            }),
    {
        match self {
            Value::Int(v) => {
                let v = *v;
                let mut out: Vec<u8> = Vec::new();
                out.push(#[verifier::truncate] ((v & 0xff) as u8));
                out.push(#[verifier::truncate] (((v >> 8u64) & 0xff) as u8));
                out.push(#[verifier::truncate] (((v >> 16u64) & 0xff) as u8));
                out.push(#[verifier::truncate] (((v >> 24u64) & 0xff) as u8));
                out.push(#[verifier::truncate] (((v >> 32u64) & 0xff) as u8));
                out.push(#[verifier::truncate] (((v >> 40u64) & 0xff) as u8));
                out.push(#[verifier::truncate] (((v >> 48u64) & 0xff) as u8));
                out.push(#[verifier::truncate] (((v >> 56u64) & 0xff) as u8));
                proof {
                    assert(out@ =~= crate::listpack::i64_le_bytes(v));
                }
                out
            },
            Value::String(b) => {
                let mut out: Vec<u8> = Vec::new();
                out.extend_from_slice(b.as_slice());
                proof {
                    assert(out@ =~= b@);
                }
                out
            },
        }
    }

    /// Encode this value into tag-plus-payload form (backlen excluded).
    pub fn encode(&self) -> (r: Vec<u8>)
        requires
            val_ok(self@),
        ensures
            r@ == enc_val(self@),
    {
        match self {
            Value::Int(v) => encode_int(*v),
            Value::String(b) => {
                let mut buf: Vec<u8> = Vec::new();
                let n: u32 = b.len() as u32;
                if n < 64 {
                    buf.push((n as u8) | 0x80);
                } else if n < 4096 {
                    buf.push(#[verifier::truncate] ((n >> 8u32) as u8) | 0xE0);
                    buf.push(#[verifier::truncate] ((n & 0xff) as u8));
                } else {
                    buf.push(0xF0);
                    buf.push(#[verifier::truncate] ((n & 0xff) as u8));
                    buf.push(#[verifier::truncate] (((n >> 8u32) & 0xff) as u8));
                    buf.push(#[verifier::truncate] (((n >> 16u32) & 0xff) as u8));
                    buf.push(#[verifier::truncate] ((n >> 24u32) as u8));
                }
                buf.extend_from_slice(b.as_slice());
                proof {
                    assert(buf@ =~= enc_str(b@));
                }
                buf
            },
        }
    }

    /// Element image of this value as it lands in a listpack: encoding
    /// followed by its backlen field.
    pub fn element_image(&self) -> (r: Vec<u8>)
        requires
            val_ok(self@),
        ensures
            r@ == elem_bytes(self@),
    {
        let mut buf = self.encode();
        proof {
            lemma_enc_size_is_len(self@);
        }
        let bl = encode_backlen(buf.len() as u64);
        buf.extend_from_slice(bl.as_slice());
        proof {
            assert(buf@ =~= elem_bytes(self@));
        }
        buf
    }
}

// --- decoding, specification level ---

/// Two's-complement sign reconstruction for the fixed-width integer tiers:
/// values at or above `negstart` are the images of negatives.
pub open spec fn sign_decode(uval: u64, negstart: u64, negmax: u64) -> i64 {
    if uval >= negstart {
        (-1 - ((negmax - uval) as i64)) as i64
    } else {
        uval as i64
    }
}

/// Length in bytes of the element encoding that starts at `s[off]`,
/// determined from its tag the way forward traversal determines it.
pub open spec fn dec_len_at(s: Seq<u8>, off: int) -> int {
    let b = s[off];
    if b & 0x80 == 0 {
        1
    } else if b & 0xC0 == 0x80 {
        1 + (b & 0x3f) as int
    } else if b & 0xE0 == 0xC0 {
        2
    } else if b == 0xF1 {
        3
    } else if b == 0xF2 {
        4
    } else if b == 0xF3 {
        5
    } else if b == 0xF4 {
        9
    } else if b & 0xF0 == 0xE0 {
        2 + (((((b & 0xF) as u32) << 8u32) | s[off + 1] as u32) as int)
    } else if b == 0xF0 {
        5 + ((s[off + 1] as u32 | (s[off + 2] as u32) << 8u32 | (s[off + 3] as u32) << 16u32 | (s[
            off + 4] as u32) << 24u32) as int)
    } else {
        1
    }
}

/// The value of the element encoding that starts at `s[off]`, read the way
/// `get` reads it: tag dispatch, then width-appropriate reconstruction.
pub open spec fn dec_val_at(s: Seq<u8>, off: int) -> ValModel {
    let b = s[off];
    if b & 0x80 == 0 {
        ValModel::Int((b & 0x7f) as i64)
    } else if b & 0xC0 == 0x80 {
        ValModel::Bytes(s.subrange(off + 1, off + 1 + (b & 0x3f) as int))
    } else if b & 0xE0 == 0xC0 {
        ValModel::Int(sign_decode(((b as u64 & 0x1f) << 8u64) | s[off + 1] as u64, 0x1000, 8191))
    } else if b == 0xF1 {
        ValModel::Int(
            sign_decode(s[off + 1] as u64 | (s[off + 2] as u64) << 8u64, 0x8000, 0xFFFF),
        )
    } else if b == 0xF2 {
        ValModel::Int(
            sign_decode(
                s[off + 1] as u64 | (s[off + 2] as u64) << 8u64 | (s[off + 3] as u64) << 16u64,
                0x800000,
                0xFFFFFF,
            ),
        )
    } else if b == 0xF3 {
        ValModel::Int(
            sign_decode(
                s[off + 1] as u64 | (s[off + 2] as u64) << 8u64 | (s[off + 3] as u64) << 16u64 | (
                s[off + 4] as u64) << 24u64,
                0x80000000,
                0xFFFFFFFF,
            ),
        )
    } else if b == 0xF4 {
        ValModel::Int(
            sign_decode(
                s[off + 1] as u64 | (s[off + 2] as u64) << 8u64 | (s[off + 3] as u64) << 16u64 | (
                s[off + 4] as u64) << 24u64 | (s[off + 5] as u64) << 32u64 | (s[off + 6] as u64)
                    << 40u64 | (s[off + 7] as u64) << 48u64 | (s[off + 8] as u64) << 56u64,
                0x8000000000000000,
                0xFFFFFFFFFFFFFFFF,
            ),
        )
    } else if b & 0xF0 == 0xE0 {
        ValModel::Bytes(
            s.subrange(off + 2, off + 2 + (((((b & 0xF) as u32) << 8u32) | s[off + 1] as u32) as int)),
        )
    } else if b == 0xF0 {
        ValModel::Bytes(
            s.subrange(
                off + 5,
                off + 5 + ((s[off + 1] as u32 | (s[off + 2] as u32) << 8u32 | (s[off + 3] as u32)
                    << 16u32 | (s[off + 4] as u32) << 24u32) as int),
            ),
        )
    } else {
        ValModel::Int((12345678900000000 + b as int) as i64)
    }
}

/// Decoding inverts encoding: an element written by the codec reads back as
/// the value it was written from, and forward traversal computes exactly
/// the encoded size from the tag. This holds wherever the encoding sits in
/// a larger buffer.
pub proof fn lemma_value_round_trip(s: Seq<u8>, m: ValModel, off: int)
    requires
        val_ok(m),
        0 <= off,
        off + enc_size(m) <= s.len(),
        s.subrange(off, off + enc_size(m)) =~= enc_val(m),
    ensures
        dec_val_at(s, off) == m,
        dec_len_at(s, off) == enc_size(m),
        s[off] != EOF,
{
    lemma_enc_size_is_len(m);
    let e = enc_val(m);
    let sub = s.subrange(off, off + enc_size(m));
    assert(s[off] == e[0]) by {
        assert(sub[0] == e[0]);
    }
    if e.len() > 1 {
        assert(s[off + 1] == e[1]) by {
            assert(sub[1] == e[1]);
        }
    }
    if e.len() > 2 {
        assert(s[off + 2] == e[2]) by {
            assert(sub[2] == e[2]);
        }
    }
    if e.len() > 3 {
        assert(s[off + 3] == e[3]) by {
            assert(sub[3] == e[3]);
        }
    }
    if e.len() > 4 {
        assert(s[off + 4] == e[4]) by {
            assert(sub[4] == e[4]);
        }
    }
    if e.len() > 5 {
        assert(s[off + 5] == e[5]) by {
            assert(sub[5] == e[5]);
        }
    }
    if e.len() > 6 {
        assert(s[off + 6] == e[6]) by {
            assert(sub[6] == e[6]);
        }
    }
    if e.len() > 7 {
        assert(s[off + 7] == e[7]) by {
            assert(sub[7] == e[7]);
        }
    }
    if e.len() > 8 {
        assert(s[off + 8] == e[8]) by {
            assert(sub[8] == e[8]);
        }
    }
    match m {
        ValModel::Int(v) => {
            if 0 <= v <= 127 {
                assert(s[off] == v as u8);
                assert((v as u8) & 0x80 == 0 && ((v as u8) & 0x7f) as i64 == v && (v as u8)
                    != 0xFF) by (bit_vector)
                    requires
                        0 <= v <= 127,
                ;
            } else if -4096 <= v <= 4095 {
                let w = twos(v, 8192);
                let b0 = ((w >> 8u64) as u8) | 0xC0;
                let b1 = (w & 0xff) as u8;
                assert(s[off] == b0 && s[off + 1] == b1);
                if v < 0 {
                    assert(w == v + 8192);
                    assert({
                        let u = (((((w >> 8u64) as u8) | 0xC0) as u64 & 0x1f) << 8u64) | (((w
                            & 0xff) as u8) as u64);
                        (((w >> 8u64) as u8) | 0xC0) & 0x80 != 0 && (((w >> 8u64) as u8) | 0xC0)
                            & 0xC0 != 0x80 && (((w >> 8u64) as u8) | 0xC0) & 0xE0 == 0xC0 && (((w
                            >> 8u64) as u8) | 0xC0) != 0xFF && u >= 0x1000 && (-1 - ((8191 - u) as i64)) as i64
                            == v
                    }) by (bit_vector)
                        requires
                            -4096 <= v < 0,
                            w == v + 8192,
                    ;
                } else {
                    assert(w == v);
                    assert({
                        let u = (((((w >> 8u64) as u8) | 0xC0) as u64 & 0x1f) << 8u64) | (((w
                            & 0xff) as u8) as u64);
                        (((w >> 8u64) as u8) | 0xC0) & 0x80 != 0 && (((w >> 8u64) as u8) | 0xC0)
                            & 0xC0 != 0x80 && (((w >> 8u64) as u8) | 0xC0) & 0xE0 == 0xC0 && (((w
                            >> 8u64) as u8) | 0xC0) != 0xFF && u < 0x1000 && u as i64 == v
                    }) by (bit_vector)
                        requires
                            128 <= v <= 4095,
                            w == v,
                    ;
                }
            } else if -32768 <= v <= 32767 {
                let w = twos(v, 65536);
                assert(s[off] == 0xF1 && s[off + 1] == (w & 0xff) as u8 && s[off + 2] == (w
                    >> 8u64) as u8);
                if v < 0 {
                    assert(w == v + 65536);
                    assert({
                        let u = ((w & 0xff) as u8) as u64 | (((w >> 8u64) as u8) as u64) << 8u64;
                        0xF1u8 & 0x80 != 0 && 0xF1u8 & 0xC0 != 0x80 && 0xF1u8 & 0xE0 != 0xC0 && u
                            >= 0x8000 && (-1 - ((0xFFFF - u) as i64)) as i64 == v
                    }) by (bit_vector)
                        requires
                            -32768 <= v < 0,
                            w == v + 65536,
                    ;
                } else {
                    assert(w == v);
                    assert({
                        let u = ((w & 0xff) as u8) as u64 | (((w >> 8u64) as u8) as u64) << 8u64;
                        0xF1u8 & 0x80 != 0 && 0xF1u8 & 0xC0 != 0x80 && 0xF1u8 & 0xE0 != 0xC0 && u
                            < 0x8000 && u as i64 == v
                    }) by (bit_vector)
                        requires
                            4096 <= v <= 32767,
                            w == v,
                    ;
                }
            } else if -8388608 <= v <= 8388607 {
                let w = twos(v, 16777216);
                assert(s[off] == 0xF2 && s[off + 1] == (w & 0xff) as u8 && s[off + 2] == ((w
                    >> 8u64) & 0xff) as u8 && s[off + 3] == (w >> 16u64) as u8);
                if v < 0 {
                    assert(w == v + 16777216);
                    assert({
                        let u = ((w & 0xff) as u8) as u64 | ((((w >> 8u64) & 0xff) as u8) as u64)
                            << 8u64 | (((w >> 16u64) as u8) as u64) << 16u64;
                        0xF2u8 & 0x80 != 0 && 0xF2u8 & 0xC0 != 0x80 && 0xF2u8 & 0xE0 != 0xC0 && u
                            >= 0x800000 && (-1 - ((0xFFFFFF - u) as i64)) as i64 == v
                    }) by (bit_vector)
                        requires
                            -8388608 <= v < 0,
                            w == v + 16777216,
                    ;
                } else {
                    assert(w == v);
                    assert({
                        let u = ((w & 0xff) as u8) as u64 | ((((w >> 8u64) & 0xff) as u8) as u64)
                            << 8u64 | (((w >> 16u64) as u8) as u64) << 16u64;
                        0xF2u8 & 0x80 != 0 && 0xF2u8 & 0xC0 != 0x80 && 0xF2u8 & 0xE0 != 0xC0 && u
                            < 0x800000 && u as i64 == v
                    }) by (bit_vector)
                        requires
                            32768 <= v <= 8388607,
                            w == v,
                    ;
                }
            } else if -2147483648 <= v <= 2147483647 {
                let w = twos(v, 4294967296);
                assert(s[off] == 0xF3 && s[off + 1] == (w & 0xff) as u8 && s[off + 2] == ((w
                    >> 8u64) & 0xff) as u8 && s[off + 3] == ((w >> 16u64) & 0xff) as u8 && s[off
                    + 4] == (w >> 24u64) as u8);
                if v < 0 {
                    assert(w == v + 4294967296);
                    assert({
                        let u = ((w & 0xff) as u8) as u64 | ((((w >> 8u64) & 0xff) as u8) as u64)
                            << 8u64 | ((((w >> 16u64) & 0xff) as u8) as u64) << 16u64 | (((w
                            >> 24u64) as u8) as u64) << 24u64;
                        0xF3u8 & 0x80 != 0 && 0xF3u8 & 0xC0 != 0x80 && 0xF3u8 & 0xE0 != 0xC0 && u
                            >= 0x80000000 && (-1 - ((0xFFFFFFFF - u) as i64)) as i64 == v
                    }) by (bit_vector)
                        requires
                            -2147483648 <= v < 0,
                            w == v + 4294967296,
                    ;
                } else {
                    assert(w == v);
                    assert({
                        let u = ((w & 0xff) as u8) as u64 | ((((w >> 8u64) & 0xff) as u8) as u64)
                            << 8u64 | ((((w >> 16u64) & 0xff) as u8) as u64) << 16u64 | (((w
                            >> 24u64) as u8) as u64) << 24u64;
                        0xF3u8 & 0x80 != 0 && 0xF3u8 & 0xC0 != 0x80 && 0xF3u8 & 0xE0 != 0xC0 && u
                            < 0x80000000 && u as i64 == v
                    }) by (bit_vector)
                        requires
                            8388608 <= v <= 2147483647,
                            w == v,
                    ;
                }
            } else {
                let w = v as u64;
                assert(s[off] == 0xF4 && s[off + 1] == (w & 0xff) as u8 && s[off + 2] == ((w
                    >> 8u64) & 0xff) as u8 && s[off + 3] == ((w >> 16u64) & 0xff) as u8 && s[off
                    + 4] == ((w >> 24u64) & 0xff) as u8 && s[off + 5] == ((w >> 32u64)
                    & 0xff) as u8 && s[off + 6] == ((w >> 40u64) & 0xff) as u8 && s[off + 7] == ((w
                    >> 48u64) & 0xff) as u8 && s[off + 8] == (w >> 56u64) as u8);
                if v < 0 {
                    assert({
                        let u = ((w & 0xff) as u8) as u64 | ((((w >> 8u64) & 0xff) as u8) as u64)
                            << 8u64 | ((((w >> 16u64) & 0xff) as u8) as u64) << 16u64 | ((((w
                            >> 24u64) & 0xff) as u8) as u64) << 24u64 | ((((w >> 32u64)
                            & 0xff) as u8) as u64) << 32u64 | ((((w >> 40u64) & 0xff) as u8) as u64)
                            << 40u64 | ((((w >> 48u64) & 0xff) as u8) as u64) << 48u64 | (((w
                            >> 56u64) as u8) as u64) << 56u64;
                        0xF4u8 & 0x80 != 0 && 0xF4u8 & 0xC0 != 0x80 && 0xF4u8 & 0xE0 != 0xC0 && u
                            >= 0x8000000000000000 && (-1 - ((0xFFFFFFFFFFFFFFFF - u) as i64)) as i64
                            == v
                    }) by (bit_vector)
                        requires
                            v < -2147483648,
                            w == v as u64,
                    ;
                } else {
                    assert({
                        let u = ((w & 0xff) as u8) as u64 | ((((w >> 8u64) & 0xff) as u8) as u64)
                            << 8u64 | ((((w >> 16u64) & 0xff) as u8) as u64) << 16u64 | ((((w
                            >> 24u64) & 0xff) as u8) as u64) << 24u64 | ((((w >> 32u64)
                            & 0xff) as u8) as u64) << 32u64 | ((((w >> 40u64) & 0xff) as u8) as u64)
                            << 40u64 | ((((w >> 48u64) & 0xff) as u8) as u64) << 48u64 | (((w
                            >> 56u64) as u8) as u64) << 56u64;
                        0xF4u8 & 0x80 != 0 && 0xF4u8 & 0xC0 != 0x80 && 0xF4u8 & 0xE0 != 0xC0 && u
                            < 0x8000000000000000 && u as i64 == v
                    }) by (bit_vector)
                        requires
                            v > 2147483647,
                            w == v as u64,
                    ;
                }
            }
        },
        ValModel::Bytes(b) => {
            let n = b.len() as u32;
            if b.len() < 64 {
                assert(s[off] == (n as u8) | 0x80);
                assert(((n as u8) | 0x80) & 0x80 != 0 && ((n as u8) | 0x80) & 0xC0 == 0x80 && ((
                n as u8) | 0x80) != 0xFF && (((n as u8) | 0x80) & 0x3f) as u32 == n) by (bit_vector)
                    requires
                        n < 64u32,
                ;
                assert forall|k: int| 0 <= k < b.len() implies s.subrange(
                    off + 1,
                    off + 1 + n,
                )[k] == b[k] by {
                    assert(sub[1 + k] == e[1 + k]);
                }
                assert(s.subrange(off + 1, off + 1 + n) =~= b);
            } else if b.len() < 4096 {
                let b0 = ((n >> 8u32) as u8) | 0xE0;
                let b1 = (n & 0xff) as u8;
                assert(s[off] == b0 && s[off + 1] == b1);
                assert({
                    let t0 = ((n >> 8u32) as u8) | 0xE0;
                    let t1 = (n & 0xff) as u8;
                    t0 != 0xFF && t0 & 0x80 != 0 && t0 & 0xC0 != 0x80 && t0 & 0xE0 != 0xC0 && t0 != 0xF1 && t0
                        != 0xF2 && t0 != 0xF3 && t0 != 0xF4 && t0 & 0xF0 == 0xE0 && ((((t0
                        & 0xF) as u32) << 8u32) | t1 as u32) == n
                }) by (bit_vector)
                    requires
                        64 <= n < 4096u32,
                ;
                assert forall|k: int| 0 <= k < b.len() implies s.subrange(
                    off + 2,
                    off + 2 + n,
                )[k] == b[k] by {
                    assert(sub[2 + k] == e[2 + k]);
                }
                assert(s.subrange(off + 2, off + 2 + n) =~= b);
            } else {
                assert(s[off] == 0xF0 && s[off + 1] == (n & 0xff) as u8 && s[off + 2] == ((n
                    >> 8u32) & 0xff) as u8 && s[off + 3] == ((n >> 16u32) & 0xff) as u8 && s[off
                    + 4] == (n >> 24u32) as u8);
                assert({
                    let u = ((n & 0xff) as u8) as u32 | ((((n >> 8u32) & 0xff) as u8) as u32)
                        << 8u32 | ((((n >> 16u32) & 0xff) as u8) as u32) << 16u32 | (((n
                        >> 24u32) as u8) as u32) << 24u32;
                    0xF0u8 & 0x80 != 0 && 0xF0u8 & 0xC0 != 0x80 && 0xF0u8 & 0xE0 != 0xC0 && 0xF0u8
                        & 0xF0 != 0xE0 && u == n
                }) by (bit_vector)
                    requires
                        n >= 4096u32,
                ;
                assert forall|k: int| 0 <= k < b.len() implies s.subrange(
                    off + 5,
                    off + 5 + n,
                )[k] == b[k] by {
                    assert(sub[5 + k] == e[5 + k]);
                }
                assert(s.subrange(off + 5, off + 5 + n) =~= b);
            }
        },
    }
}

} // verus!
