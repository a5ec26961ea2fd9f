//! Stream record identifiers: 128-bit `(ms, seq)` pairs, totally ordered,
//! generated monotonically from a wall clock with a sequence tie-break, and
//! encoded big-endian so byte-wise key comparison matches numeric order.

use vstd::prelude::*;

verus! {

/// A stream record identifier: wall-clock milliseconds, then a sequence
/// number breaking ties within one millisecond.
#[derive(Clone, Copy, PartialEq, Eq, Structural, Hash, Debug)]
pub struct StreamID {
    pub ms: u64,
    pub seq: u64,
}

impl StreamID {
    /// Total order: compare milliseconds, then sequence.
    pub open spec fn lt_spec(self, other: StreamID) -> bool {
        self.ms < other.ms || (self.ms == other.ms && self.seq < other.seq)
    }

    /// A copy with both words byte-swapped, as the big-endian index key
    /// form stores them.
    pub fn to_big_endian(&self) -> (r: StreamID)
        ensures
            r.ms == bswap64(self.ms),
            r.seq == bswap64(self.seq),
    {
        StreamID { ms: swap_bytes_u64(self.ms), seq: swap_bytes_u64(self.seq) }
    }
}

impl Default for StreamID {
    /// The zero identifier, smaller than every generated one.
    fn default() -> (r: StreamID)
        ensures
            r.ms == 0 && r.seq == 0,
    {
        StreamID { ms: 0, seq: 0 }
    }
}

impl PartialOrd for StreamID {
    fn partial_cmp(&self, other: &StreamID) -> (r: Option<core::cmp::Ordering>) {
        if self.ms > other.ms {
            Some(core::cmp::Ordering::Greater)
        } else if self.ms < other.ms {
            Some(core::cmp::Ordering::Less)
        } else if self.seq > other.seq {
            Some(core::cmp::Ordering::Greater)
        } else if self.seq < other.seq {
            Some(core::cmp::Ordering::Less)
        } else {
            Some(core::cmp::Ordering::Equal)
        }
    }
}

impl vstd::std_specs::cmp::PartialOrdSpecImpl for StreamID {
    open spec fn obeys_partial_cmp_spec() -> bool {
        true
    }

    open spec fn partial_cmp_spec(&self, other: &StreamID) -> Option<core::cmp::Ordering> {
        if self.lt_spec(*other) {
            Some(core::cmp::Ordering::Less)
        } else if other.lt_spec(*self) {
            Some(core::cmp::Ordering::Greater)
        } else {
            Some(core::cmp::Ordering::Equal)
        }
    }
}

/// The byte-reversed image of a 64-bit word.
pub open spec fn bswap64(x: u64) -> u64 {
    ((x & 0xff) << 56u64) | (((x >> 8u64) & 0xff) << 48u64) | (((x >> 16u64) & 0xff) << 40u64) | ((
    (x >> 24u64) & 0xff) << 32u64) | (((x >> 32u64) & 0xff) << 24u64) | (((x >> 40u64) & 0xff)
        << 16u64) | (((x >> 48u64) & 0xff) << 8u64) | (x >> 56u64)
}

/// Reverse the bytes of a 64-bit word.
pub fn swap_bytes_u64(x: u64) -> (r: u64)
    ensures
        r == bswap64(x),
{
    ((x & 0xff) << 56u64) | (((x >> 8u64) & 0xff) << 48u64) | (((x >> 16u64) & 0xff) << 40u64) | ((
    (x >> 24u64) & 0xff) << 32u64) | (((x >> 32u64) & 0xff) << 24u64) | (((x >> 40u64) & 0xff)
        << 16u64) | (((x >> 48u64) & 0xff) << 8u64) | (x >> 56u64)
}

/// Swapping bytes twice gives the word back: big-endian encode and decode
/// are inverses.
pub proof fn lemma_bswap64_involution(x: u64)
    ensures
        bswap64(bswap64(x)) == x,
{
    assert(bswap64(bswap64(x)) == x) by (bit_vector);
}

/// The current time in milliseconds, from a monotonic clock.
///
/// Relies on `time::precise_time_ns`: a monotonic clock reading in
/// nanoseconds; the value depends on when it is called, so nothing is
/// promised of it.
#[verifier::external_body]
pub fn mstime() -> (r: u64) {
    time::precise_time_ns() / 1_000_000
}

/// The next identifier after `last`, given the clock reading `now_ms`:
/// a fresh millisecond restarts the sequence at zero, and the clock is
/// never allowed to move an identifier backward.
pub fn next_id_from(last: &StreamID, now_ms: u64) -> (r: StreamID)
    requires
        last.seq < u64::MAX,
    ensures
        last.lt_spec(r),
        r.ms >= last.ms,
        now_ms > last.ms ==> r.ms == now_ms && r.seq == 0,
        now_ms <= last.ms ==> r.ms == last.ms && r.seq == last.seq + 1,
{
    if now_ms > last.ms {
        StreamID { ms: now_ms, seq: 0 }
    } else {
        StreamID { ms: last.ms, seq: last.seq + 1 }
    }
}

/// Generate the next identifier after `last` from the wall clock: strictly
/// greater than `last` whatever the clock returns; within one millisecond
/// the sequence increments and the millisecond part is unchanged.
pub fn next_id(last: &StreamID) -> (r: StreamID)
    requires
        last.seq < u64::MAX,
    ensures
        last.lt_spec(r),
        r.ms >= last.ms,
        r.ms == last.ms ==> r.seq == last.seq + 1,
        r.ms != last.ms ==> r.seq == 0,
{
    let now = mstime();
    next_id_from(last, now)
}

/// The generated order is strict and transitive: any run of `next_id`
/// results is strictly increasing end to end.
pub proof fn lemma_id_order_transitive(a: StreamID, b: StreamID, c: StreamID)
    requires
        a.lt_spec(b),
        b.lt_spec(c),
    ensures
        a.lt_spec(c),
        !c.lt_spec(a),
        a != c,
{
}

/// The unsigned 64-bit reading of an element value: integers read as
/// themselves, and an eight-byte string as its little-endian word; any
/// other string has no reading.
pub fn try_parse(value: &crate::codec::Value) -> (r: Option<u64>)
    ensures
        value@ matches crate::codec::ValModel::Int(v) ==> r == Some(v as u64),
        value@ matches crate::codec::ValModel::Bytes(b) ==> (if b.len() == 8 {
            r == Some(crate::listpack::bytes_le_val(b) as u64)
        } else {
            r is None
        }),
{
    match value {
        crate::codec::Value::Int(v) => Some(#[verifier::truncate] (*v as u64)),
        crate::codec::Value::String(b) => {
            if b.len() == 8 {
                let w: u64 = b[0] as u64 | (b[1] as u64) << 8u64 | (b[2] as u64) << 16u64 | (
                b[3] as u64) << 24u64 | (b[4] as u64) << 32u64 | (b[5] as u64) << 40u64 | (
                b[6] as u64) << 48u64 | (b[7] as u64) << 56u64;
                proof {
                    let c0 = b@[0];
                    let c1 = b@[1];
                    let c2 = b@[2];
                    let c3 = b@[3];
                    let c4 = b@[4];
                    let c5 = b@[5];
                    let c6 = b@[6];
                    let c7 = b@[7];
                    assert((c0 as u128 | (c1 as u128) << 8u128 | (c2 as u128) << 16u128 | (
                    c3 as u128) << 24u128 | (c4 as u128) << 32u128 | (c5 as u128) << 40u128 | (
                    c6 as u128) << 48u128 | (c7 as u128) << 56u128) as u64 == (c0 as u64 | (
                    c1 as u64) << 8u64 | (c2 as u64) << 16u64 | (c3 as u64) << 24u64 | (c4 as u64)
                        << 32u64 | (c5 as u64) << 40u64 | (c6 as u64) << 48u64 | (c7 as u64)
                        << 56u64)) by (bit_vector);
                }
                Some(w)
            } else {
                None
            }
        },
    }
}

/// The word a delta element denotes against a base: an integer element is
/// a delta added with wrapping, an eight-byte string the full word.
pub fn try_parse_master(previous: u64, value: &crate::codec::Value) -> (r: Option<u64>)
    ensures
        value@ matches crate::codec::ValModel::Int(v) ==> r == Some(
            previous.wrapping_add(v as u64),
        ),
        value@ matches crate::codec::ValModel::Bytes(b) ==> (if b.len() == 8 {
            r == Some(crate::listpack::bytes_le_val(b) as u64)
        } else {
            r is None
        }),
{
    match value {
        crate::codec::Value::Int(v) => Some(
            previous.wrapping_add(#[verifier::truncate] (*v as u64)),
        ),
        crate::codec::Value::String(_) => try_parse(value),
    }
}

} // verus!
