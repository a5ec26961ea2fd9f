//! Command-layer helpers: the decimal argument parser and the marker types
//! for the commands a host would register.

use vstd::prelude::*;
use vstd::string::StringExecFns;
use vstd::string::StringSliceAdditionalSpecFns;

use crate::error::SlicedError;

verus! {

/// All bytes are ASCII decimal digits, and there is at least one.
pub open spec fn dec_digits_ok(s: Seq<u8>) -> bool {
    s.len() > 0 && forall|i: int| 0 <= i < s.len() ==> 0x30 <= #[trigger] s[i] <= 0x39
}

/// The non-negative integer a run of decimal digit bytes denotes.
pub open spec fn dec_value(s: Seq<u8>) -> int
    decreases s.len(),
{
    if s.len() == 0 {
        0
    } else {
        dec_value(s.drop_last()) * 10 + (s.last() - 0x30)
    }
}

/// Digit strings denote non-negative values, and longer prefixes denote
/// at least as much as shorter ones.
pub proof fn lemma_dec_value_monotonic(s: Seq<u8>, i: int, j: int)
    requires
        forall|k: int| 0 <= k < s.len() ==> 0x30 <= #[trigger] s[k] <= 0x39,
        0 <= i <= j <= s.len(),
    ensures
        0 <= dec_value(s.take(i)) <= dec_value(s.take(j)),
    decreases j - i,
{
    if i == j {
        lemma_dec_value_nonneg(s.take(i));
    } else {
        lemma_dec_value_monotonic(s, i, j - 1);
        assert(s.take(j).drop_last() =~= s.take(j - 1));
        assert(0x30 <= s.take(j).last() <= 0x39);
    }
}

/// A digit string's value is never negative.
pub proof fn lemma_dec_value_nonneg(s: Seq<u8>)
    requires
        forall|k: int| 0 <= k < s.len() ==> 0x30 <= #[trigger] s[k] <= 0x39,
    ensures
        dec_value(s) >= 0,
    decreases s.len(),
{
    if s.len() > 0 {
        assert(s.drop_last() =~= s.take(s.len() - 1));
        lemma_dec_value_nonneg(s.drop_last());
    }
}

/// Whether the byte string is a well-formed decimal `i64`: an optional
/// sign, then digits, with the value in range.
pub open spec fn parse_i64_ok(s: Seq<u8>) -> bool {
    if s.len() > 0 && s[0] == 0x2D {
        dec_digits_ok(s.skip(1)) && dec_value(s.skip(1)) <= 0x8000_0000_0000_0000
    } else if s.len() > 0 && s[0] == 0x2B {
        dec_digits_ok(s.skip(1)) && dec_value(s.skip(1)) <= i64::MAX
    } else {
        dec_digits_ok(s) && dec_value(s) <= i64::MAX
    }
}

/// The `i64` a well-formed decimal byte string denotes.
pub open spec fn parse_i64_value(s: Seq<u8>) -> int {
    if s.len() > 0 && s[0] == 0x2D {
        -dec_value(s.skip(1))
    } else if s.len() > 0 && s[0] == 0x2B {
        dec_value(s.skip(1))
    } else {
        dec_value(s)
    }
}

/// Accumulate the value of the digit bytes `s[from..]`, stopping early
/// with `None` once the magnitude passes `limit`.
fn dec_accumulate(s: &[u8], from: usize, limit: u64) -> (r: Option<u64>)
    requires
        from <= s@.len(),
        limit <= 0x8000_0000_0000_0000,
        dec_digits_ok(s@.skip(from as int)),
    ensures
        r matches Some(v) ==> v == dec_value(s@.skip(from as int)) && v <= limit,
        r is None ==> dec_value(s@.skip(from as int)) > limit,
{
    let n = s.len();
    let ghost digits = s@.skip(from as int);
    let mut acc: u64 = 0;
    let mut i: usize = from;
    proof {
        assert(digits.take(0) =~= Seq::<u8>::empty());
    }
    while i < n
        invariant
            from <= i <= n,
            n == s@.len(),
            digits == s@.skip(from as int),
            dec_digits_ok(digits),
            limit <= 0x8000_0000_0000_0000,
            acc == dec_value(digits.take(i - from)),
            acc <= limit,
        decreases n - i,
    {
        let d = s[i];
        proof {
            assert(digits[i - from] == s@[i as int]);
            assert(0x30 <= digits[i - from] <= 0x39);
            assert(digits.take(i + 1 - from).drop_last() =~= digits.take(i - from));
        }
        let wide: u128 = acc as u128 * 10 + (d - 0x30) as u128;
        if wide > limit as u128 {
            proof {
                lemma_dec_value_monotonic(digits, i + 1 - from, digits.len() as int);
                assert(digits.take(digits.len() as int) =~= digits);
            }
            return None;
        }
        acc = wide as u64;
        i = i + 1;
    }
    proof {
        assert(digits.take(n - from) =~= digits);
    }
    Some(acc)
}

/// Whether every byte of `s[from..]` is a decimal digit, with at least
/// one byte present.
fn check_digits(s: &[u8], from: usize) -> (r: bool)
    requires
        from <= s@.len(),
    ensures
        r == dec_digits_ok(s@.skip(from as int)),
{
    let n = s.len();
    if from == n {
        return false;
    }
    let mut i: usize = from;
    while i < n
        invariant
            from <= i <= n,
            n == s@.len(),
            forall|k: int| 0 <= k < i - from ==> 0x30 <= #[trigger] s@.skip(from as int)[k] <= 0x39,
        decreases n - i,
    {
        let d = s[i];
        if d < 0x30 || d > 0x39 {
            proof {
                assert(s@.skip(from as int)[i - from] == s@[i as int]);
            }
            return false;
        }
        proof {
            assert(s@.skip(from as int)[i - from] == s@[i as int]);
        }
        i = i + 1;
    }
    true
}

/// Parse a decimal `i64` from a command argument: an optional sign, then
/// digits; `Ok` exactly when the text is well formed and in range, and a
/// `ParseInt` error carrying the offending text otherwise.
pub fn parse_i64(arg: &str) -> (r: Result<i64, SlicedError>)
    ensures
        parse_i64_ok(arg.spec_bytes()) ==> (r matches Ok(v) && v == parse_i64_value(
            arg.spec_bytes(),
        )),
        !parse_i64_ok(arg.spec_bytes()) ==> (r matches Err(e) && e matches SlicedError::ParseInt(t)
            && t@ == arg@),
{
    let bytes = arg.as_bytes();
    let n = bytes.len();
    if n == 0 {
        return Err(SlicedError::ParseInt(String::from_str(arg)));
    }
    let first = bytes[0];
    if first == 0x2D {
        if !check_digits(bytes, 1) {
            return Err(SlicedError::ParseInt(String::from_str(arg)));
        }
        match dec_accumulate(bytes, 1, 0x8000_0000_0000_0000) {
            Some(v) => {
                if v == 0x8000_0000_0000_0000 {
                    Ok(i64::MIN)
                } else {
                    Ok(-(v as i64))
                }
            },
            None => Err(SlicedError::ParseInt(String::from_str(arg))),
        }
    } else if first == 0x2B {
        if !check_digits(bytes, 1) {
            return Err(SlicedError::ParseInt(String::from_str(arg)));
        }
        match dec_accumulate(bytes, 1, i64::MAX as u64) {
            Some(v) => Ok(v as i64),
            None => Err(SlicedError::ParseInt(String::from_str(arg))),
        }
    } else {
        proof {
            assert(arg.spec_bytes().skip(0) =~= arg.spec_bytes());
        }
        if !check_digits(bytes, 0) {
            return Err(SlicedError::ParseInt(String::from_str(arg)));
        }
        match dec_accumulate(bytes, 0, i64::MAX as u64) {
            Some(v) => Ok(v as i64),
            None => Err(SlicedError::ParseInt(String::from_str(arg))),
        }
    }
}

/// Appends a record to a stream.
pub struct AddCommand;

/// Deletes records from a stream.
pub struct DelCommand;

/// Trims a stream to a retention bound.
pub struct TrimCommand;

/// Claims pending records for another consumer.
pub struct ClaimCommand;

/// Acknowledges delivered records.
pub struct AckCommand;

/// Manages consumer groups.
pub struct GroupCommand;

/// Administers a stream.
pub struct StreamCommand;

/// Reports storage statistics.
pub struct StatsCommand;

/// Controls the background I/O service.
pub struct IOCommand;

/// Internal plumbing used for replication and persistence hooks.
pub struct InternalCommand;

/// Copies records into a host-native stream.
pub struct CopyToCommand;

/// Copies records out of a host-native stream and trims the source once
/// they are persisted.
pub struct CopyTrimCommand;

/// Rate limiting as a host command.
pub struct ThrottleCommand {}

} // verus!
