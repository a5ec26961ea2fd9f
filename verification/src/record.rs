//! Record-level types: the validated key-value record handed to the
//! writer, loaded pack data, and the cursors that pin packs in memory
//! while readers hold them.

use vstd::prelude::*;

use std::rc::Rc;

use crate::codec::Value;
use crate::id::StreamID;
use crate::listpack::Listpack;
use crate::stream::Pack;
use crate::stream::StreamError;

verus! {

/// A master entry's shape: how many fields it names and its entry length.
pub struct MasterRecord {
    pub fields: usize,
    pub len: u16,
}

/// One record as a caller presents it: an identifier and a flat key-value
/// list, names at even positions.
pub struct Record {
    pub id: StreamID,
    pub kv: Vec<Value>,
}

impl Record {
    /// A key-value list must pair every name with a value: an odd list is
    /// `BadInput`, anything else — the empty list included — is fine.
    pub fn validate(&self) -> (r: Option<StreamError>)
        ensures
            r is Some <==> self.kv@.len() % 2 == 1,
            r matches Some(e) ==> e == StreamError::BadInput,
    {
        if self.kv.len() % 2 != 0 {
            Some(StreamError::BadInput)
        } else {
            None
        }
    }
}

/// A pack's contents once loaded: a plain listpack.
pub struct PackData {
    pub lp: Listpack,
}

/// A cursor that pins its pack in memory: while it exists the pack, and
/// transitively the pack's segment, stay loaded. The element position is
/// kept as an offset, since element addresses move as the pack grows.
pub struct StrongPackCursor {
    pub last_accessed: u64,
    pub pack: Rc<Pack>,
    pub ele: usize,
}

impl StrongPackCursor {
    /// Give up the pin: under memory pressure all strong cursors can be
    /// downgraded so the pack becomes reclaimable; a downgraded cursor
    /// must check on resume whether its pack is still loaded.
    pub fn downgrade(&self) -> (r: WeakPackCursor)
        ensures
            r.last_accessed == self.last_accessed,
            r.ele == self.ele,
            r.pack is None,
    {
        WeakPackCursor {
            last_accessed: self.last_accessed,
            pack: None,
            ele: self.ele,
        }
    }
}

/// Standardized control fields a consumer-group record carries on top of
/// the plain record format: an optional acknowledgement deadline and an
/// optional delivery delay.
pub struct CGRecord {
    pub deadline: Option<u64>,
    pub delay: Option<i64>,
}

/// A cursor that no longer pins its pack: it remembers its position, and
/// the pack handle is filled back in only if the pack is found loaded when
/// the cursor resumes.
pub struct WeakPackCursor {
    pub last_accessed: u64,
    pub pack: Option<Rc<Pack>>,
    pub ele: usize,
}

} // verus!
