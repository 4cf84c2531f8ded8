//! A log record and what it costs to hold one.

use vstd::prelude::*;
use vstd::utf8::encode_utf8;
use crate::level::Level;

verus! {

/// Bytes counted for a record's timestamp.
pub const TIMESTAMP_BYTES: u64 = 8;

/// One log record. Records are ordered by `timestamp` (milliseconds since the
/// Unix epoch, UTC) alone.
#[derive(Clone, Debug)]
pub struct Message {
    pub timestamp: i64,
    pub system: String,
    pub level: Level,
    pub value: String,
}

/// How many bytes `s` takes in UTF-8, as `str::len` reports it.
pub open spec fn byte_len(s: Seq<char>) -> nat {
    (encode_utf8(s).len() as usize) as nat
}

/// What holding `m` counts against a store's budget: its text, its source
/// name and its timestamp.
pub open spec fn record_cost(m: Message) -> nat {
    byte_len(m.value@) + byte_len(m.system@) + TIMESTAMP_BYTES as nat
}

impl Message {
    pub fn new(timestamp: i64, system: String, level: Level, value: String) -> (r: Message)
        ensures
            r == (Message { timestamp, system, level, value }),
    {
        Message { timestamp, system, level, value }
    }

    /// A copy with the same fields.
    pub fn duplicate(&self) -> (r: Message)
        ensures
            r == *self,
    {
        Message {
            timestamp: self.timestamp,
            system: self.system.clone(),
            level: self.level,
            value: self.value.clone(),
        }
    }

    /// The record's cost, when it fits in a `u64`.
    pub fn byte_cost(&self) -> (r: Option<u64>)
        ensures
            r == (if record_cost(*self) <= u64::MAX {
                Some(record_cost(*self) as u64)
            } else {
                None::<u64>
            }),
    {
        let v = self.value.as_str().len();
        let s = self.system.as_str().len();
        proof {
            assert(v == byte_len(self.value@));
            assert(s == byte_len(self.system@));
        }
        let vs = (v as u64).checked_add(s as u64);
        match vs {
            None => None,
            Some(x) => x.checked_add(TIMESTAMP_BYTES),
        }
    }
}

} // verus!
