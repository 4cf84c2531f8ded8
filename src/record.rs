//! Turning the fields of one log line into a record, and writing a record's
//! timestamp for display. Both lean on chrono.

use vstd::prelude::*;
use vstd::string::*;
use crate::level::{Level, level_named};
use crate::message::Message;

verus! {

/// The instant an RFC 3339 text names, in milliseconds since the Unix epoch,
/// when chrono reads the text.
pub uninterp spec fn rfc3339_millis(s: Seq<char>) -> Option<i64>;

/// How chrono writes the instant `millis` (milliseconds since the Unix
/// epoch, UTC) with the format `%+`, when the instant is in its range.
pub uninterp spec fn timestamp_text(millis: i64) -> Option<Seq<char>>;

/// Relies on `chrono::DateTime::parse_from_rfc3339` and `timestamp_millis`:
/// the instant read depends on the text alone.
#[verifier::external_body]
fn parse_rfc3339(s: &str) -> (r: Option<i64>)
    ensures
        r == rfc3339_millis(s@),
{
    match chrono::DateTime::parse_from_rfc3339(s) {
        Ok(t) => Some(t.timestamp_millis()),
        Err(_) => None,
    }
}

/// Relies on `chrono::DateTime::<Utc>::from_timestamp_millis` and `format`:
/// the text depends on the instant alone.
#[verifier::external_body]
fn format_timestamp(millis: i64) -> (r: Option<String>)
    ensures
        match r {
            Some(t) => timestamp_text(millis) == Some(t@),
            None => timestamp_text(millis) is None,
        },
{
    match chrono::DateTime::<chrono::Utc>::from_timestamp_millis(millis) {
        Some(t) => Some(t.format("%+").to_string()),
        None => None,
    }
}

/// The text shown for a timestamp: chrono's `%+` text, or nothing when the
/// instant is out of chrono's range.
pub open spec fn shown_time(millis: i64) -> Seq<char> {
    match timestamp_text(millis) {
        Some(t) => t,
        None => Seq::empty(),
    }
}

/// The timestamp of `m` as shown in the viewport.
pub fn time_text(m: &Message) -> (r: String)
    ensures
        r@ == shown_time(m.timestamp),
{
    match format_timestamp(m.timestamp) {
        Some(t) => t,
        None => String::new(),
    }
}

/// The fields of one log line, as read from its JSON object.
pub struct LogFields {
    pub timestamp: String,
    pub message: String,
    pub stack: String,
    pub stack_trace: String,
    pub level: String,
    pub application: String,
}

/// A record's text: the message, the stack and the stack trace, joined.
pub open spec fn record_text(f: LogFields) -> Seq<char> {
    f.message@ + f.stack@ + f.stack_trace@
}

/// Builds the record of a log line: `None` when the timestamp is not RFC 3339
/// or the level is not one of the four names.
pub fn parse_log_entry(f: &LogFields) -> (r: Option<Message>)
    ensures
        r is Some <==> (rfc3339_millis(f.timestamp@) is Some && level_named(f.level@) is Ok),
        r matches Some(m) ==> {
            &&& Some(m.timestamp) == rfc3339_millis(f.timestamp@)
            &&& Ok::<Level, ()>(m.level) == level_named(f.level@)
            &&& m.system@ == f.application@
            &&& m.value@ == record_text(*f)
        },
{
    let t = match parse_rfc3339(f.timestamp.as_str()) {
        Some(t) => t,
        None => return None,
    };
    let level = match Level::from_str(f.level.as_str()) {
        Ok(l) => l,
        Err(_) => return None,
    };
    let mut value = f.message.clone();
    value.append(f.stack.as_str());
    value.append(f.stack_trace.as_str());
    Some(Message { timestamp: t, system: f.application.clone(), level, value })
}

} // verus!
