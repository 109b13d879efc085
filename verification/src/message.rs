//! The feed's message variants and the record this system persists.

use vstd::prelude::*;
use crate::codec::{wire_ok, wire_value, slack_ts_to_unix_micros};

verus! {

/// One element of a fetched batch, as the feed's tagged message variants
/// reach this system: either the plain user-authored text message, or any
/// other feed event (a join, a leave, a topic change, a bot message, ...).
/// Every variant carries the feed's wire timestamp field; only the standard
/// variant exposes a text body and is eligible for persistence.
pub enum MessageVariant {
    /// The feed's plain user-authored text message.
    Standard { ts: Option<String>, user: Option<String>, text: Option<String> },
    /// Any other feed event; only its timestamp is read, for cursor
    /// advancement.
    Event { ts: Option<String> },
}

/// The wire timestamp field a variant carries, when present.
pub open spec fn variant_wire_ts(m: MessageVariant) -> Option<Seq<char>> {
    match m {
        MessageVariant::Standard { ts, .. } => match ts {
            Some(s) => Some(s@),
            None => None,
        },
        MessageVariant::Event { ts } => match ts {
            Some(s) => Some(s@),
            None => None,
        },
    }
}

/// The microsecond timestamp of a variant, when its wire timestamp is
/// present and parses.
pub open spec fn variant_ts_micros(m: MessageVariant) -> Option<u64> {
    match variant_wire_ts(m) {
        Some(s) => if wire_ok(s) {
            Some(wire_value(s) as u64)
        } else {
            None
        },
        None => None,
    }
}

/// Extracts the timestamp any variant carries, independent of whether the
/// variant itself gets persisted; `None` when the field is absent or does
/// not parse.
pub fn message_ts(message: &MessageVariant) -> (r: Option<u64>)
    ensures
        r == variant_ts_micros(*message),
{
    let ts: &Option<String> = match message {
        MessageVariant::Standard { ts, .. } => ts,
        MessageVariant::Event { ts } => ts,
    };
    match ts {
        Some(s) => match slack_ts_to_unix_micros(s.as_str()) {
            Ok(v) => Some(v),
            Err(_) => None,
        },
        None => None,
    }
}

/// One persisted message: the unit the store holds, keyed by
/// `(channel_id, ts)`.
pub struct Record {
    /// Opaque identifier of the source channel.
    pub channel_id: String,
    /// Microseconds since the epoch; unique per channel.
    pub ts: u64,
    /// Opaque identifier of the sender.
    pub author: String,
    /// Free-form text payload.
    pub body: String,
}

/// The mathematical value of a `Record`.
pub ghost struct RecordV {
    pub channel_id: Seq<char>,
    pub ts: u64,
    pub author: Seq<char>,
    pub body: Seq<char>,
}

impl View for Record {
    type V = RecordV;

    open spec fn view(&self) -> RecordV {
        RecordV {
            channel_id: self.channel_id@,
            ts: self.ts,
            author: self.author@,
            body: self.body@,
        }
    }
}

/// A variant is persisted only if it is the standard text message, its wire
/// timestamp parses, and it carries a sender and a text body; every other
/// variant is recognized but discarded (filtered, not failed).
pub open spec fn persistable(m: MessageVariant) -> bool {
    match m {
        MessageVariant::Standard { ts, user, text } => {
            &&& variant_ts_micros(m) is Some
            &&& user is Some
            &&& text is Some
        },
        MessageVariant::Event { .. } => false,
    }
}

/// The record a persistable variant yields for a channel.
pub open spec fn record_of(channel_id: Seq<char>, m: MessageVariant) -> RecordV {
    RecordV {
        channel_id: channel_id,
        ts: match variant_ts_micros(m) {
            Some(t) => t,
            None => 0,
        },
        author: match m {
            MessageVariant::Standard { user: Some(u), .. } => u@,
            _ => Seq::empty(),
        },
        body: match m {
            MessageVariant::Standard { text: Some(t), .. } => t@,
            _ => Seq::empty(),
        },
    }
}

/// Builds the record a variant contributes to `channel_id`, or `None` for a
/// variant that is filtered: non-standard, unparseable timestamp, or missing
/// sender or body.
pub fn extract_record(channel_id: &str, message: &MessageVariant) -> (r: Option<Record>)
    ensures
        persistable(*message) ==> (r matches Some(rec) && rec@ == record_of(
            channel_id@,
            *message,
        )),
        !persistable(*message) ==> r is None,
{
    match message {
        MessageVariant::Standard { ts: _, user, text } => {
            match (message_ts(message), user, text) {
                (Some(t), Some(u), Some(b)) => Some(
                    Record {
                        channel_id: String::from_str(channel_id),
                        ts: t,
                        author: u.clone(),
                        body: b.clone(),
                    },
                ),
                _ => None,
            }
        },
        MessageVariant::Event { .. } => None,
    }
}

} // verus!
