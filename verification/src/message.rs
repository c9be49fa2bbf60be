//! The message model.

use vstd::prelude::*;

verus! {

/// One chat message. `timestamp` counts the milliseconds since the Unix epoch
/// at which the message was made; `from` and `to` are connection tokens.
#[derive(Debug, PartialEq, Eq, Hash)]
pub struct Message {
    pub timestamp: i64,
    pub from: usize,
    pub to: usize,
    pub content: String,
}

impl Clone for Message {
    fn clone(&self) -> (copy: Self)
        ensures
            copy == *self,
    {
        Message {
            timestamp: self.timestamp,
            from: self.from,
            to: self.to,
            content: self.content.clone(),
        }
    }
}

/// Reads the clock: `chrono::Utc::now()`, as `timestamp_millis()` counts it,
/// in milliseconds since the Unix epoch. Nothing is known of the reading,
/// and two readings need not agree. `now` panics where the system clock
/// stands before the Unix epoch.
#[verifier::external_body]
pub(crate) fn clock_millis() -> (now: i64)
{
    chrono::Utc::now().timestamp_millis()
}

impl Message {
    /// The message from `from` to `to` made at `timestamp`.
    pub fn stamped(timestamp: i64, from: usize, to: usize, content: String) -> (message: Message)
        ensures
            message == (Message { timestamp, from, to, content }),
    {
        Message { timestamp, from, to, content }
    }

    /// The message from `from` to `to`, stamped with the time of the call.
    pub fn generate(from: usize, to: usize, content: String) -> (message: Message)
        ensures
            message == (Message { timestamp: message.timestamp, from, to, content }),
    {
        Message::stamped(clock_millis(), from, to, content)
    }
}

} // verus!
