//! The receiving side: heartbeat scheduling and the decision taken
//! for each message the subscriber loop observes.

use vstd::prelude::*;
use crate::codec;

verus! {

/// How long the client stays silent before it owes a heartbeat, in
/// milliseconds.
pub const HEARTBEAT_MILLIS: i64 = 20_000;

/// Timestamps are well inside this bound; requiring it keeps the
/// delay arithmetic exact without widening.
pub const MAX_CLOCK_MILLIS: i64 = 0x4000_0000_0000_0000;

/// How long to wait before the next heartbeat is due: the heartbeat
/// interval less the time already spent silent, and never negative.
/// Any outbound send resets `last_sent`, so a just-sent frame
/// suppresses a redundant heartbeat.
pub fn heartbeat_delay(now: i64, last_sent: i64) -> (r: u64)
    requires
        0 <= now < MAX_CLOCK_MILLIS,
        0 <= last_sent < MAX_CLOCK_MILLIS,
    ensures
        now - last_sent >= HEARTBEAT_MILLIS ==> r == 0,
        now - last_sent < HEARTBEAT_MILLIS ==> r == HEARTBEAT_MILLIS - (now - last_sent),
{
    let diff: i64 = now - last_sent;
    if diff >= HEARTBEAT_MILLIS {
        0
    } else {
        (HEARTBEAT_MILLIS - diff) as u64
    }
}

/// What the receiver loop can observe while it waits.
pub enum ClientEvent {
    /// A binary frame arrived.
    Binary(Vec<u8>),
    /// A non-binary message arrived; it carries nothing.
    OtherMessage,
    /// The read failed without closing the stream.
    ReaderError,
    /// The stream closed.
    ReaderClosed,
    /// The heartbeat deadline passed.
    HeartbeatDue,
}

/// What the receiver loop does next.
pub enum ClientAction {
    /// Write these contents to the file of this name under the
    /// target directory, overwriting what is there.
    StoreFile(Vec<u8>, Vec<u8>),
    /// Log and keep going.
    Ignore,
    /// Send a heartbeat and reset the deadline.
    SendHeartbeat,
    /// Leave the loop and report upward.
    Stop,
}

/// One decision of the receiver loop. A frame that decodes becomes a
/// file write of exactly the decoded name and contents; a malformed
/// frame or a non-binary message is ignored and the loop continues; a
/// closed or erroring read stops it; a due heartbeat sends one.
pub fn client_step(e: &ClientEvent) -> (r: ClientAction)
    ensures
        (e matches ClientEvent::Binary(b) ==> match codec::decode_spec(b@) {
            Ok(p) => r matches ClientAction::StoreFile(n, c) && n@ == p.0 && c@ == p.1,
            Err(_) => r is Ignore,
        }),
        e is OtherMessage ==> r is Ignore,
        e is ReaderError ==> r is Stop,
        e is ReaderClosed ==> r is Stop,
        e is HeartbeatDue ==> r is SendHeartbeat,
{
    match e {
        ClientEvent::Binary(b) => match codec::decode(b) {
            Ok((name, contents)) => ClientAction::StoreFile(name, contents),
            Err(_) => ClientAction::Ignore,
        },
        ClientEvent::OtherMessage => ClientAction::Ignore,
        ClientEvent::ReaderError => ClientAction::Stop,
        ClientEvent::ReaderClosed => ClientAction::Stop,
        ClientEvent::HeartbeatDue => ClientAction::SendHeartbeat,
    }
}

} // verus!
