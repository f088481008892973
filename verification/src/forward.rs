//! The decisions of the forwarding loop, apart from the sending it decides on.

use vstd::prelude::*;

verus! {

/// How many times a forwarded query is sent at most.
pub const MAX_TRANSMISSION_ATTEMPTS: usize = 10;

/// What became of one attempt to send a forwarded query.
#[derive(Clone, Copy, Debug, PartialEq, Eq, Structural)]
pub enum SendOutcome {
    /// The socket took this many bytes.
    Sent(usize),
    /// The socket reported an error.
    Failed,
}

/// What to do after an attempt to send.
#[derive(Clone, Copy, Debug, PartialEq, Eq, Structural)]
pub enum TransmitAction {
    /// Send the query again.
    Retry,
    /// Stop sending.
    Stop,
}

/// Whether sending stops after attempt number `attempts` (counted from one)
/// ended with `outcome`: it stops on an error, once the whole query was taken,
/// and after the last allowed attempt.
pub open spec fn spec_transmit_stops(attempts: usize, outcome: SendOutcome, message_len: usize) -> bool {
    ||| outcome is Failed
    ||| outcome == SendOutcome::Sent(message_len)
    ||| attempts >= MAX_TRANSMISSION_ATTEMPTS
}

/// Decides what follows attempt number `attempts` (counted from one) at sending a
/// forwarded query of `message_len` bytes.
pub fn next_transmit_action(attempts: usize, outcome: SendOutcome, message_len: usize) -> (action: TransmitAction)
    ensures
        (action == TransmitAction::Stop) == spec_transmit_stops(attempts, outcome, message_len),
{
    match outcome {
        SendOutcome::Sent(sent_bytes) => {
            if sent_bytes == message_len || attempts >= MAX_TRANSMISSION_ATTEMPTS {
                TransmitAction::Stop
            } else {
                TransmitAction::Retry
            }
        },
        SendOutcome::Failed => TransmitAction::Stop,
    }
}

} // verus!
