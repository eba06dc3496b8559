//! The decisions of the packet sender and receiver, apart from their sockets:
//! how long the sender waits between packets, what the receiver does with each
//! outcome of a read, and whether another connection attempt is due.
use vstd::prelude::*;

verus! {

/// Nanoseconds in a second.
pub const NANOS_PER_SEC: u64 = 1_000_000_000;

/// The wait between two packets sent at `rate_pps` packets per second; no wait
/// when the rate is not positive (unlimited).
pub fn send_delay_ns(rate_pps: i32) -> (d: Option<u64>)
    ensures
        rate_pps > 0 ==> d == Some((NANOS_PER_SEC / rate_pps as u64) as u64),
        rate_pps <= 0 ==> d is None,
{
    if rate_pps > 0 {
        Some(NANOS_PER_SEC / rate_pps as u64)
    } else {
        None
    }
}

/// Whether the sender puts a packet on the wire: empty packets are skipped.
pub fn should_send(message_count: usize) -> (b: bool)
    ensures
        b == (message_count > 0),
{
    message_count > 0
}

/// The outcome of one read from the sender's connection.
pub enum ReadOutcome {
    /// A whole packet arrived.
    Packet,
    /// The sender closed the connection after its last packet.
    Closed,
    /// No data within the read timeout.
    TimedOut,
    /// The connection ended in the middle of a packet.
    Eof,
    /// Any other read error.
    Failed,
}

/// What the receiver does next.
pub enum ReceiverAction {
    /// Hand the packet to the processor, then read again.
    Deliver,
    /// Read again.
    ReadAgain,
    /// Stop receiving.
    Stop,
}

/// How many more read errors than this make the receiver give up.
pub const MAX_READ_ERRORS: usize = 100;

/// The receiver's counts: packets delivered, read errors seen.
pub struct ReceiverState {
    pub packets: usize,
    pub errors: usize,
}

/// One step of the receiver: a packet is delivered and counted; a close or an
/// end of stream stops it; a timeout reads again; an error is counted, and the
/// receiver stops once it has seen more than `MAX_READ_ERRORS` of them.
pub fn receiver_step(state: ReceiverState, outcome: ReadOutcome) -> (r: (ReceiverState, ReceiverAction))
    requires
        outcome is Packet ==> state.packets < usize::MAX,
        outcome is Failed ==> state.errors < usize::MAX,
    ensures
        match outcome {
            ReadOutcome::Packet => r.1 is Deliver && r.0.errors == state.errors && r.0.packets
                == state.packets + 1,
            ReadOutcome::Closed | ReadOutcome::Eof => r.1 is Stop && r.0 == state,
            ReadOutcome::TimedOut => r.1 is ReadAgain && r.0 == state,
            ReadOutcome::Failed => r.0.packets == state.packets && r.0.errors == state.errors + 1
                && (if r.0.errors > MAX_READ_ERRORS {
                r.1 is Stop
            } else {
                r.1 is ReadAgain
            }),
        },
{
    match outcome {
        ReadOutcome::Packet => (
            ReceiverState { packets: state.packets + 1, errors: state.errors },
            ReceiverAction::Deliver,
        ),
        ReadOutcome::Closed | ReadOutcome::Eof => (state, ReceiverAction::Stop),
        ReadOutcome::TimedOut => (state, ReceiverAction::ReadAgain),
        ReadOutcome::Failed => {
            let errors = state.errors + 1;
            let action = if errors > MAX_READ_ERRORS {
                ReceiverAction::Stop
            } else {
                ReceiverAction::ReadAgain
            };
            (ReceiverState { packets: state.packets, errors }, action)
        },
    }
}

/// Whether another connection attempt is due after `attempts` failed ones: always
/// while the receiver runs, when `retry_count` is negative (retry forever);
/// otherwise only for the first `retry_count` attempts.
pub fn connect_attempt_due(attempts: u64, retry_count: i32, running: bool) -> (b: bool)
    ensures
        retry_count < 0 ==> b == running,
        retry_count >= 0 ==> b == (attempts < retry_count as u64),
{
    if retry_count < 0 {
        running
    } else {
        attempts < retry_count as u64
    }
}

/// Seconds between connection attempts: the configured interval, at least one.
pub fn retry_interval_secs(interval: u64) -> (s: u64)
    ensures
        s == if interval >= 1 {
            interval
        } else {
            1
        },
{
    if interval >= 1 {
        interval
    } else {
        1
    }
}

} // verus!
