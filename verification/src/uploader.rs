//! The device upload protocol: writes a two-byte big-endian length prefix and
//! the encoded payload to a byte channel, then waits for a single-byte
//! acknowledgement under a deadline, polling with short-timeout reads.

use vstd::prelude::*;
use crate::encoder::{encode, spec_encode, EncodeError};
use crate::profile::Profile;

verus! {

/// The device's fixed EEPROM budget: the byte count a payload may not exceed.
pub const MAX_EEPROM_BYTES: usize = 1064;

/// The acknowledgement deadline: how long the uploader keeps polling for a
/// byte before giving up, chosen to accommodate slow device-side flash
/// writes.
pub const ACK_TIMEOUT_MILLIS: u64 = 70000;

/// A cap on read attempts per wait, so that the polling loop terminates even
/// against a clock that never advances; each attempt already carries the
/// channel's own short read timeout, so the cap is far beyond any reachable
/// poll count within the deadline.
pub const MAX_POLL_ATTEMPTS: u64 = 1000000000;

/// A transport fault reported by the channel, with the underlying cause.
#[derive(Clone, Debug, PartialEq, Eq)]
pub struct ChannelError {
    pub message: String,
}

/// Why an upload failed.
#[derive(Clone, Debug, PartialEq, Eq)]
pub enum UploadError {
    /// The codec rejected the profiles; carries the codec's error.
    Encoding(EncodeError),
    /// The encoded payload exceeds the device's EEPROM budget; carries the
    /// payload size. Detected before any channel write.
    PayloadTooLarge { size: usize },
    /// A channel write failed; carries the underlying cause.
    Transport(ChannelError),
    /// No acknowledgement byte arrived before the deadline.
    AckTimeout,
    /// The device answered something other than the zero ACK byte.
    UnexpectedAck(u8),
}

/// The byte channel to the device: a write, a single-byte read attempt that
/// carries an implementation-defined short timeout, and a monotonic
/// millisecond clock for the acknowledgement deadline. The concrete serial
/// transport implements this outside the library; tests implement it with
/// in-memory doubles. Nothing is assumed of any outcome.
pub trait ByteChannel {
    /// Writes all of `data`, or reports a transport fault.
    fn write_bytes(&mut self, data: &Vec<u8>) -> Result<(), ChannelError>;

    /// Attempts to read one byte, giving up quickly when none is available.
    fn try_read_byte(&mut self) -> Option<u8>;

    /// Milliseconds of a monotonic clock.
    fn now_millis(&mut self) -> u64;
}

/// The acknowledgement wait state machine of one poll step.
#[derive(Clone, Copy, Debug, PartialEq, Eq, Structural)]
pub enum AckWaitState {
    /// No byte yet, deadline not reached: poll again.
    Waiting,
    /// A byte arrived; a read past the deadline still counts.
    Acked(u8),
    /// The deadline passed with no byte read.
    TimedOut,
}

/// One poll step: a successful read acknowledges regardless of the clock; a
/// failed read times out exactly when the deadline has elapsed.
pub open spec fn spec_ack_step(read: Option<u8>, elapsed: u64, deadline: u64) -> AckWaitState {
    match read {
        Some(b) => AckWaitState::Acked(b),
        None => if elapsed >= deadline {
            AckWaitState::TimedOut
        } else {
            AckWaitState::Waiting
        },
    }
}

pub fn ack_step(read: Option<u8>, elapsed_millis: u64, deadline_millis: u64) -> (s: AckWaitState)
    ensures
        s == spec_ack_step(read, elapsed_millis, deadline_millis),
{
    match read {
        Some(b) => AckWaitState::Acked(b),
        None => {
            if elapsed_millis >= deadline_millis {
                AckWaitState::TimedOut
            } else {
                AckWaitState::Waiting
            }
        },
    }
}

/// Waits for exactly `count` bytes from the device, polling with the
/// channel's short-timeout reads until the deadline elapses. The deadline
/// timer starts on entry. Fails only by timing out.
pub fn wait_for_bytes<C: ByteChannel>(channel: &mut C, count: usize, deadline_millis: u64) -> (r:
    Result<Vec<u8>, UploadError>)
    ensures
        r matches Ok(v) ==> v@.len() == count,
        r matches Err(e) ==> e == UploadError::AckTimeout,
{
    let start = channel.now_millis();
    let mut received: Vec<u8> = Vec::new();
    let mut attempts_left: u64 = MAX_POLL_ATTEMPTS;
    while received.len() < count
        invariant
            received@.len() <= count,
        decreases attempts_left,
    {
        if attempts_left == 0 {
            return Err(UploadError::AckTimeout);
        }
        attempts_left = attempts_left - 1;
        let read = channel.try_read_byte();
        let now = channel.now_millis();
        let elapsed = if now >= start {
            now - start
        } else {
            0
        };
        match ack_step(read, elapsed, deadline_millis) {
            AckWaitState::Acked(b) => received.push(b),
            AckWaitState::TimedOut => {
                return Err(UploadError::AckTimeout);
            },
            AckWaitState::Waiting => {},
        }
    }
    Ok(received)
}

/// Classifies the device's answer byte: zero is the ACK; anything else is a
/// protocol-level fault carrying the byte.
pub fn classify_ack(byte: u8) -> (r: Result<(), UploadError>)
    ensures
        byte == 0 ==> r == Ok::<(), UploadError>(()),
        byte != 0 ==> r == Err::<(), UploadError>(UploadError::UnexpectedAck(byte)),
{
    if byte == 0 {
        Ok(())
    } else {
        Err(UploadError::UnexpectedAck(byte))
    }
}

/// Waits for the single acknowledgement byte and classifies it.
pub fn wait_for_ack<C: ByteChannel>(channel: &mut C) -> (r: Result<(), UploadError>)
    ensures
        r matches Err(e) ==> (e == UploadError::AckTimeout || (e matches UploadError::UnexpectedAck(
            b,
        ) && b != 0)),
{
    match wait_for_bytes(channel, 1, ACK_TIMEOUT_MILLIS) {
        Err(e) => Err(e),
        Ok(received) => classify_ack(received[0]),
    }
}

/// The two-byte big-endian length prefix that precedes the payload on the
/// wire: high byte first. The size must fit the sixteen-bit field; the
/// uploader's payloads are bounded far below it by the EEPROM budget.
pub fn length_prefix(size: usize) -> (r: Vec<u8>)
    requires
        size < 65536,
    ensures
        r@ == seq![(size / 256) as u8, (size % 256) as u8],
{
    let mut r: Vec<u8> = Vec::new();
    r.push((size / 256) as u8);
    r.push((size % 256) as u8);
    proof {
        assert(r@ =~= seq![(size / 256) as u8, (size % 256) as u8]);
    }
    r
}

/// Encodes the profiles and delivers them to the device: a pre-flight size
/// check against the EEPROM budget, a two-byte big-endian length prefix, the
/// payload, then one acknowledgement. Codec and capacity failures are decided
/// before any channel write; what the channel answers decides the rest. Both
/// byte strings handed to the channel are fixed by contracts: the payload by
/// `encode`'s, the prefix by `length_prefix`'s.
pub fn upload<C: ByteChannel>(profiles: &Vec<Profile>, channel: &mut C) -> (r: Result<
    (),
    UploadError,
>)
    ensures
        spec_encode(profiles@) matches Err(e) ==> r == Err::<(), UploadError>(
            UploadError::Encoding(e),
        ),
        spec_encode(profiles@) matches Ok(payload) ==> {
            &&& (payload.len() > MAX_EEPROM_BYTES ==> r == Err::<(), UploadError>(
                (UploadError::PayloadTooLarge { size: payload.len() as usize }),
            ))
            &&& (payload.len() <= MAX_EEPROM_BYTES ==> match r {
                Ok(u) => true,
                Err(e) => e matches UploadError::Transport(_) || e == UploadError::AckTimeout
                    || e matches UploadError::UnexpectedAck(_),
            })
            &&& (r is Ok ==> payload.len() <= MAX_EEPROM_BYTES)
        },
        r is Ok ==> spec_encode(profiles@) is Ok,
{
    let encoded = match encode(profiles) {
        Ok(v) => v,
        Err(e) => {
            return Err(UploadError::Encoding(e));
        },
    };
    if encoded.len() > MAX_EEPROM_BYTES {
        return Err(UploadError::PayloadTooLarge { size: encoded.len() });
    }
    let prefix = length_prefix(encoded.len());
    match channel.write_bytes(&prefix) {
        Ok(()) => {},
        Err(e) => {
            return Err(UploadError::Transport(e));
        },
    }
    match channel.write_bytes(&encoded) {
        Ok(()) => {},
        Err(e) => {
            return Err(UploadError::Transport(e));
        },
    }
    wait_for_ack(channel)
}

} // verus!
