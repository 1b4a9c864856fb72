//! The byte link to the bootloader, and the clock that bounds waits on it.

use vstd::prelude::*;

verus! {

/// What a read or write on a [`Transport`] can fail with.
#[derive(Debug, Clone, PartialEq, Eq)]
pub enum TransportError {
    /// No byte arrived within the transport's per-read timeout.
    TimedOut,
    /// Any other failure of the link, with its description.
    Io(String),
}

/// A byte-oriented, half-duplex link to the bootloader, normally a serial
/// port opened at 8 data bits, no parity, one stop bit and no flow control.
pub trait Transport {
    /// Sets how long one read may wait for a byte, in milliseconds.
    fn set_timeout_ms(&mut self, ms: u64) -> Result<(), TransportError>;

    /// Writes all of `data`.
    fn write_all(&mut self, data: &[u8]) -> Result<(), TransportError>;

    /// Pushes what was written out onto the line.
    fn flush(&mut self) -> Result<(), TransportError>;

    /// Reads one byte; `Ok(None)` when the stream has ended.
    fn read_byte(&mut self) -> Result<Option<u8>, TransportError>;
}

/// std's monotonic clock reading, carried opaquely: it only bounds how long
/// an acknowledgement is waited for.
#[verifier::external_type_specification]
#[verifier::external_body]
pub struct ExInstant(std::time::Instant);

/// Relies on std::time::Instant::now: a reading of the monotonic clock.
pub assume_specification[ std::time::Instant::now ]() -> std::time::Instant;

/// Relies on std::time::Instant::elapsed: the time since an earlier reading.
pub assume_specification[ std::time::Instant::elapsed ](i: &std::time::Instant) -> core::time::Duration;

/// Relies on core::time::Duration::as_millis: a duration in whole milliseconds.
pub assume_specification[ core::time::Duration::as_millis ](d: &core::time::Duration) -> u128;

} // verus!
