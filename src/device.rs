//! A chip's bootloader seen through a [`Transport`]: acknowledgement
//! hunting, responses, baud-rate synchronisation and the command set.

use vstd::prelude::*;

use crate::constants::{
    ACK, CC2538_CMD_ERASE, CC2538_CMD_SET_XOSC, CC26X0_CMD_SECTOR_ERASE, CMD_DOWNLOAD,
    CMD_GET_CHIP_ID, CMD_GET_STATUS, CMD_MEMORY_READ, CMD_PING, CMD_SEND_DATA,
    MAX_BYTES_PER_TRANSFER, NACK,
};
use crate::family::Family;
use crate::frame::{
    be32, encode_frame, frame, lemma_be32_of_bytes, push_be32, read_be32, MAX_PAYLOAD_LEN,
};
use crate::transport::{Transport, TransportError};

verus! {

/// How long an acknowledgement may take to arrive, in milliseconds.
pub const ACK_DEADLINE_MS: u128 = 1000;

/// Per-read timeout set on the transport when a device is opened, in
/// milliseconds.
pub const DEFAULT_TIMEOUT_MS: u64 = 200;

/// Failures of an exchange with the bootloader.
#[derive(Debug, Clone, PartialEq, Eq)]
pub enum Error {
    /// The transport failed to read or write.
    Transport(TransportError),
    /// A read found the end of the stream.
    UnexpectedEof,
    /// No acknowledgement arrived before the deadline.
    AckTimeout,
    /// A response header announced `found` payload bytes where `expected`
    /// were asked for.
    ResponseLength { expected: usize, found: usize },
    /// The bootloader answered the command with this opcode with NACK.
    NotAcknowledged(u8),
    /// Baud-rate synchronisation was not acknowledged.
    NotConnected,
    /// The status after the command with opcode `command` was not success.
    Status { command: u8, status: u8 },
    /// A data chunk of a transfer that expects acknowledgements was answered
    /// with NACK.
    ChunkNotAcknowledged { transfer: usize, chunk: usize, address: u32, page: u32 },
    /// The chip reported a flash size smaller than its configuration area.
    FlashSizeTooSmall(u32),
}

impl Error {
    /// A failure of the link itself (transport error, end of stream, missed
    /// deadline, response of the wrong length), as opposed to the bootloader
    /// rejecting a command.
    pub open spec fn is_link_failure(self) -> bool {
        ||| self is Transport
        ||| self is UnexpectedEof
        ||| self is AckTimeout
        ||| self is ResponseLength
    }
}

/// `s` ends with an acknowledgement token: `0x00` and then ACK or NACK.
pub open spec fn ends_with_token(s: Seq<u8>) -> bool {
    s.len() >= 2 && s[s.len() - 2] == 0 && (s.last() == ACK || s.last() == NACK)
}

/// `s` runs up to and including the first acknowledgement token in it.
pub open spec fn ack_reply(s: Seq<u8>) -> bool {
    &&& ends_with_token(s)
    &&& forall|k: int| 0 <= k < s.len() ==> !ends_with_token(#[trigger] s.take(k))
}

/// The token that ends `s` is ACK.
pub open spec fn acknowledged(s: Seq<u8>) -> bool {
    s.last() == ACK
}

/// The two bytes that acknowledge (`ack`) or reject a response.
pub open spec fn ack_bytes(ack: bool) -> Seq<u8> {
    seq![0u8, if ack { ACK } else { NACK }]
}

/// `s` is an acknowledgement reply with ACK, then a response packet
/// `[length, checksum, payload..]` whose length byte counts its header.
pub open spec fn reply_with_response(s: Seq<u8>, payload: Seq<u8>) -> bool {
    let n = s.len() - payload.len() - 2;
    &&& s.len() >= payload.len() + 2
    &&& ack_reply(s.take(n))
    &&& acknowledged(s.take(n))
    &&& s[n] == payload.len() + 2
    &&& s.skip(s.len() - payload.len()) == payload
}

/// No prefix of `s`, `s` itself included, ends with an acknowledgement
/// token: the wait that read `s` found none.
pub open spec fn no_token(s: Seq<u8>) -> bool {
    forall|k: int| 0 <= k <= s.len() ==> !ends_with_token(#[trigger] s.take(k))
}

/// `s` begins with an acknowledgement reply whose token is ACK.
pub open spec fn begins_with_ack(s: Seq<u8>) -> bool {
    exists|k: int| 0 <= k <= s.len() && #[trigger] ack_reply(s.take(k)) && acknowledged(s.take(k))
}

/// `s` ends with `0x00` and NACK.
pub open spec fn ends_with_nack(s: Seq<u8>) -> bool {
    s.len() >= 2 && s[s.len() - 2] == 0 && s.last() == NACK
}

/// `s` ends with `0x00` and ACK.
pub open spec fn ends_with_ack(s: Seq<u8>) -> bool {
    s.len() >= 2 && s[s.len() - 2] == 0 && s.last() == ACK
}

/// The bytes written to make the bootloader latch the host's baud rate.
pub open spec fn auto_baud_bytes() -> Seq<u8> {
    seq![0x55u8, 0x55]
}

proof fn lemma_reply_with_response(reply: Seq<u8>, resp: Seq<u8>, payload: Seq<u8>)
    requires
        ack_reply(reply),
        acknowledged(reply),
        resp.len() == payload.len() + 2,
        resp[0] == payload.len() + 2,
        resp.skip(2) == payload,
    ensures
        reply_with_response(reply + resp, payload),
{
    let s = reply + resp;
    let n = s.len() - payload.len() - 2;
    assert(n == reply.len());
    assert(s.take(n) =~= reply);
    assert(s.skip(s.len() - payload.len()) =~= resp.skip(2));
}

/// The payload of the `Download` command: address and size, big-endian.
pub open spec fn download_payload(address: u32, size: u32) -> Seq<u8> {
    be32(address) + be32(size)
}

/// The payload of the `Erase` command: address and byte count, big-endian.
pub open spec fn erase_payload(address: u32, byte_count: u32) -> Seq<u8> {
    be32(address) + be32(byte_count)
}

/// The payload of the `MemoryRead` command for `count` 32-bit words.
pub open spec fn memory_read_payload(address: u32, count: u8) -> Seq<u8> {
    be32(address) + seq![1u8, count]
}

/// The packet of the `GetStatus` command.
pub open spec fn status_frame() -> Seq<u8> {
    frame(CMD_GET_STATUS, seq![])
}

/// A chip's bootloader, reached through a transport that the device owns.
///
/// Besides the transport the device keeps, as ghost state, every byte it
/// wrote, every byte it read, every command packet it wrote in full, the
/// payload of every response it acknowledged, how many of the written bytes
/// had been flushed at the last flush, the read timeout it set, and whether
/// each wait for an acknowledgement found one.
pub struct Device<P> {
    family: Family,
    port: P,
    sent: Ghost<Seq<u8>>,
    received: Ghost<Seq<u8>>,
    frames: Ghost<Seq<Seq<u8>>>,
    responses: Ghost<Seq<Seq<u8>>>,
    flushed: Ghost<nat>,
    timeout: Ghost<u64>,
    waits: Ghost<Seq<bool>>,
    last_failure: Ghost<Option<Error>>,
}

impl<P> Device<P> {
    pub closed spec fn spec_family(&self) -> Family {
        self.family
    }

    /// Every byte written to the transport, in order.
    pub closed spec fn sent(&self) -> Seq<u8> {
        self.sent@
    }

    /// Every byte read from the transport, in order.
    pub closed spec fn received(&self) -> Seq<u8> {
        self.received@
    }

    /// Every command packet written in full, in order.
    pub closed spec fn frames(&self) -> Seq<Seq<u8>> {
        self.frames@
    }

    /// The payload of every response read and acknowledged, in order.
    pub closed spec fn responses(&self) -> Seq<Seq<u8>> {
        self.responses@
    }

    /// How many of the bytes of [`Device::sent`] had been written when the
    /// transport was last flushed.
    pub closed spec fn flushed(&self) -> nat {
        self.flushed@
    }

    /// The per-read timeout handed to the transport, in milliseconds.
    pub closed spec fn read_timeout_ms(&self) -> u64 {
        self.timeout@
    }

    /// For each wait for an acknowledgement, in order: whether a token
    /// (`0x00` then ACK or NACK) was found.
    pub closed spec fn waits(&self) -> Seq<bool> {
        self.waits@
    }

    /// The last failure of the link itself, as it was reported.
    pub closed spec fn last_failure(&self) -> Option<Error> {
        self.last_failure@
    }

    pub open spec fn waits_since(&self, earlier: &Self) -> Seq<bool> {
        self.waits().skip(earlier.waits().len() as int)
    }

    pub open spec fn responses_since(&self, earlier: &Self) -> Seq<Seq<u8>> {
        self.responses().skip(earlier.responses().len() as int)
    }

    pub open spec fn received_since(&self, earlier: &Self) -> Seq<u8> {
        self.received().skip(earlier.received().len() as int)
    }

    pub open spec fn frames_since(&self, earlier: &Self) -> Seq<Seq<u8>> {
        self.frames().skip(earlier.frames().len() as int)
    }

    /// `self` is `earlier` after further exchanges: same family, and each log
    /// has only grown.
    pub open spec fn extends(&self, earlier: &Self) -> bool {
        &&& self.spec_family() == earlier.spec_family()
        &&& earlier.sent().is_prefix_of(self.sent())
        &&& earlier.received().is_prefix_of(self.received())
        &&& earlier.frames().is_prefix_of(self.frames())
        &&& earlier.responses().is_prefix_of(self.responses())
        &&& earlier.waits().is_prefix_of(self.waits())
        &&& self.read_timeout_ms() == earlier.read_timeout_ms()
    }

    /// Since `earlier`, exactly the packet `f` was written and answered with
    /// one acknowledgement reply, ACK when `acked`.
    pub open spec fn command_acked(&self, earlier: &Self, f: Seq<u8>, acked: bool) -> bool {
        &&& self.frames() == earlier.frames().push(f)
        &&& self.responses() == earlier.responses()
        &&& self.waits() == earlier.waits().push(true)
        &&& self.sent() == earlier.sent() + f
        &&& self.flushed() == self.sent().len()
        &&& ack_reply(self.received_since(earlier))
        &&& acknowledged(self.received_since(earlier)) == acked
    }

    /// Since `earlier`, exactly the packet `f` was written, acknowledged,
    /// answered with `payload`, and the response acknowledged in turn.
    pub open spec fn command_answered(&self, earlier: &Self, f: Seq<u8>, payload: Seq<u8>) -> bool {
        &&& self.frames() == earlier.frames().push(f)
        &&& self.responses() == earlier.responses().push(payload)
        &&& self.waits() == earlier.waits().push(true)
        &&& self.sent() == earlier.sent() + f + ack_bytes(true)
        &&& self.flushed() == self.sent().len()
        &&& reply_with_response(self.received_since(earlier), payload)
    }

    /// The last `n` bytes read.
    pub open spec fn last_received(&self, n: nat) -> Seq<u8> {
        self.received().skip(self.received().len() - n)
    }

    /// After an answered command, the last bytes read are the response
    /// payload.
    pub proof fn lemma_answered_payload(&self, earlier: &Self, f: Seq<u8>, payload: Seq<u8>)
        requires
            self.extends(earlier),
            self.command_answered(earlier, f, payload),
        ensures
            self.last_received(payload.len()) == payload,
    {
        let s = self.received_since(earlier);
        assert(self.received() =~= earlier.received() + s);
        assert(self.last_received(payload.len()) =~= s.skip(s.len() - payload.len()));
    }

    /// After a command answered with NACK, the last two bytes read are
    /// `0x00` and NACK.
    pub proof fn lemma_nack_at_end(&self, earlier: &Self, f: Seq<u8>)
        requires
            self.extends(earlier),
            self.command_acked(earlier, f, false),
        ensures
            ends_with_nack(self.received()),
    {
        let s = self.received_since(earlier);
        assert(self.received() =~= earlier.received() + s);
    }

    /// Closes the device and hands its transport back.
    pub fn into_transport(self) -> P {
        self.port
    }

    /// The family chosen when the device was opened.
    #[verifier::when_used_as_spec(spec_family)]
    pub fn family(&self) -> (r: Family)
        ensures
            r == self.spec_family(),
    {
        self.family
    }
}

impl<P: Transport> Device<P> {
    fn write_bytes(&mut self, data: &[u8]) -> (r: Result<(), Error>)
        ensures
            final(self).family == old(self).family,
            final(self).received@ == old(self).received@,
            final(self).frames@ == old(self).frames@,
            final(self).responses@ == old(self).responses@,
            final(self).waits@ == old(self).waits@,
            final(self).timeout@ == old(self).timeout@,
            final(self).flushed@ == old(self).flushed@,
            r is Ok ==> final(self).sent@ == old(self).sent@ + data@,
            r is Err ==> final(self).sent@ == old(self).sent@,
            r matches Err(e) ==> e.is_link_failure(),
            r matches Err(e) ==> e is Transport,
            r matches Err(e) ==> (e.is_link_failure() ==> final(self).last_failure() == Some(e)),
    {
        match self.port.write_all(data) {
            Ok(()) => {
                self.sent = Ghost(self.sent@ + data@);
                Ok(())
            },
            Err(e) => {
                let err = Error::Transport(e);
                self.last_failure = Ghost(Some(err));
                Err(err)
            },
        }
    }

    fn flush_port(&mut self) -> (r: Result<(), Error>)
        ensures
            r is Ok ==> final(self).flushed@ == final(self).sent@.len(),
            r is Err ==> final(self).flushed@ == old(self).flushed@,
            final(self).family == old(self).family,
            final(self).sent@ == old(self).sent@,
            final(self).received@ == old(self).received@,
            final(self).frames@ == old(self).frames@,
            final(self).responses@ == old(self).responses@,
            final(self).waits@ == old(self).waits@,
            final(self).timeout@ == old(self).timeout@,
            r matches Err(e) ==> e.is_link_failure(),
            r matches Err(e) ==> e is Transport,
            r matches Err(e) ==> (e.is_link_failure() ==> final(self).last_failure() == Some(e)),
    {
        match self.port.flush() {
            Ok(()) => {
                self.flushed = Ghost(self.sent@.len());
                Ok(())
            },
            Err(e) => {
                let err = Error::Transport(e);
                self.last_failure = Ghost(Some(err));
                Err(err)
            },
        }
    }

    /// Writes the packet of `cmd` with payload `data` and flushes it.
    fn write_cmd(&mut self, cmd: u8, data: &[u8]) -> (r: Result<(), Error>)
        requires
            data@.len() <= MAX_PAYLOAD_LEN,
        ensures
            final(self).responses() == old(self).responses(),
            final(self).waits() == old(self).waits(),
            final(self).extends(old(self)),
            final(self).received() == old(self).received(),
            r is Ok ==> final(self).sent() == old(self).sent() + frame(cmd, data@),
            r is Ok ==> final(self).flushed() == final(self).sent().len(),
            r is Ok ==> final(self).frames() == old(self).frames().push(frame(cmd, data@)),
            r is Err ==> final(self).frames() == old(self).frames(),
            r matches Err(e) ==> e.is_link_failure(),
            r matches Err(e) ==> e is Transport,
            r matches Err(e) ==> (e.is_link_failure() ==> final(self).last_failure() == Some(e)),
    {
        let pkt = encode_frame(cmd, data);
        self.write_bytes(pkt.as_slice())?;
        self.flush_port()?;
        self.frames = Ghost(self.frames@.push(pkt@));
        Ok(())
    }

    /// Reads bytes until the last two are `0x00` and ACK (`true`) or NACK
    /// (`false`). A read that times out is passed over; the whole wait is
    /// bounded by [`ACK_DEADLINE_MS`].
    fn scan_ack(&mut self) -> (r: Result<bool, Error>)
        ensures
            final(self).responses() == old(self).responses(),
            final(self).waits() == old(self).waits(),
            final(self).flushed() == old(self).flushed(),
            final(self).extends(old(self)),
            final(self).sent() == old(self).sent(),
            final(self).frames() == old(self).frames(),
            r matches Ok(a) ==> ack_reply(final(self).received_since(old(self)))
                && a == acknowledged(final(self).received_since(old(self))),
            r is Err ==> no_token(final(self).received_since(old(self))),
            r matches Err(e) ==> e.is_link_failure(),
            r matches Err(Error::Transport(e)) ==> !(e is TimedOut),
            r matches Err(e) ==> !(e is ResponseLength),
            r matches Err(e) ==> (e.is_link_failure() ==> final(self).last_failure() == Some(e)),
    {
        let start = std::time::Instant::now();
        let ghost base = self.received@;
        let mut prev: u8 = 0xFF;
        let mut last: u8 = 0xFF;
        // The deadline ends the wait; the count of reads bounds the loop
        // as well, so that it provably ends.
        let mut reads: u64 = 0;
        loop
            invariant
                self.family == old(self).family,
                self.sent@ == old(self).sent@,
                self.frames@ == old(self).frames@,
                self.responses@ == old(self).responses@,
                self.waits@ == old(self).waits@,
                self.flushed@ == old(self).flushed@,
                self.timeout@ == old(self).timeout@,
                base == old(self).received@,
                base.is_prefix_of(self.received@),
                forall|k: int|
                    0 <= k <= self.received@.len() - base.len() ==> !ends_with_token(
                        #[trigger] self.received@.skip(base.len() as int).take(k),
                    ),
                self.received@.len() - base.len() >= 1 ==> last == self.received@.last(),
                self.received@.len() - base.len() >= 2 ==> prev == self.received@[self.received@.len() - 2],
                self.received@.len() - base.len() < 2 ==> prev == 0xFF,
                self.received@.len() - base.len() == 0 ==> last == 0xFF,
            decreases u64::MAX - reads,
        {
            if reads == u64::MAX {
                proof {
                    assert(self.received@.skip(old(self).received@.len() as int)
                        == self.received@.skip(base.len() as int));
                }
                let err = Error::AckTimeout;
                self.last_failure = Ghost(Some(err));
                return Err(err);
            }
            reads = reads + 1;
            let ghost before = self.received@;
            match self.port.read_byte() {
                Ok(Some(b)) => {
                    self.received = Ghost(self.received@.push(b));
                    prev = last;
                    last = b;
                },
                Ok(None) => {
                    let err = Error::UnexpectedEof;
                    self.last_failure = Ghost(Some(err));
                    return Err(err);
                },
                Err(TransportError::TimedOut) => {},
                Err(e) => {
                    let err = Error::Transport(e);
                    self.last_failure = Ghost(Some(err));
                    return Err(err);
                },
            }
            let ghost s = self.received@.skip(base.len() as int);
            proof {
                assert forall|k: int| 0 <= k < s.len() implies !ends_with_token(#[trigger] s.take(k)) by {
                    assert(s.take(k) =~= before.skip(base.len() as int).take(k));
                }
                if s.len() >= 2 {
                    assert(s[s.len() - 2] == self.received@[self.received@.len() - 2]);
                }
                if s.len() >= 1 {
                    assert(s.last() == self.received@.last());
                }
                assert(s.take(s.len() as int) =~= s);
            }
            if prev == 0 && (last == ACK || last == NACK) {
                assert(ends_with_token(s));
                assert(self.received@.skip(old(self).received@.len() as int) == s);
                return Ok(last == ACK);
            }
            let waited = start.elapsed();
            if waited.as_millis() >= ACK_DEADLINE_MS {
                proof {
                    assert(!ends_with_token(s));
                    assert(self.received@.skip(old(self).received@.len() as int) == s);
                }
                let err = Error::AckTimeout;
                self.last_failure = Ghost(Some(err));
                return Err(err);
            }
        }
    }

    /// Waits for an acknowledgement (see [`Device::scan_ack`]) and records
    /// whether one was found.
    fn read_ack(&mut self) -> (r: Result<bool, Error>)
        ensures
            final(self).responses() == old(self).responses(),
            final(self).waits() == old(self).waits().push(r is Ok),
            final(self).flushed() == old(self).flushed(),
            final(self).extends(old(self)),
            final(self).sent() == old(self).sent(),
            final(self).frames() == old(self).frames(),
            r matches Ok(a) ==> ack_reply(final(self).received_since(old(self)))
                && a == acknowledged(final(self).received_since(old(self))),
            r is Err ==> no_token(final(self).received_since(old(self))),
            r matches Err(e) ==> e.is_link_failure(),
            r matches Err(Error::Transport(e)) ==> !(e is TimedOut),
            r matches Err(e) ==> !(e is ResponseLength),
            r matches Err(Error::AckTimeout) ==> final(self).waits().len() > old(self).waits().len() && !final(self).waits().last(),
            r matches Err(e) ==> (e.is_link_failure() ==> final(self).last_failure() == Some(e)),
    {
        let r = self.scan_ack();
        self.waits = Ghost(self.waits@.push(r is Ok));
        r
    }

    /// Writes `0x00` followed by ACK (`ack`) or NACK, and flushes.
    fn write_ack(&mut self, ack: bool) -> (r: Result<(), Error>)
        ensures
            final(self).responses() == old(self).responses(),
            final(self).waits() == old(self).waits(),
            final(self).extends(old(self)),
            final(self).received() == old(self).received(),
            final(self).frames() == old(self).frames(),
            r is Ok ==> final(self).sent() == old(self).sent() + ack_bytes(ack),
            r is Ok ==> final(self).flushed() == final(self).sent().len(),
            r matches Err(e) ==> e.is_link_failure(),
            r matches Err(e) ==> e is Transport,
            r matches Err(e) ==> (e.is_link_failure() ==> final(self).last_failure() == Some(e)),
    {
        let data: [u8; 2] = [0x00, if ack { ACK } else { NACK }];
        self.write_bytes(&data)?;
        assert(data@ =~= ack_bytes(ack));
        self.flush_port()?;
        Ok(())
    }

    /// Reads exactly `n` bytes; a timeout or the end of the stream fails.
    fn read_exact(&mut self, n: usize) -> (r: Result<Vec<u8>, Error>)
        ensures
            final(self).responses() == old(self).responses(),
            final(self).waits() == old(self).waits(),
            final(self).flushed() == old(self).flushed(),
            final(self).extends(old(self)),
            final(self).sent() == old(self).sent(),
            final(self).frames() == old(self).frames(),
            r matches Ok(v) ==> v@.len() == n && final(self).received() == old(self).received() + v@,
            r matches Err(e) ==> e.is_link_failure() && !(e is ResponseLength),
            r matches Err(e) ==> !(e is AckTimeout),
            r matches Err(e) ==> (e.is_link_failure() ==> final(self).last_failure() == Some(e)),
    {
        let mut v: Vec<u8> = Vec::new();
        let mut i: usize = 0;
        while i < n
            invariant
                i <= n,
                v@.len() == i,
                self.family == old(self).family,
                self.sent@ == old(self).sent@,
                self.frames@ == old(self).frames@,
                self.responses@ == old(self).responses@,
                self.waits@ == old(self).waits@,
                self.flushed@ == old(self).flushed@,
                self.timeout@ == old(self).timeout@,
                self.received@ == old(self).received@ + v@,
            decreases n - i,
        {
            match self.port.read_byte() {
                Ok(Some(b)) => {
                    v.push(b);
                    self.received = Ghost(self.received@.push(b));
                    assert(self.received@ =~= old(self).received@ + v@);
                },
                Ok(None) => {
                    let err = Error::UnexpectedEof;
                    self.last_failure = Ghost(Some(err));
                    return Err(err);
                },
                Err(e) => {
                    let err = Error::Transport(e);
                    self.last_failure = Ghost(Some(err));
                    return Err(err);
                },
            }
            i = i + 1;
        }
        Ok(v)
    }

    /// Reads a response packet `[length, checksum, payload..]` whose payload
    /// must be exactly `n` bytes long. A header that announces another
    /// length fails before any payload byte is read.
    fn read_response(&mut self, n: usize) -> (r: Result<Vec<u8>, Error>)
        requires
            n <= MAX_PAYLOAD_LEN,
        ensures
            final(self).responses() == old(self).responses(),
            final(self).waits() == old(self).waits(),
            final(self).flushed() == old(self).flushed(),
            final(self).extends(old(self)),
            final(self).sent() == old(self).sent(),
            final(self).frames() == old(self).frames(),
            r matches Ok(v) ==> {
                let s = final(self).received_since(old(self));
                &&& v@.len() == n
                &&& s.len() == n + 2
                &&& s[0] == n + 2
                &&& s.skip(2) == v@
            },
            r matches Err(Error::ResponseLength { expected, found }) ==> {
                let s = final(self).received_since(old(self));
                &&& expected == n
                &&& s.len() == 2
                &&& s[0] != n + 2
                &&& found == if s[0] >= 2 { s[0] - 2 } else { 0 }
            },
            r matches Err(e) ==> e.is_link_failure(),
            r matches Err(e) ==> !(e is AckTimeout),
            r matches Err(e) ==> (e.is_link_failure() ==> final(self).last_failure() == Some(e)),
    {
        let hdr = self.read_exact(2)?;
        let total = hdr[0] as usize;
        proof {
            assert(self.received@.skip(old(self).received@.len() as int) =~= hdr@);
        }
        if total < 2 {
            let err = Error::ResponseLength { expected: n, found: 0 };
            self.last_failure = Ghost(Some(err));
            return Err(err);
        }
        if total - 2 != n {
            let err = Error::ResponseLength { expected: n, found: total - 2 };
            self.last_failure = Ghost(Some(err));
            return Err(err);
        }
        let payload = self.read_exact(n)?;
        proof {
            let s = self.received@.skip(old(self).received@.len() as int);
            assert(s =~= hdr@ + payload@);
            assert(s.skip(2) =~= payload@);
        }
        Ok(payload)
    }

    /// Writes `0x55 0x55`, which makes the bootloader latch the host's baud
    /// rate, and expects an ACK; a NACK or a failed wait is
    /// [`Error::NotConnected`].
    fn perform_auto_baud(&mut self) -> (r: Result<(), Error>)
        ensures
            final(self).responses() == old(self).responses(),
            final(self).flushed() == old(self).flushed(),
            final(self).extends(old(self)),
            final(self).frames() == old(self).frames(),
            r is Ok ==> final(self).sent() == old(self).sent() + auto_baud_bytes(),
            r is Ok ==> final(self).waits() == old(self).waits().push(true),
            r is Ok ==> ack_reply(final(self).received_since(old(self))),
            r is Ok ==> acknowledged(final(self).received_since(old(self))),
            r matches Err(e) ==> e is Transport || e is NotConnected,
            r matches Err(Error::Transport(_)) ==> final(self).sent() == old(self).sent()
                && final(self).received() == old(self).received() && final(self).waits() == old(self).waits(),
            r is Err && !(r matches Err(Error::Transport(_))) ==> {
                let s = final(self).received_since(old(self));
                &&& final(self).sent() == old(self).sent() + auto_baud_bytes()
                &&& final(self).waits().len() == old(self).waits().len() + 1
                &&& !(ack_reply(s) && acknowledged(s))
            },
            r matches Err(e) ==> (e.is_link_failure() ==> final(self).last_failure() == Some(e)),
    {
        let data: [u8; 2] = [0x55, 0x55];
        self.write_bytes(&data)?;
        assert(data@ =~= auto_baud_bytes());
        let ghost mid = *self;
        let r = self.read_ack();
        proof {
            let s = self.received_since(old(self));
            assert(s =~= self.received_since(&mid));
            if r is Err {
                assert(s.take(s.len() as int) =~= s);
            }
        }
        match r {
            Ok(true) => Ok(()),
            _ => Err(Error::NotConnected),
        }
    }

    /// Sends an empty command with opcode 0; when no acknowledgement comes
    /// back, synchronises the baud rate.
    fn init_communications(&mut self) -> (r: Result<(), Error>)
        ensures
            final(self).responses() == old(self).responses(),
            final(self).extends(old(self)),
            r is Ok ==> final(self).frames() == old(self).frames().push(frame(0, seq![])),
            r is Ok ==> {
                let s = final(self).received_since(old(self));
                ||| final(self).waits_since(old(self)) == seq![true] && final(self).sent() == old(self).sent()
                    + frame(0, seq![]) && final(self).flushed() == final(self).sent().len() && ack_reply(s)
                ||| final(self).waits_since(old(self)) == seq![false, true] && final(self).sent() == old(
                    self,
                ).sent() + frame(0, seq![]) + auto_baud_bytes() && exists|k: int|
                    0 <= k <= s.len() && #[trigger] no_token(s.take(k)) && ack_reply(s.skip(k)) && acknowledged(
                        s.skip(k),
                    )
            },
            r matches Err(e) ==> e is Transport || e is NotConnected,
            r matches Err(Error::Transport(_)) ==> no_token(final(self).received_since(old(self)))
                && (final(self).waits_since(old(self)) == Seq::<bool>::empty() || final(self).waits_since(old(self))
                == seq![false]),
            r matches Err(Error::NotConnected) ==> {
                let s = final(self).received_since(old(self));
                &&& final(self).waits_since(old(self)).len() == 2
                &&& final(self).waits_since(old(self))[0] == false
                &&& final(self).sent() == old(self).sent() + frame(0, seq![]) + auto_baud_bytes()
                &&& exists|k: int|
                    0 <= k <= s.len() && #[trigger] no_token(s.take(k)) && !(ack_reply(s.skip(k)) && acknowledged(
                        s.skip(k),
                    ))
            },
            r matches Err(e) ==> (e.is_link_failure() ==> final(self).last_failure() == Some(e)),
    {
        match self.write_cmd(0, &[]) {
            Ok(()) => {},
            Err(e) => {
                proof {
                    let s = self.received_since(old(self));
                    assert(s =~= Seq::<u8>::empty());
                    assert(self.waits_since(old(self)) =~= Seq::<bool>::empty());
                    assert forall|k: int| 0 <= k <= s.len() implies !ends_with_token(#[trigger] s.take(k)) by {
                    }
                }
                return Err(e);
            },
        }
        let ghost mid = *self;
        match self.read_ack() {
            Ok(_) => {
                proof {
                    assert(self.received_since(old(self)) =~= self.received_since(&mid));
                    assert(self.waits_since(old(self)) =~= seq![true]);
                }
                Ok(())
            },
            Err(_) => {
                let ghost mid2 = *self;
                let k = Ghost((mid2.received().len() - old(self).received().len()) as int);
                let r = self.perform_auto_baud();
                proof {
                    let s = self.received_since(old(self));
                    let first = mid2.received_since(&mid);
                    assert(mid2.received_since(old(self)) =~= first);
                    assert(s =~= first + self.received_since(&mid2));
                    assert(s.take(k@) =~= first);
                    assert(s.skip(k@) =~= self.received_since(&mid2));
                    if r is Ok {
                        assert(self.waits_since(old(self)) =~= seq![false, true]);
                    } else if r matches Err(Error::Transport(_)) {
                        assert(s =~= first);
                        assert(self.waits_since(old(self)) =~= seq![false]);
                    } else {
                        let w = self.waits_since(old(self));
                        assert(w.len() == 2);
                        assert(w[0] == mid2.waits().last());
                    }
                }
                r
            },
        }
    }

    /// Opens the bootloader of a chip of `family` on `port`.
    ///
    /// Sets the per-read timeout to [`DEFAULT_TIMEOUT_MS`], then sends an
    /// empty command; when no acknowledgement comes back, synchronises the
    /// baud rate, which must then be acknowledged. The chip must already be
    /// in its bootloader. On failure the transport is dropped with the
    /// device; the failing exchange is described by the contract of the
    /// synchronisation step.
    pub fn new(port: P, family: Family) -> (r: Result<Device<P>, Error>)
        ensures
            r matches Ok(d) ==> {
                &&& d.family() == family
                &&& d.read_timeout_ms() == DEFAULT_TIMEOUT_MS
                &&& d.frames() == seq![frame(0, seq![])]
                &&& d.responses() == Seq::<Seq<u8>>::empty()
                &&& {
                    ||| d.waits() == seq![true] && d.sent() == frame(0, seq![]) && d.flushed() == d.sent().len()
                        && ack_reply(d.received())
                    ||| d.waits() == seq![false, true] && d.sent() == frame(0, seq![]) + auto_baud_bytes()
                        && exists|k: int|
                        0 <= k <= d.received().len() && #[trigger] no_token(d.received().take(k)) && ack_reply(
                            d.received().skip(k),
                        ) && acknowledged(d.received().skip(k))
                }
            },
            r matches Err(e) ==> e is Transport || e is NotConnected,
    {
        let mut port = port;
        let timeout_ms = DEFAULT_TIMEOUT_MS;
        match port.set_timeout_ms(timeout_ms) {
            Ok(()) => {},
            Err(e) => {
                return Err(Error::Transport(e));
            },
        }
        let mut device = Device {
            family,
            port,
            sent: Ghost(Seq::empty()),
            received: Ghost(Seq::empty()),
            frames: Ghost(Seq::empty()),
            responses: Ghost(Seq::empty()),
            flushed: Ghost(0),
            timeout: Ghost(timeout_ms),
            waits: Ghost(Seq::empty()),
            last_failure: Ghost(None),
        };
        let ghost start = device;
        device.init_communications()?;
        proof {
            assert(device.received_since(&start) =~= device.received());
            assert(device.waits_since(&start) =~= device.waits());
            assert(start.sent() + frame(0, seq![]) =~= frame(0, seq![]));
            assert(start.sent() + frame(0, seq![]) + auto_baud_bytes() =~= frame(0, seq![]) + auto_baud_bytes());
            assert(start.frames().push(frame(0, seq![])) =~= seq![frame(0, seq![])]);
        }
        Ok(device)
    }

    /// Writes the packet of `cmd` with payload `data` and reads the
    /// acknowledgement reply.
    fn command(&mut self, cmd: u8, data: &[u8]) -> (r: Result<bool, Error>)
        requires
            data@.len() <= MAX_PAYLOAD_LEN,
        ensures
            final(self).extends(old(self)),
            final(self).responses() == old(self).responses(),
            final(self).frames() == old(self).frames()
                || final(self).frames() == old(self).frames().push(frame(cmd, data@)),
            r matches Ok(a) ==> final(self).command_acked(old(self), frame(cmd, data@), a),
            r matches Err(e) ==> e.is_link_failure() && !(e is ResponseLength),
            r is Err ==> no_token(final(self).received_since(old(self))),
            r matches Err(Error::AckTimeout) ==> final(self).waits().len() > old(self).waits().len() && !final(self).waits().last(),
            r matches Err(e) ==> (e.is_link_failure() ==> final(self).last_failure() == Some(e)),
    {
        match self.write_cmd(cmd, data) {
            Ok(()) => {},
            Err(e) => {
                proof {
                    let s = self.received_since(old(self));
                    assert(s =~= Seq::<u8>::empty());
                    assert forall|k: int| 0 <= k <= s.len() implies !ends_with_token(#[trigger] s.take(k)) by {
                    }
                }
                return Err(e);
            },
        }
        let ghost mid = *self;
        let r = self.read_ack();
        assert(self.received_since(old(self)) =~= self.received_since(&mid));
        r
    }

    /// Writes the packet of `cmd` with payload `data`, which must be
    /// acknowledged, then reads a response of `n` bytes and acknowledges it.
    fn command_with_response(&mut self, cmd: u8, data: &[u8], n: usize) -> (r: Result<Vec<u8>, Error>)
        requires
            data@.len() <= MAX_PAYLOAD_LEN,
            n <= MAX_PAYLOAD_LEN,
        ensures
            final(self).extends(old(self)),
            final(self).frames() == old(self).frames()
                || final(self).frames() == old(self).frames().push(frame(cmd, data@)),
            r matches Ok(v) ==> v@.len() == n && final(self).command_answered(old(self), frame(cmd, data@), v@),
            r matches Err(Error::NotAcknowledged(c)) ==> c == cmd
                && final(self).command_acked(old(self), frame(cmd, data@), false),
            r matches Err(e) ==> e.is_link_failure() || e is NotAcknowledged,
            r matches Err(e) && e.is_link_failure() ==> no_token(final(self).received_since(old(self)))
                || begins_with_ack(final(self).received_since(old(self))),
            r is Err ==> final(self).responses() == old(self).responses(),
            r matches Err(Error::AckTimeout) ==> final(self).waits().len() > old(self).waits().len() && !final(self).waits().last(),
            r matches Err(e) ==> (e.is_link_failure() ==> final(self).last_failure() == Some(e)),
    {
        let ack = self.command(cmd, data)?;
        if !ack {
            return Err(Error::NotAcknowledged(cmd));
        }
        let ghost mid = *self;
        let ghost reply = mid.received_since(old(self));
        proof {
            assert(reply.take(reply.len() as int) =~= reply);
        }
        let r = self.read_response(n);
        proof {
            let s = self.received_since(old(self));
            assert(s =~= reply + self.received_since(&mid));
            assert(s.take(reply.len() as int) =~= reply);
        }
        let resp = r?;
        let ghost mid2 = *self;
        let w = self.write_ack(true);
        proof {
            let s = self.received_since(old(self));
            assert(s.take(reply.len() as int) =~= reply);
        }
        w?;
        self.responses = Ghost(self.responses@.push(resp@));
        proof {
            let rs = mid2.received_since(&mid);
            assert(self.received_since(old(self)) =~= reply + rs);
            lemma_reply_with_response(reply, rs, resp@);
        }
        Ok(resp)
    }

    /// Pings the bootloader: `true` when it answers with ACK.
    pub fn ping(&mut self) -> (r: Result<bool, Error>)
        ensures
            final(self).extends(old(self)),
            final(self).frames() == old(self).frames()
                || final(self).frames() == old(self).frames().push(frame(CMD_PING, seq![])),
            r matches Ok(a) ==> final(self).command_acked(old(self), frame(CMD_PING, seq![]), a),
            r matches Err(e) ==> e.is_link_failure() && !(e is ResponseLength),
            r is Err ==> no_token(final(self).received_since(old(self))),
            final(self).responses() == old(self).responses(),
            r matches Err(Error::AckTimeout) ==> final(self).waits().len() > old(self).waits().len() && !final(self).waits().last(),
            r matches Err(e) ==> (e.is_link_failure() ==> final(self).last_failure() == Some(e)),
    {
        self.command(CMD_PING, &[])
    }

    /// Prepares the flash for `program_size` bytes at `program_address`.
    /// Must be followed by [`Device::get_status`] to learn whether it worked.
    pub fn download(&mut self, program_address: u32, program_size: u32) -> (r: Result<(), Error>)
        ensures
            final(self).extends(old(self)),
            final(self).frames() == old(self).frames() || final(self).frames()
                == old(self).frames().push(frame(CMD_DOWNLOAD, download_payload(program_address, program_size))),
            r is Ok ==> final(self).command_acked(
                old(self),
                frame(CMD_DOWNLOAD, download_payload(program_address, program_size)),
                true,
            ),
            r matches Err(Error::NotAcknowledged(c)) ==> c == CMD_DOWNLOAD && final(self).command_acked(
                old(self),
                frame(CMD_DOWNLOAD, download_payload(program_address, program_size)),
                false,
            ),
            r matches Err(e) ==> e.is_link_failure() || e is NotAcknowledged,
            r matches Err(e) && e.is_link_failure() ==> no_token(final(self).received_since(old(self))),
            final(self).responses() == old(self).responses(),
            r matches Err(Error::AckTimeout) ==> final(self).waits().len() > old(self).waits().len() && !final(self).waits().last(),
            r matches Err(e) ==> (e.is_link_failure() ==> final(self).last_failure() == Some(e)),
    {
        let mut data: Vec<u8> = Vec::with_capacity(8);
        push_be32(&mut data, program_address);
        push_be32(&mut data, program_size);
        assert(data@ =~= download_payload(program_address, program_size));
        let ack = self.command(CMD_DOWNLOAD, data.as_slice())?;
        if !ack {
            return Err(Error::NotAcknowledged(CMD_DOWNLOAD));
        }
        Ok(())
    }

    /// The status of the last command the bootloader ran.
    pub fn get_status(&mut self) -> (r: Result<u8, Error>)
        ensures
            final(self).extends(old(self)),
            final(self).frames() == old(self).frames() || final(self).frames() == old(self).frames().push(
                status_frame(),
            ),
            r matches Ok(st) ==> final(self).command_answered(old(self), status_frame(), seq![st]),
            r matches Err(Error::NotAcknowledged(c)) ==> c == CMD_GET_STATUS
                && final(self).command_acked(old(self), status_frame(), false),
            r matches Err(e) ==> e.is_link_failure() || e is NotAcknowledged,
            r matches Err(e) && e.is_link_failure() ==> no_token(final(self).received_since(old(self)))
                || begins_with_ack(final(self).received_since(old(self))),
            r is Err ==> final(self).responses() == old(self).responses(),
            r matches Err(Error::AckTimeout) ==> final(self).waits().len() > old(self).waits().len() && !final(self).waits().last(),
            r matches Err(e) ==> (e.is_link_failure() ==> final(self).last_failure() == Some(e)),
    {
        let resp = self.command_with_response(CMD_GET_STATUS, &[], 1)?;
        assert(resp@ =~= seq![resp@[0]]);
        Ok(resp[0])
    }

    /// Sends up to [`MAX_BYTES_PER_TRANSFER`] bytes to be written to flash
    /// after a [`Device::download`]. `false` (NACK) means the bootloader did
    /// not advance its write address, so the same data may be sent again.
    /// After an ACK, [`Device::get_status`] tells whether the write worked.
    pub fn send_data(&mut self, data: &[u8]) -> (r: Result<bool, Error>)
        requires
            data@.len() <= MAX_BYTES_PER_TRANSFER,
        ensures
            final(self).extends(old(self)),
            final(self).frames() == old(self).frames()
                || final(self).frames() == old(self).frames().push(frame(CMD_SEND_DATA, data@)),
            r matches Ok(a) ==> final(self).command_acked(old(self), frame(CMD_SEND_DATA, data@), a),
            r matches Err(e) ==> e.is_link_failure() && !(e is ResponseLength),
            r is Err ==> no_token(final(self).received_since(old(self))),
            final(self).responses() == old(self).responses(),
            r matches Err(Error::AckTimeout) ==> final(self).waits().len() > old(self).waits().len() && !final(self).waits().last(),
            r matches Err(e) ==> (e.is_link_failure() ==> final(self).last_failure() == Some(e)),
    {
        self.command(CMD_SEND_DATA, data)
    }

    /// Reads the chip identifier.
    pub fn get_chip_id(&mut self) -> (r: Result<u32, Error>)
        ensures
            final(self).extends(old(self)),
            final(self).frames() == old(self).frames()
                || final(self).frames() == old(self).frames().push(frame(CMD_GET_CHIP_ID, seq![])),
            r matches Ok(id) ==> final(self).command_answered(old(self), frame(CMD_GET_CHIP_ID, seq![]), be32(id)),
            r matches Err(Error::NotAcknowledged(c)) ==> c == CMD_GET_CHIP_ID
                && final(self).command_acked(old(self), frame(CMD_GET_CHIP_ID, seq![]), false),
            r matches Err(e) ==> e.is_link_failure() || e is NotAcknowledged,
            r matches Err(e) && e.is_link_failure() ==> no_token(final(self).received_since(old(self)))
                || begins_with_ack(final(self).received_since(old(self))),
            r is Err ==> final(self).responses() == old(self).responses(),
            r matches Err(Error::AckTimeout) ==> final(self).waits().len() > old(self).waits().len() && !final(self).waits().last(),
            r matches Err(e) ==> (e.is_link_failure() ==> final(self).last_failure() == Some(e)),
    {
        let resp = self.command_with_response(CMD_GET_CHIP_ID, &[], 4)?;
        let id = read_be32(resp.as_slice());
        proof {
            lemma_be32_of_bytes(resp@);
        }
        Ok(id)
    }

    /// Erases `byte_count` bytes of flash from `address`. Only
    /// [`Family::CC2538`] takes this command.
    pub fn erase(&mut self, address: u32, byte_count: u32) -> (r: Result<(), Error>)
        requires
            old(self).family().supports_erase(),
        ensures
            final(self).extends(old(self)),
            final(self).frames() == old(self).frames() || final(self).frames()
                == old(self).frames().push(frame(CC2538_CMD_ERASE, erase_payload(address, byte_count))),
            r is Ok ==> final(self).command_acked(
                old(self),
                frame(CC2538_CMD_ERASE, erase_payload(address, byte_count)),
                true,
            ),
            r matches Err(Error::NotAcknowledged(c)) ==> c == CC2538_CMD_ERASE && final(self).command_acked(
                old(self),
                frame(CC2538_CMD_ERASE, erase_payload(address, byte_count)),
                false,
            ),
            r matches Err(e) ==> e.is_link_failure() || e is NotAcknowledged,
            r matches Err(e) && e.is_link_failure() ==> no_token(final(self).received_since(old(self))),
            final(self).responses() == old(self).responses(),
            r matches Err(Error::AckTimeout) ==> final(self).waits().len() > old(self).waits().len() && !final(self).waits().last(),
            r matches Err(e) ==> (e.is_link_failure() ==> final(self).last_failure() == Some(e)),
    {
        let mut data: Vec<u8> = Vec::with_capacity(8);
        push_be32(&mut data, address);
        push_be32(&mut data, byte_count);
        assert(data@ =~= erase_payload(address, byte_count));
        let ack = self.command(CC2538_CMD_ERASE, data.as_slice())?;
        if !ack {
            return Err(Error::NotAcknowledged(CC2538_CMD_ERASE));
        }
        Ok(())
    }

    /// Erases the flash sector that starts at `address`. Only
    /// [`Family::CC26X0`] and [`Family::CC26X2`] take this command. Must be
    /// followed by [`Device::get_status`] to learn whether it worked.
    pub fn sector_erase(&mut self, address: u32) -> (r: Result<(), Error>)
        requires
            old(self).family().supports_sector_erase(),
            address % old(self).family().sector_size() == 0,
        ensures
            final(self).extends(old(self)),
            final(self).frames() == old(self).frames()
                || final(self).frames() == old(self).frames().push(frame(CC26X0_CMD_SECTOR_ERASE, be32(address))),
            r is Ok ==> final(self).command_acked(old(self), frame(CC26X0_CMD_SECTOR_ERASE, be32(address)), true),
            r matches Err(Error::NotAcknowledged(c)) ==> c == CC26X0_CMD_SECTOR_ERASE
                && final(self).command_acked(old(self), frame(CC26X0_CMD_SECTOR_ERASE, be32(address)), false),
            r matches Err(e) ==> e.is_link_failure() || e is NotAcknowledged,
            r matches Err(e) && e.is_link_failure() ==> no_token(final(self).received_since(old(self))),
            final(self).responses() == old(self).responses(),
            r matches Err(Error::AckTimeout) ==> final(self).waits().len() > old(self).waits().len() && !final(self).waits().last(),
            r matches Err(e) ==> (e.is_link_failure() ==> final(self).last_failure() == Some(e)),
    {
        let mut data: Vec<u8> = Vec::with_capacity(4);
        push_be32(&mut data, address);
        assert(data@ =~= be32(address));
        let ack = self.command(CC26X0_CMD_SECTOR_ERASE, data.as_slice())?;
        if !ack {
            return Err(Error::NotAcknowledged(CC26X0_CMD_SECTOR_ERASE));
        }
        Ok(())
    }

    /// Switches the chip to its crystal oscillator. Only [`Family::CC2538`]
    /// takes this command.
    pub fn set_xosc(&mut self) -> (r: Result<(), Error>)
        requires
            old(self).family().supports_set_xosc(),
        ensures
            final(self).extends(old(self)),
            final(self).frames() == old(self).frames()
                || final(self).frames() == old(self).frames().push(frame(CC2538_CMD_SET_XOSC, seq![])),
            r is Ok ==> final(self).command_acked(old(self), frame(CC2538_CMD_SET_XOSC, seq![]), true),
            r matches Err(Error::NotAcknowledged(c)) ==> c == CC2538_CMD_SET_XOSC
                && final(self).command_acked(old(self), frame(CC2538_CMD_SET_XOSC, seq![]), false),
            r matches Err(e) ==> e.is_link_failure() || e is NotAcknowledged,
            r matches Err(e) && e.is_link_failure() ==> no_token(final(self).received_since(old(self))),
            final(self).responses() == old(self).responses(),
            r matches Err(Error::AckTimeout) ==> final(self).waits().len() > old(self).waits().len() && !final(self).waits().last(),
            r matches Err(e) ==> (e.is_link_failure() ==> final(self).last_failure() == Some(e)),
    {
        let ack = self.command(CC2538_CMD_SET_XOSC, &[])?;
        if !ack {
            return Err(Error::NotAcknowledged(CC2538_CMD_SET_XOSC));
        }
        Ok(())
    }

    /// Reads `data.len() / 4` 32-bit words of memory from `address` into
    /// `data`. Not taken by [`Family::CC2538`]. `address` must be 32-bit
    /// aligned and `data` hold whole words, at most 63 of them.
    pub fn memory_read_32(&mut self, address: u32, data: &mut [u8]) -> (r: Result<(), Error>)
        requires
            old(self).family() != Family::CC2538,
            old(data)@.len() <= 63 * 4,
            old(data)@.len() % 4 == 0,
            address % 4 == 0,
        ensures
            final(self).extends(old(self)),
            final(data)@.len() == old(data)@.len(),
            final(self).frames() == old(self).frames() || final(self).frames() == old(self).frames().push(
                frame(CMD_MEMORY_READ, memory_read_payload(address, (old(data)@.len() / 4) as u8)),
            ),
            r is Ok ==> final(self).command_answered(
                old(self),
                frame(CMD_MEMORY_READ, memory_read_payload(address, (old(data)@.len() / 4) as u8)),
                final(data)@,
            ),
            r matches Err(Error::NotAcknowledged(c)) ==> c == CMD_MEMORY_READ && final(self).command_acked(
                old(self),
                frame(CMD_MEMORY_READ, memory_read_payload(address, (old(data)@.len() / 4) as u8)),
                false,
            ),
            r is Err ==> final(data)@ == old(data)@,
            r matches Err(e) ==> e.is_link_failure() || e is NotAcknowledged,
            r matches Err(e) && e.is_link_failure() ==> no_token(final(self).received_since(old(self)))
                || begins_with_ack(final(self).received_since(old(self))),
            r is Err ==> final(self).responses() == old(self).responses(),
            r matches Err(Error::AckTimeout) ==> final(self).waits().len() > old(self).waits().len() && !final(self).waits().last(),
            r matches Err(e) ==> (e.is_link_failure() ==> final(self).last_failure() == Some(e)),
    {
        let n = data.len();
        let mut cmd: Vec<u8> = Vec::with_capacity(6);
        push_be32(&mut cmd, address);
        cmd.push(1);
        cmd.push((n / 4) as u8);
        assert(cmd@ =~= memory_read_payload(address, (n / 4) as u8));
        let resp = self.command_with_response(CMD_MEMORY_READ, cmd.as_slice(), n)?;
        let mut i: usize = 0;
        while i < n
            invariant
                n == data@.len(),
                n == resp@.len(),
                i <= n,
                forall|k: int| 0 <= k < i ==> data@[k] == resp@[k],
            decreases n - i,
        {
            data[i] = resp[i];
            i = i + 1;
        }
        assert(data@ =~= resp@);
        Ok(())
    }

}

} // verus!
