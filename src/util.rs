//! Flash workflows composed from the command set (erasing a range, writing
//! transfers) and readers of common chip parameters: flash size and IEEE
//! addresses.

use vstd::prelude::*;

use crate::constants::{
    CC2538_CMD_ERASE, CC26X0_CMD_SECTOR_ERASE, CMD_DOWNLOAD, CMD_SEND_DATA, COMMAND_RET_FLASH_FAIL,
    COMMAND_RET_INVALID_ADR, COMMAND_RET_INVALID_CMD, COMMAND_RET_SUCCESS, COMMAND_RET_UNKNOWN_CMD,
    MAX_BYTES_PER_TRANSFER,
};
use crate::constants::{CMD_GET_STATUS, CMD_MEMORY_READ};
use crate::device::{
    download_payload, ends_with_nack, erase_payload, memory_read_payload, no_token, status_frame, Device, Error,
};
use crate::family::Family;
use crate::frame::{
    be32, decode_frame, frame, from_be32, from_le32, lemma_be32_round_trip, lemma_frame_round_trip, read_le32,
};
use crate::transport::Transport;

verus! {

/// Size of the customer configuration area (CCFG) at the top of CC26xx and
/// CC13xx flash, in bytes.
pub const CCFG_SIZE: usize = 88;

/// The value of an IEEE or BLE address that the CCFG does not set.
pub const INVALID_ADDR: [u8; 8] = [0xFF, 0xFF, 0xFF, 0xFF, 0xFF, 0xFF, 0xFF, 0xFF];

/// Size of a 32-bit register, in bytes.
const REG32_SIZE: usize = 4;
/// FLASH.FLASH_SIZE register of CC13xx and CC26xx.
pub const CC26XX_FLASH_O_FLASH_SIZE: u32 = 0x4003002C;
/// Primary IEEE 802.15.4 address of CC13xx and CC26xx, in FCFG1.
pub const CC26XX_FCFG1_O_MAC_15_4_0: u32 = 0x000002F0;
/// FLASH_CTRL.DIECFG0 register of CC2538.
pub const CC2538_FLASH_CTRL_O_DIECFG0: u32 = 0x400D3014;
/// Primary IEEE address of CC2538.
pub const CC2538_PRIMARY_IEEE_ADDRESS: u32 = 0x00280028;
/// Secondary IEEE address of CC2538.
pub const CC2538_SECONDARY_IEEE_ADDRESS: u32 = 0x0027FFCC;
/// Offset of the secondary IEEE address within the CCFG.
pub const CCFG_IEEE_ADDRESS_OFFSET: u32 = 0x20;

/// The mnemonic of a status code.
pub open spec fn status_name(code: u8) -> Seq<char> {
    if code == COMMAND_RET_SUCCESS {
        "COMMAND_RET_SUCCESS"@
    } else if code == COMMAND_RET_UNKNOWN_CMD {
        "COMMAND_RET_UNKNOWN_CMD"@
    } else if code == COMMAND_RET_INVALID_CMD {
        "COMMAND_RET_INVALID_CMD"@
    } else if code == COMMAND_RET_INVALID_ADR {
        "COMMAND_RET_INVALID_ADR"@
    } else if code == COMMAND_RET_FLASH_FAIL {
        "COMMAND_RET_FLASH_FAIL"@
    } else {
        "Unknown"@
    }
}

/// The mnemonic of a status code returned by `GetStatus`; `"Unknown"` for a
/// code outside the protocol.
pub fn status_code_to_str(ret: u8) -> (r: &'static str)
    ensures
        r@ == status_name(ret),
{
    if ret == COMMAND_RET_SUCCESS {
        "COMMAND_RET_SUCCESS"
    } else if ret == COMMAND_RET_UNKNOWN_CMD {
        "COMMAND_RET_UNKNOWN_CMD"
    } else if ret == COMMAND_RET_INVALID_CMD {
        "COMMAND_RET_INVALID_CMD"
    } else if ret == COMMAND_RET_INVALID_ADR {
        "COMMAND_RET_INVALID_ADR"
    } else if ret == COMMAND_RET_FLASH_FAIL {
        "COMMAND_RET_FLASH_FAIL"
    } else {
        "Unknown"
    }
}

/// What a status code means for the command with opcode `command`: success
/// for `COMMAND_RET_SUCCESS` (0x40), [`Error::Status`] for any other byte.
pub fn check_status(command: u8, status: u8) -> (r: Result<(), Error>)
    ensures
        status == COMMAND_RET_SUCCESS ==> r is Ok,
        status != COMMAND_RET_SUCCESS ==> r == Err::<(), Error>(Error::Status { command, status }),
{
    if status == COMMAND_RET_SUCCESS {
        Ok(())
    } else {
        Err(Error::Status { command, status })
    }
}

/// What the acknowledgement of chunk `chunk` of transfer `transfer`, sent
/// to `address` in flash page `page`, means: a NACK stops the work when the
/// transfer expects acknowledgements and is passed over when it does not.
pub fn check_chunk_ack(expect_ack: bool, ack: bool, transfer: usize, chunk: usize, address: u32, page: u32) -> (r: Result<(), Error>)
    ensures
        ack || !expect_ack ==> r is Ok,
        expect_ack && !ack ==> r == Err::<(), Error>(Error::ChunkNotAcknowledged { transfer, chunk, address, page }),
{
    if expect_ack && !ack {
        Err(Error::ChunkNotAcknowledged { transfer, chunk, address, page })
    } else {
        Ok(())
    }
}

/// Every response in `rs` is the one-byte status `COMMAND_RET_SUCCESS`.
pub open spec fn all_success(rs: Seq<Seq<u8>>) -> bool {
    forall|k: int| 0 <= k < rs.len() ==> #[trigger] rs[k] == seq![COMMAND_RET_SUCCESS]
}

proof fn lemma_success_pushed(rs: Seq<Seq<u8>>, st: u8)
    requires
        all_success(rs),
        st == COMMAND_RET_SUCCESS,
    ensures
        all_success(rs.push(seq![st])),
{
    assert forall|k: int| 0 <= k < rs.push(seq![st]).len() implies #[trigger] rs.push(seq![st])[k] == seq![
        COMMAND_RET_SUCCESS,
    ] by {
        if k < rs.len() {
            assert(rs.push(seq![st])[k] == rs[k]);
        }
    }
}

/// The number of sectors of `sector_size` bytes that `byte_count` bytes
/// touch when they start on a sector boundary.
pub open spec fn sector_count(byte_count: u32, sector_size: u32) -> nat {
    (byte_count / sector_size) as nat + if byte_count % sector_size != 0 { 1nat } else { 0nat }
}

/// Address of sector `i` counted from `start`.
#[verifier::opaque]
pub open spec fn sector_address(start: u32, sector_size: u32, i: int) -> u32 {
    (start + i * sector_size) as u32
}

/// The packets that erase the first `k` sectors from `start`: each
/// `SectorErase` followed by `GetStatus`.
pub open spec fn sector_erase_frames(start: u32, sector_size: u32, k: nat) -> Seq<Seq<u8>>
    decreases k,
{
    if k == 0 {
        seq![]
    } else {
        sector_erase_frames(start, sector_size, (k - 1) as nat) + seq![
            frame(CC26X0_CMD_SECTOR_ERASE, be32(sector_address(start, sector_size, k - 1))),
            status_frame(),
        ]
    }
}

/// The packets that erase `byte_count` bytes from `start` on `family`: one
/// `Erase` where the family takes it, else one `SectorErase` and `GetStatus`
/// per sector.
pub open spec fn erase_frames(family: Family, start: u32, byte_count: u32) -> Seq<Seq<u8>> {
    if family.supports_erase() {
        seq![frame(CC2538_CMD_ERASE, erase_payload(start, byte_count))]
    } else {
        sector_erase_frames(start, family.sector_size(), sector_count(byte_count, family.sector_size()))
    }
}

/// `a` followed by a prefix of `b` is a prefix of whatever `a + b` is a
/// prefix of.
pub proof fn lemma_prefix_of_concat<A>(a: Seq<A>, p: Seq<A>, b: Seq<A>, whole: Seq<A>)
    requires
        p.is_prefix_of(b),
        (a + b).is_prefix_of(whole),
    ensures
        (a + p).is_prefix_of(whole),
{
    assert((a + p) =~= (a + b).subrange(0, (a + p).len() as int));
    assert((a + p) =~= whole.subrange(0, (a + p).len() as int));
}

proof fn lemma_sector_frames_prefix(start: u32, sector_size: u32, k: nat, m: nat)
    requires
        k <= m,
    ensures
        sector_erase_frames(start, sector_size, k).is_prefix_of(sector_erase_frames(start, sector_size, m)),
        sector_erase_frames(start, sector_size, m).len() == 2 * m,
    decreases m,
{
    if m > 0 {
        lemma_sector_frames_prefix(start, sector_size, if k == m { (m - 1) as nat } else { k }, (m - 1) as nat);
    }
    if k < m {
        let a = sector_erase_frames(start, sector_size, k);
        let b = sector_erase_frames(start, sector_size, (m - 1) as nat);
        let c = sector_erase_frames(start, sector_size, m);
        assert(b.is_prefix_of(c)) by {
            assert(b =~= c.subrange(0, b.len() as int));
        }
        assert(a =~= c.subrange(0, a.len() as int)) by {
            assert(a =~= b.subrange(0, a.len() as int));
        }
    } else {
        let a = sector_erase_frames(start, sector_size, k);
        assert(a =~= a.subrange(0, a.len() as int));
    }
}

proof fn lemma_sector_in_range(i: nat, byte_count: u32, sector_size: u32)
    requires
        sector_size > 0,
        i < sector_count(byte_count, sector_size),
    ensures
        i * sector_size < byte_count,
{
    let q = (byte_count / sector_size) as int;
    let r = (byte_count % sector_size) as int;
    assert(byte_count == q * sector_size + r && 0 <= r < sector_size) by (nonlinear_arith)
        requires
            sector_size > 0,
            q == byte_count / sector_size,
            r == byte_count % sector_size,
    {
    }
    if i < q {
        assert(i * sector_size + sector_size <= q * sector_size) by (nonlinear_arith)
            requires
                i + 1 <= q,
                sector_size > 0,
        {
        }
    } else {
        assert(i == q && r != 0);
    }
}

/// Erases `byte_count` bytes of flash from `start_address`.
///
/// A family that takes `Erase` gets one such command. Otherwise each of the
/// `ceil(byte_count / sector_size)` sectors from `start_address` gets a
/// `SectorErase` followed by `GetStatus`; a status other than success stops
/// the work with [`Error::Status`].
pub fn erase_flash_range<P: Transport>(device: &mut Device<P>, start_address: u32, byte_count: u32) -> (r: Result<(), Error>)
    requires
        old(device).family().supports_erase() || (start_address % old(device).family().sector_size() == 0
            && start_address + byte_count <= 0x1_0000_0000),
    ensures
        final(device).extends(old(device)),
        r is Ok ==> final(device).frames_since(old(device)) == erase_frames(
            old(device).family(),
            start_address,
            byte_count,
        ),
        !(r matches Err(Error::Status { .. })) ==> all_success(final(device).responses_since(old(device))),
        r is Err ==> final(device).frames_since(old(device)).is_prefix_of(
            erase_frames(old(device).family(), start_address, byte_count),
        ),
        r matches Err(Error::Status { command, status }) ==> command == CC26X0_CMD_SECTOR_ERASE
            && status != COMMAND_RET_SUCCESS && final(device).frames().last() == status_frame()
            && final(device).last_received(1) == seq![status],
        r matches Err(e) ==> e.is_link_failure() || e is NotAcknowledged || e is Status,
        !old(device).family().supports_erase() && byte_count == 0 ==> r is Ok,
        r matches Err(Error::NotAcknowledged(c)) ==> c == CC2538_CMD_ERASE || c == CC26X0_CMD_SECTOR_ERASE
            || c == CMD_GET_STATUS,
        r matches Err(Error::NotAcknowledged(_)) ==> ends_with_nack(final(device).received()),
        old(device).family().supports_erase() && r is Ok ==> final(device).command_acked(
            old(device),
            frame(CC2538_CMD_ERASE, erase_payload(start_address, byte_count)),
            true,
        ),
        r matches Err(Error::NotAcknowledged(_)) ==> (old(device).family().supports_erase()
            ==> final(device).command_acked(
            old(device),
            frame(CC2538_CMD_ERASE, erase_payload(start_address, byte_count)),
            false,
        )),
        r matches Err(e) && e.is_link_failure() ==> (old(device).family().supports_erase() ==> no_token(
            final(device).received_since(old(device)),
        )),
        r matches Err(Error::AckTimeout) ==> final(device).waits().len() > old(device).waits().len() && !final(device).waits().last(),
        r matches Err(e) ==> (e.is_link_failure() ==> final(device).last_failure() == Some(e)),
{
    let family = device.family();
    let ghost plan = erase_frames(family, start_address, byte_count);
    let ghost base = device.frames();
    if family.supports_erase() {
        let res = device.erase(start_address, byte_count);
        proof {
            if res matches Err(Error::NotAcknowledged(_)) {
                device.lemma_nack_at_end(
                    old(device),
                    frame(CC2538_CMD_ERASE, erase_payload(start_address, byte_count)),
                );
            }
            let since = device.frames_since(old(device));
            if device.frames() == base {
                assert(since =~= seq![]);
            } else {
                assert(since =~= plan);
            }
            assert(plan =~= plan.subrange(0, plan.len() as int));
        }
        return match res {
            Ok(()) => {
                assert(device.responses_since(old(device)) =~= Seq::<Seq<u8>>::empty());
                Ok(())
            },
            Err(e) => Err(e),
        };
    }
    let sector_size = family.sector_size();
    let n_sectors: u32 = if byte_count % sector_size != 0 {
        byte_count / sector_size + 1
    } else {
        byte_count / sector_size
    };
    assert(n_sectors == sector_count(byte_count, sector_size));
    proof {
        lemma_sector_frames_prefix(start_address, sector_size, 0, n_sectors as nat);
        assert(device.responses_since(old(device)) =~= Seq::<Seq<u8>>::empty());
    }
    let mut i: u32 = 0;
    while i < n_sectors
        invariant
            i <= n_sectors,
            n_sectors == sector_count(byte_count, sector_size),
            family == device.family(),
            family == old(device).family(),
            !family.supports_erase(),
            sector_size == family.sector_size(),
            start_address % sector_size == 0,
            start_address + byte_count <= 0x1_0000_0000,
            plan == sector_erase_frames(start_address, sector_size, n_sectors as nat),
            base == old(device).frames(),
            device.extends(old(device)),
            device.frames_since(old(device)) == sector_erase_frames(start_address, sector_size, i as nat),
            all_success(device.responses_since(old(device))),
        decreases n_sectors - i,
    {
        proof {
            lemma_sector_in_range(i as nat, byte_count, sector_size);
            lemma_sector_frames_prefix(start_address, sector_size, (i + 1) as nat, n_sectors as nat);
        }
        let address = start_address + i * sector_size;
        proof {
            vstd::arithmetic::div_mod::lemma_mod_multiples_vanish(i as int, start_address as int, sector_size as int);
            vstd::arithmetic::mul::lemma_mul_is_commutative(i as int, sector_size as int);
        }
        let ghost done = sector_erase_frames(start_address, sector_size, i as nat);
        proof {
            reveal(sector_address);
        }
        let ghost step = seq![frame(CC26X0_CMD_SECTOR_ERASE, be32(address)), status_frame()];
        let ghost before = *device;
        assert(done + step == sector_erase_frames(start_address, sector_size, (i + 1) as nat));
        let res = device.sector_erase(address);
        proof {
            if res matches Err(Error::NotAcknowledged(_)) {
                device.lemma_nack_at_end(&before, frame(CC26X0_CMD_SECTOR_ERASE, be32(address)));
            }
            let since = device.frames_since(old(device));
            if device.frames() == before.frames() {
                assert(since =~= done + seq![]);
                lemma_prefix_of_concat(done, seq![], step, plan);
            } else {
                assert(since =~= done + step.take(1));
                lemma_prefix_of_concat(done, step.take(1), step, plan);
            }
        }
        match res {
            Ok(()) => {},
            Err(e) => {
                return Err(e);
            },
        }
        let ghost mid = *device;
        let ret = device.get_status();
        proof {
            if ret matches Err(Error::NotAcknowledged(_)) {
                device.lemma_nack_at_end(&mid, status_frame());
            }
            let since = device.frames_since(old(device));
            if device.frames() == mid.frames() {
                assert(since =~= done + step.take(1));
                lemma_prefix_of_concat(done, step.take(1), step, plan);
            } else {
                assert(since =~= done + step);
                lemma_prefix_of_concat(done, step, step, plan);
            }
        }
        let ret = match ret {
            Ok(st) => st,
            Err(e) => {
                return Err(e);
            },
        };
        proof {
            device.lemma_answered_payload(&mid, status_frame(), seq![ret]);
        }
        match check_status(CC26X0_CMD_SECTOR_ERASE, ret) {
            Ok(()) => {},
            Err(e) => {
                return Err(e);
            },
        }
        proof {
            let rs = before.responses_since(old(device));
            assert(device.responses_since(old(device)) =~= rs.push(seq![ret]));
            lemma_success_pushed(rs, ret);
        }
        i = i + 1;
    }
    proof {
        assert(plan =~= plan.subrange(0, plan.len() as int));
    }
    Ok(())
}

/// The flash size, in bytes, that the flash-size register of `family`
/// holds: on CC2538 bits 6..4 of DIECFG0 code 64, 128, 256, 384 or 512 KiB
/// (any other code reads as 64 KiB); on CC26xx the low byte counts sectors.
pub open spec fn flash_size_of(family: Family, reg: u32) -> u32 {
    if family == Family::CC2538 {
        let code = (reg / 16) % 8;
        if code == 1 {
            0x20000
        } else if code == 2 {
            0x40000
        } else if code == 3 {
            0x60000
        } else if code == 4 {
            0x80000
        } else {
            0x10000
        }
    } else {
        ((reg % 256) * family.sector_size()) as u32
    }
}

/// The flash-size register of `family`.
pub open spec fn flash_size_register(family: Family) -> u32 {
    if family == Family::CC2538 {
        CC2538_FLASH_CTRL_O_DIECFG0
    } else {
        CC26XX_FLASH_O_FLASH_SIZE
    }
}

/// The flash size, in bytes, that the value `reg` of the flash-size register
/// of `family` stands for.
pub fn flash_size_from_register(family: Family, reg: u32) -> (r: u32)
    ensures
        r == flash_size_of(family, reg),
{
    match family {
        Family::CC2538 => {
            let code = (reg / 16) % 8;
            if code == 1 {
                0x20000
            } else if code == 2 {
                0x40000
            } else if code == 3 {
                0x60000
            } else if code == 4 {
                0x80000
            } else {
                0x10000
            }
        },
        Family::CC26X0 | Family::CC26X2 => {
            let sectors = reg % 256;
            assert(sectors * family.sector_size() <= 255 * 8192) by (nonlinear_arith)
                requires
                    sectors <= 255,
                    family.sector_size() <= 8192,
            {
            }
            sectors * family.sector_size()
        },
    }
}

/// Reads the size of the internal flash, in bytes, from the flash-size
/// register (little-endian). Word reads are not taken by CC2538.
pub fn read_flash_size<P: Transport>(device: &mut Device<P>) -> (r: Result<u32, Error>)
    requires
        old(device).family() != Family::CC2538,
    ensures
        final(device).extends(old(device)),
        r matches Ok(size) ==> {
            let reg = final(device).responses().last();
            &&& final(device).command_answered(
                old(device),
                frame(CMD_MEMORY_READ, memory_read_payload(flash_size_register(old(device).family()), 1)),
                reg,
            )
            &&& size == flash_size_of(old(device).family(), from_le32(reg) as u32)
        },
        r matches Err(e) ==> e.is_link_failure() || e is NotAcknowledged,
        r matches Err(Error::AckTimeout) ==> final(device).waits().len() > old(device).waits().len() && !final(device).waits().last(),
        r matches Err(e) ==> (e.is_link_failure() ==> final(device).last_failure() == Some(e)),
{
    let family = device.family();
    let addr = match family {
        Family::CC2538 => CC2538_FLASH_CTRL_O_DIECFG0,
        Family::CC26X0 | Family::CC26X2 => CC26XX_FLASH_O_FLASH_SIZE,
    };
    let mut reg: [u8; 4] = [0u8; 4];
    device.memory_read_32(addr, &mut reg)?;
    let value = read_le32(&reg);
    Ok(flash_size_from_register(family, value))
}

/// Where the secondary IEEE address lies on a CC26xx chip whose flash is
/// `flash_size` bytes: at offset 0x20 of the CCFG, which takes the last
/// [`CCFG_SIZE`] bytes of flash.
pub open spec fn secondary_ieee_address_of(flash_size: u32) -> int {
    flash_size - CCFG_SIZE + CCFG_IEEE_ADDRESS_OFFSET
}

/// Reads the primary and the secondary IEEE 802.15.4 addresses, 8 bytes
/// each: the size of the flash first, which places the CCFG, then the two
/// addresses. A secondary address of all `0xFF` ([`INVALID_ADDR`]) means
/// none is set. Word reads are not taken by CC2538.
pub fn read_ieee_address<P: Transport>(device: &mut Device<P>) -> (r: Result<([u8; 8], [u8; 8]), Error>)
    requires
        old(device).family() != Family::CC2538,
    ensures
        final(device).extends(old(device)),
        r matches Ok((primary, secondary)) ==> {
            let frames = final(device).frames_since(old(device));
            let answers = final(device).responses_since(old(device));
            let flash_size = flash_size_of(old(device).family(), from_le32(answers[0]) as u32);
            &&& frames.len() == 3
            &&& answers.len() == 3
            &&& frames[0] == frame(CMD_MEMORY_READ, memory_read_payload(CC26XX_FLASH_O_FLASH_SIZE, 1))
            &&& frames[1] == frame(CMD_MEMORY_READ, memory_read_payload(CC26XX_FCFG1_O_MAC_15_4_0, 2))
            &&& flash_size >= CCFG_SIZE
            &&& frames[2] == frame(
                CMD_MEMORY_READ,
                memory_read_payload(secondary_ieee_address_of(flash_size) as u32, 2),
            )
            &&& primary@ == answers[1]
            &&& secondary@ == answers[2]
        },
        r matches Err(e) ==> e.is_link_failure() || e is NotAcknowledged || e is FlashSizeTooSmall,
        r matches Err(Error::FlashSizeTooSmall(size)) ==> {
            &&& size < CCFG_SIZE
            &&& final(device).frames_since(old(device)) == seq![
                frame(CMD_MEMORY_READ, memory_read_payload(CC26XX_FLASH_O_FLASH_SIZE, 1)),
            ]
            &&& size == flash_size_of(old(device).family(), from_le32(final(device).responses().last()) as u32)
        },
        r matches Err(Error::AckTimeout) ==> final(device).waits().len() > old(device).waits().len() && !final(device).waits().last(),
        r matches Err(e) ==> (e.is_link_failure() ==> final(device).last_failure() == Some(e)),
{
    let flash_size = read_flash_size(device)?;
    let ghost after_size = *device;
    if flash_size < CCFG_SIZE as u32 {
        proof {
            assert(device.frames_since(old(device)) =~= seq![
                frame(CMD_MEMORY_READ, memory_read_payload(CC26XX_FLASH_O_FLASH_SIZE, 1)),
            ]);
        }
        return Err(Error::FlashSizeTooSmall(flash_size));
    }
    let secondary_addr = flash_size - CCFG_SIZE as u32 + CCFG_IEEE_ADDRESS_OFFSET;
    assert(secondary_addr % 4 == 0) by {
        let reg = from_le32(after_size.responses().last()) as u32;
        let n = reg % 256;
        let ss = device.family().sector_size();
        assert(flash_size == n * ss);
        assert(ss == 4092 || ss == 8192);
        assert((n * ss) % 4 == 0) by (nonlinear_arith)
            requires
                ss == 4092 || ss == 8192,
        {
        }
    }
    let mut primary: [u8; 8] = [0u8; 8];
    device.memory_read_32(CC26XX_FCFG1_O_MAC_15_4_0, &mut primary)?;
    let mut secondary: [u8; 8] = [0u8; 8];
    device.memory_read_32(secondary_addr, &mut secondary)?;
    proof {
        let f = frame(CMD_MEMORY_READ, memory_read_payload(secondary_addr, 2));
        let frames = device.frames_since(old(device));
        assert(frames =~= after_size.frames_since(old(device)) + seq![
            frame(CMD_MEMORY_READ, memory_read_payload(CC26XX_FCFG1_O_MAC_15_4_0, 2)),
            f,
        ]);
        let answers = device.responses_since(old(device));
        assert(answers =~= after_size.responses_since(old(device)) + seq![primary@, secondary@]);
        assert(after_size.responses_since(old(device))[0] == after_size.responses().last());
    }
    Ok((primary, secondary))
}

/// One contiguous region of flash to write: `data` goes to `start_address`.
/// When `expect_ack` is false the acknowledgements and statuses of the data
/// chunks are not waited for (the chip may lock itself while the CCFG is
/// being written).
#[derive(Debug)]
pub struct Transfer<'a> {
    pub data: &'a [u8],
    pub start_address: u32,
    pub expect_ack: bool,
}

/// The number of `SendData` chunks that `len` bytes take: `ceil(len / 252)`.
pub open spec fn chunk_count(len: nat) -> nat {
    len / (MAX_BYTES_PER_TRANSFER as nat) + if len % (MAX_BYTES_PER_TRANSFER as nat) != 0 { 1nat } else { 0nat }
}

/// Chunk `i` of `data`: bytes `[252 i, min(252 (i + 1), len))`.
pub open spec fn chunk_of(data: Seq<u8>, i: nat) -> Seq<u8> {
    let start = i * MAX_BYTES_PER_TRANSFER;
    let end = if start + MAX_BYTES_PER_TRANSFER <= data.len() {
        start + MAX_BYTES_PER_TRANSFER
    } else {
        data.len() as int
    };
    data.subrange(start, end)
}

/// Chunks `0..k` of `data`, joined.
pub open spec fn joined_chunks(data: Seq<u8>, k: nat) -> Seq<u8>
    decreases k,
{
    if k == 0 {
        seq![]
    } else {
        joined_chunks(data, (k - 1) as nat) + chunk_of(data, (k - 1) as nat)
    }
}

/// The packets of chunk `i`: `SendData`, then `GetStatus` when
/// acknowledgements are expected.
pub open spec fn chunk_frames(data: Seq<u8>, expect_ack: bool, i: nat) -> Seq<Seq<u8>> {
    if expect_ack {
        seq![frame(CMD_SEND_DATA, chunk_of(data, i)), status_frame()]
    } else {
        seq![frame(CMD_SEND_DATA, chunk_of(data, i))]
    }
}

/// The packets of chunks `0..k`.
pub open spec fn send_frames(data: Seq<u8>, expect_ack: bool, k: nat) -> Seq<Seq<u8>>
    decreases k,
{
    if k == 0 {
        seq![]
    } else {
        send_frames(data, expect_ack, (k - 1) as nat) + chunk_frames(data, expect_ack, (k - 1) as nat)
    }
}

/// The packets that open a transfer: `Download` of its address and length,
/// then `GetStatus`.
pub open spec fn download_frames(start_address: u32, len: nat) -> Seq<Seq<u8>> {
    seq![frame(CMD_DOWNLOAD, download_payload(start_address, len as u32)), status_frame()]
}

/// Every packet of a transfer of `data` to `start_address`.
pub open spec fn transfer_frames_of(data: Seq<u8>, start_address: u32, expect_ack: bool) -> Seq<Seq<u8>> {
    download_frames(start_address, data.len()) + send_frames(data, expect_ack, chunk_count(data.len()))
}

/// Every packet of one transfer.
pub open spec fn transfer_frames<'a>(t: Transfer<'a>) -> Seq<Seq<u8>> {
    transfer_frames_of(t.data@, t.start_address, t.expect_ack)
}

/// Every packet of transfers `0..k`.
pub open spec fn write_frames<'a>(ts: Seq<Transfer<'a>>, k: nat) -> Seq<Seq<u8>>
    decreases k,
{
    if k == 0 {
        seq![]
    } else {
        write_frames(ts, (k - 1) as nat) + transfer_frames(ts[k - 1])
    }
}

proof fn lemma_take_prefix<A>(done: Seq<A>, step: Seq<A>, m: int, whole: Seq<A>)
    requires
        (done + step).is_prefix_of(whole),
        0 <= m <= step.len(),
    ensures
        (done + step.take(m)).is_prefix_of(whole),
{
    assert(step.take(m) =~= step.subrange(0, m));
    lemma_prefix_of_concat(done, step.take(m), step, whole);
}

proof fn lemma_chunk_step(len: nat, i: nat)
    requires
        i < chunk_count(len),
    ensures
        i * 252 < len,
        len - i * 252 <= 252 ==> i + 1 == chunk_count(len),
        len - i * 252 > 252 ==> i + 1 < chunk_count(len),
{
}

proof fn lemma_send_frames_prefix(data: Seq<u8>, expect_ack: bool, k: nat, m: nat)
    requires
        k <= m,
    ensures
        send_frames(data, expect_ack, k).is_prefix_of(send_frames(data, expect_ack, m)),
    decreases m,
{
    let a = send_frames(data, expect_ack, k);
    if k < m {
        lemma_send_frames_prefix(data, expect_ack, k, (m - 1) as nat);
        let b = send_frames(data, expect_ack, (m - 1) as nat);
        let c = send_frames(data, expect_ack, m);
        assert(a =~= c.subrange(0, a.len() as int)) by {
            assert(a =~= b.subrange(0, a.len() as int));
            assert(b =~= c.subrange(0, b.len() as int));
        }
    } else {
        assert(a =~= a.subrange(0, a.len() as int));
    }
}

proof fn lemma_write_frames_prefix<'a>(ts: Seq<Transfer<'a>>, k: nat, m: nat)
    requires
        k <= m,
    ensures
        write_frames(ts, k).is_prefix_of(write_frames(ts, m)),
    decreases m,
{
    let a = write_frames(ts, k);
    if k < m {
        lemma_write_frames_prefix(ts, k, (m - 1) as nat);
        let b = write_frames(ts, (m - 1) as nat);
        let c = write_frames(ts, m);
        assert(a =~= c.subrange(0, a.len() as int)) by {
            assert(a =~= b.subrange(0, a.len() as int));
            assert(b =~= c.subrange(0, b.len() as int));
        }
    } else {
        assert(a =~= a.subrange(0, a.len() as int));
    }
}

/// Packet `j` of a sector-erase plan: `SectorErase` of sector `j / 2` when
/// `j` is even, `GetStatus` when it is odd.
pub open spec fn sector_plan_entry(start: u32, sector_size: u32, j: int) -> Seq<u8> {
    if j % 2 == 0 {
        frame(CC26X0_CMD_SECTOR_ERASE, be32(sector_address(start, sector_size, j / 2)))
    } else {
        status_frame()
    }
}

proof fn lemma_sector_frames_index(start: u32, sector_size: u32, k: nat)
    ensures
        sector_erase_frames(start, sector_size, k).len() == 2 * k,
        forall|j: int|
            0 <= j < 2 * k ==> #[trigger] sector_erase_frames(start, sector_size, k)[j] == sector_plan_entry(
                start,
                sector_size,
                j,
            ),
    decreases k,
{
    if k > 0 {
        lemma_sector_frames_index(start, sector_size, (k - 1) as nat);
        let prev = sector_erase_frames(start, sector_size, (k - 1) as nat);
        assert forall|j: int| 0 <= j < 2 * k implies #[trigger] sector_erase_frames(start, sector_size, k)[j]
            == sector_plan_entry(start, sector_size, j) by {
            if j < 2 * k - 2 {
                assert(prev[j] == sector_plan_entry(start, sector_size, j));
            } else if j == 2 * k - 2 {
                assert(j / 2 == k - 1);
            } else {
                assert(j % 2 == 1);
            }
        }
    }
}

proof fn lemma_sector_count_bounds(byte_count: u32, sector_size: u32)
    requires
        sector_size > 0,
        byte_count > 0,
    ensures
        (sector_count(byte_count, sector_size) - 1) * sector_size < byte_count
            <= sector_count(byte_count, sector_size) * sector_size,
{
    let k = sector_count(byte_count, sector_size) as int;
    let q = (byte_count / sector_size) as int;
    let r = (byte_count % sector_size) as int;
    let ss = sector_size as int;
    vstd::arithmetic::div_mod::lemma_fundamental_div_mod(byte_count as int, ss);
    vstd::arithmetic::mul::lemma_mul_is_commutative(ss, q);
    vstd::arithmetic::mul::lemma_mul_is_distributive_sub_other_way(ss, k, 1);
    if r == 0 {
        assert(k == q);
    } else {
        assert(k == q + 1);
        vstd::arithmetic::mul::lemma_mul_is_distributive_add_other_way(ss, q, 1);
    }
}

/// On a family that erases by sector, erasing a positive number of bytes
/// takes `ceil(byte_count / sector_size)` sectors: packet `2 i` is the
/// `SectorErase` of sector `i`, at address `start_address + i * sector_size`,
/// and packet `2 i + 1` the `GetStatus` after it.
pub proof fn lemma_sector_erase_plan(family: Family, start_address: u32, byte_count: u32)
    requires
        family.supports_sector_erase(),
        byte_count > 0,
        start_address + byte_count <= 0x1_0000_0000,
    ensures
        ({
            let k = sector_count(byte_count, family.sector_size());
            let frames = erase_frames(family, start_address, byte_count);
            &&& (k - 1) * family.sector_size() < byte_count <= k * family.sector_size()
            &&& frames.len() == 2 * k
            &&& forall|j: int| 0 <= j < 2 * k ==> #[trigger] frames[j] == sector_plan_entry(start_address, family.sector_size(), j)
            &&& forall|i: int|
                0 <= i < k ==> #[trigger] sector_address(start_address, family.sector_size(), i) == start_address + i
                    * family.sector_size()
        }),
{
    let ss = family.sector_size();
    let k = sector_count(byte_count, ss);
    lemma_sector_frames_index(start_address, ss, k);
    lemma_sector_count_bounds(byte_count, ss);
    assert forall|i: int| 0 <= i < k implies #[trigger] sector_address(start_address, ss, i) == start_address + i
        * ss by {
        reveal(sector_address);
        lemma_sector_in_range(i as nat, byte_count, ss);
    }
}

proof fn lemma_joined_chunks(data: Seq<u8>, k: nat)
    requires
        k <= chunk_count(data.len()),
    ensures
        joined_chunks(data, k) == data.take(if k * 252 <= data.len() { (k * 252) as int } else { data.len() as int }),
    decreases k,
{
    if k > 0 {
        lemma_joined_chunks(data, (k - 1) as nat);
        lemma_chunk_step(data.len(), (k - 1) as nat);
        assert(joined_chunks(data, k) =~= data.take(
            if k * 252 <= data.len() { (k * 252) as int } else { data.len() as int },
        ));
    } else {
        assert(joined_chunks(data, k) =~= data.take(0));
    }
}

/// The packets of chunk `i` within the packets of a transfer's data.
pub open spec fn chunk_slot(frames: Seq<Seq<u8>>, expect_ack: bool, i: int) -> Seq<Seq<u8>> {
    if expect_ack {
        frames.subrange(2 * i, 2 * i + 2)
    } else {
        frames.subrange(i, i + 1)
    }
}

proof fn lemma_send_frames_index(data: Seq<u8>, expect_ack: bool, k: nat)
    ensures
        send_frames(data, expect_ack, k).len() == if expect_ack { 2 * k } else { k },
        forall|i: int|
            0 <= i < k ==> #[trigger] chunk_slot(send_frames(data, expect_ack, k), expect_ack, i) == chunk_frames(
                data,
                expect_ack,
                i as nat,
            ),
    decreases k,
{
    if k > 0 {
        lemma_send_frames_index(data, expect_ack, (k - 1) as nat);
        let prev = send_frames(data, expect_ack, (k - 1) as nat);
        let all = send_frames(data, expect_ack, k);
        assert forall|i: int| 0 <= i < k implies #[trigger] chunk_slot(all, expect_ack, i) == chunk_frames(
            data,
            expect_ack,
            i as nat,
        ) by {
            let lo = if expect_ack { 2 * i } else { i };
            let hi = if expect_ack { 2 * i + 2 } else { i + 1 };
            if i < k - 1 {
                assert(chunk_slot(prev, expect_ack, i) == chunk_frames(data, expect_ack, i as nat));
                assert(all.subrange(lo, hi) =~= prev.subrange(lo, hi));
            } else {
                assert(lo == prev.len());
                assert(all.subrange(lo, hi) =~= chunk_frames(data, expect_ack, i as nat));
            }
        }
    }
}

/// A transfer of `data` is sent as `ceil(len / 252)` chunks, each of 1 to
/// 252 bytes, which joined in order give `data` back (no overlap, no gap).
/// Chunk `i` goes out as one `SendData` packet carrying it, followed by a
/// `GetStatus` packet when acknowledgements are expected.
pub proof fn lemma_chunk_plan(data: Seq<u8>, expect_ack: bool)
    ensures
        ({
            let k = chunk_count(data.len());
            let frames = send_frames(data, expect_ack, k);
            &&& k * 252 >= data.len()
            &&& data.len() > 0 ==> (k - 1) * 252 < data.len()
            &&& joined_chunks(data, k) == data
            &&& forall|i: int| 0 <= i < k ==> 1 <= #[trigger] chunk_of(data, i as nat).len() <= 252
            &&& frames.len() == if expect_ack { 2 * k } else { k }
            &&& forall|i: int|
                0 <= i < k ==> #[trigger] chunk_slot(frames, expect_ack, i) == chunk_frames(data, expect_ack, i as nat)
        }),
{
    let k = chunk_count(data.len());
    lemma_joined_chunks(data, k);
    assert(data.take(data.len() as int) =~= data);
    lemma_send_frames_index(data, expect_ack, k);
    assert forall|i: int| 0 <= i < k implies 1 <= #[trigger] chunk_of(data, i as nat).len() <= 252 by {
        lemma_chunk_step(data.len(), i as nat);
    }
}

/// The first packet of a transfer is `Download`, and its payload decodes,
/// big-endian, to the transfer's start address and data length.
pub proof fn lemma_download_header(data: Seq<u8>, start_address: u32, expect_ack: bool)
    requires
        data.len() <= u32::MAX,
    ensures
        ({
            let first = transfer_frames_of(data, start_address, expect_ack)[0];
            &&& decode_frame(first) matches Some((cmd, payload)) && cmd == CMD_DOWNLOAD && payload.len() == 8
                && from_be32(payload.take(4)) == start_address && from_be32(payload.skip(4)) == data.len()
        }),
{
    let payload = download_payload(start_address, data.len() as u32);
    lemma_frame_round_trip(CMD_DOWNLOAD, payload);
    lemma_be32_round_trip(start_address);
    lemma_be32_round_trip(data.len() as u32);
    assert(payload.take(4) =~= be32(start_address));
    assert(payload.skip(4) =~= be32(data.len() as u32));
}

/// Writes each transfer in order.
///
/// A transfer opens with `Download` of its address and length and a
/// `GetStatus`, then sends its data in chunks of at most
/// [`MAX_BYTES_PER_TRANSFER`] bytes. When the transfer expects
/// acknowledgements, a NACK on a chunk stops the work with
/// [`Error::ChunkNotAcknowledged`] and each chunk is followed by `GetStatus`;
/// any status other than success stops the work with [`Error::Status`].
pub fn write_flash_range<'a, P: Transport>(device: &mut Device<P>, transfers: &[Transfer<'a>]) -> (r: Result<(), Error>)
    requires
        forall|j: int|
            0 <= j < transfers@.len() ==> {
                &&& #[trigger] transfers@[j].start_address >= old(device).family().flash_base()
                &&& transfers@[j].data@.len() <= u32::MAX
                &&& transfers@[j].start_address + transfers@[j].data@.len() <= 0x1_0000_0000
            },
    ensures
        final(device).extends(old(device)),
        r is Ok ==> final(device).frames_since(old(device)) == write_frames(transfers@, transfers@.len()),
        !(r matches Err(Error::Status { .. })) ==> all_success(final(device).responses_since(old(device))),
        r is Err ==> final(device).frames_since(old(device)).is_prefix_of(
            write_frames(transfers@, transfers@.len()),
        ),
        r matches Err(Error::Status { command, status }) ==> {
            &&& status != COMMAND_RET_SUCCESS
            &&& command == CMD_DOWNLOAD || command == CMD_SEND_DATA
            &&& final(device).frames().last() == status_frame()
            &&& final(device).last_received(1) == seq![status]
        },
        r matches Err(Error::ChunkNotAcknowledged { transfer, chunk, address, page }) ==> {
            &&& transfer < transfers@.len()
            &&& transfers@[transfer as int].expect_ack
            &&& chunk < chunk_count(transfers@[transfer as int].data@.len())
            &&& address == transfers@[transfer as int].start_address + chunk * MAX_BYTES_PER_TRANSFER
            &&& page == (address - old(device).family().flash_base()) / (old(device).family().sector_size() as int)
            &&& final(device).frames().last() == frame(
                CMD_SEND_DATA,
                chunk_of(transfers@[transfer as int].data@, chunk as nat),
            )
            &&& ends_with_nack(final(device).received())
        },
        r matches Err(Error::NotAcknowledged(c)) ==> (c == CMD_DOWNLOAD || c == CMD_GET_STATUS) && ends_with_nack(
            final(device).received(),
        ),
        transfers@.len() == 0 ==> r is Ok,
        r matches Err(e) ==> e.is_link_failure() || e is NotAcknowledged || e is Status || e is ChunkNotAcknowledged,
        r matches Err(Error::AckTimeout) ==> final(device).waits().len() > old(device).waits().len() && !final(device).waits().last(),
        r matches Err(e) ==> (e.is_link_failure() ==> final(device).last_failure() == Some(e)),
{
    let family = device.family();
    let ghost ts = transfers@;
    let ghost plan = write_frames(ts, ts.len());
    assert(device.responses_since(old(device)) =~= Seq::<Seq<u8>>::empty());
    let mut j: usize = 0;
    while j < transfers.len()
        invariant
            j <= transfers@.len(),
            ts == transfers@,
            plan == write_frames(ts, ts.len()),
            family == device.family(),
            family == old(device).family(),
            device.extends(old(device)),
            device.frames_since(old(device)) == write_frames(ts, j as nat),
            all_success(device.responses_since(old(device))),
            forall|k: int|
                0 <= k < transfers@.len() ==> {
                    &&& #[trigger] transfers@[k].start_address >= family.flash_base()
                    &&& transfers@[k].data@.len() <= u32::MAX
                    &&& transfers@[k].start_address + transfers@[k].data@.len() <= 0x1_0000_0000
                },
        decreases transfers@.len() - j,
    {
        let transfer = &transfers[j];
        let data = transfer.data;
        let len = data.len();
        let ghost w = write_frames(ts, j as nat);
        let ghost head = download_frames(transfer.start_address, len as nat);
        let ghost body = send_frames(data@, transfer.expect_ack, chunk_count(len as nat));
        proof {
            lemma_write_frames_prefix(ts, (j + 1) as nat, ts.len());
            assert(write_frames(ts, (j + 1) as nat) == w + (head + body));
            lemma_prefix_of_concat(w, head, head + body, plan);
            assert((w + head) + body == w + (head + body));
        }
        let ghost before = *device;
        let res = device.download(transfer.start_address, len as u32);
        proof {
            if res matches Err(Error::NotAcknowledged(_)) {
                device.lemma_nack_at_end(
                    &before,
                    frame(CMD_DOWNLOAD, download_payload(transfer.start_address, len as u32)),
                );
            }
            if device.frames() == before.frames() {
                assert(device.frames_since(old(device)) =~= w + head.take(0));
            } else {
                assert(device.frames_since(old(device)) =~= w + head.take(1));
            }
            lemma_take_prefix(w, head, 0, plan);
            lemma_take_prefix(w, head, 1, plan);
        }
        match res {
            Ok(()) => {},
            Err(e) => {
                return Err(e);
            },
        }
        let ghost mid = *device;
        let ret = device.get_status();
        proof {
            if ret matches Err(Error::NotAcknowledged(_)) {
                device.lemma_nack_at_end(&mid, status_frame());
            }
            if device.frames() == mid.frames() {
                assert(device.frames_since(old(device)) =~= w + head.take(1));
            } else {
                assert(device.frames_since(old(device)) =~= w + head.take(2));
                assert(head.take(2) =~= head);
            }
            lemma_take_prefix(w, head, 2, plan);
        }
        let ret = match ret {
            Ok(st) => st,
            Err(e) => {
                return Err(e);
            },
        };
        proof {
            device.lemma_answered_payload(&mid, status_frame(), seq![ret]);
        }
        match check_status(CMD_DOWNLOAD, ret) {
            Ok(()) => {},
            Err(e) => {
                return Err(e);
            },
        }
        proof {
            let rs = before.responses_since(old(device));
            assert(device.responses_since(old(device)) =~= rs.push(seq![ret]));
            lemma_success_pushed(rs, ret);
        }
        let mut bytes_left: usize = len;
        let mut data_offset: usize = 0;
        let mut chunk_index: usize = 0;
        while bytes_left > 0
            invariant
                j < transfers@.len(),
                ts == transfers@,
                plan == write_frames(ts, ts.len()),
                *transfer == transfers@[j as int],
                data == transfer.data,
                len == data@.len(),
                transfer.start_address + len <= 0x1_0000_0000,
                len <= u32::MAX,
                transfer.start_address >= family.flash_base(),
                family == device.family(),
                family == old(device).family(),
                device.extends(old(device)),
                w == write_frames(ts, j as nat),
                head == download_frames(transfer.start_address, len as nat),
                body == send_frames(data@, transfer.expect_ack, chunk_count(len as nat)),
                (w + head + body).is_prefix_of(plan),
                bytes_left == len - data_offset,
                (chunk_index < chunk_count(len as nat) && data_offset == chunk_index * 252)
                    || (chunk_index == chunk_count(len as nat) && data_offset == len),
                device.frames_since(old(device)) == w + head + send_frames(
                    data@,
                    transfer.expect_ack,
                    chunk_index as nat,
                ),
                all_success(device.responses_since(old(device))),
            decreases bytes_left,
        {
            proof {
                lemma_chunk_step(len as nat, chunk_index as nat);
                lemma_send_frames_prefix(data@, transfer.expect_ack, (chunk_index + 1) as nat, chunk_count(len as nat));
                lemma_prefix_of_concat(w + head, send_frames(data@, transfer.expect_ack, (chunk_index + 1) as nat), body, plan);
            }
            let ghost done = w + head + send_frames(data@, transfer.expect_ack, chunk_index as nat);
            let ghost step = chunk_frames(data@, transfer.expect_ack, chunk_index as nat);
            assert(done + step == w + head + send_frames(data@, transfer.expect_ack, (chunk_index + 1) as nat));
            let n: usize = if bytes_left < MAX_BYTES_PER_TRANSFER {
                bytes_left
            } else {
                MAX_BYTES_PER_TRANSFER
            };
            let chunk = &data[data_offset..data_offset + n];
            assert(chunk@ == chunk_of(data@, chunk_index as nat));
            let chunk_addr = transfer.start_address + data_offset as u32;
            let ghost before = *device;
            let res = device.send_data(chunk);
            proof {
                if device.frames() == before.frames() {
                    assert(device.frames_since(old(device)) =~= done + step.take(0));
                } else {
                    assert(device.frames_since(old(device)) =~= done + step.take(1));
                }
                lemma_take_prefix(done, step, 0, plan);
                lemma_take_prefix(done, step, 1, plan);
            }
            let ack = match res {
                Ok(a) => a,
                Err(e) => {
                    return Err(e);
                },
            };
            let page = family.address_to_page(chunk_addr);
            match check_chunk_ack(transfer.expect_ack, ack, j, chunk_index, chunk_addr, page) {
                Ok(()) => {},
                Err(e) => {
                    proof {
                        device.lemma_nack_at_end(&before, frame(CMD_SEND_DATA, chunk@));
                    }
                    return Err(e);
                },
            }
            if transfer.expect_ack {
                let ghost mid = *device;
                let ret = device.get_status();
                proof {
                    if ret matches Err(Error::NotAcknowledged(_)) {
                        device.lemma_nack_at_end(&mid, status_frame());
                    }
                    if device.frames() == mid.frames() {
                        assert(device.frames_since(old(device)) =~= done + step.take(1));
                    } else {
                        assert(device.frames_since(old(device)) =~= done + step.take(2));
                        assert(step.take(2) =~= step);
                    }
                    lemma_take_prefix(done, step, 2, plan);
                }
                let ret = match ret {
                    Ok(st) => st,
                    Err(e) => {
                        return Err(e);
                    },
                };
                proof {
                    device.lemma_answered_payload(&mid, status_frame(), seq![ret]);
                }
                match check_status(CMD_SEND_DATA, ret) {
                    Ok(()) => {},
                    Err(e) => {
                        return Err(e);
                    },
                }
                proof {
                    let rs = before.responses_since(old(device));
                    assert(device.responses_since(old(device)) =~= rs.push(seq![ret]));
                    lemma_success_pushed(rs, ret);
                }
            } else {
                assert(step.take(1) =~= step);
            }
            bytes_left = bytes_left - n;
            data_offset = data_offset + n;
            chunk_index = chunk_index + 1;
        }
        proof {
            assert(device.frames_since(old(device)) =~= write_frames(ts, (j + 1) as nat));
        }
        j = j + 1;
    }
    Ok(())
}

} // verus!
