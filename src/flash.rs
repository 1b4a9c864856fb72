//! Flashing a binary image: bounds checks, the decision whether the image
//! reaches the customer configuration area (CCFG), the split of the image
//! into transfers that protects the CCFG, the optional erase, and the write.

use vstd::prelude::*;

use crate::device::{Device, Error};
use crate::family::Family;
use crate::transport::Transport;
use crate::util::{all_success, lemma_prefix_of_concat};
use crate::util::{
    erase_flash_range, erase_frames, transfer_frames_of, write_flash_range, write_frames, Transfer, CCFG_SIZE,
};

verus! {

/// Why a binary cannot be flashed as asked.
#[derive(Debug, Clone, PartialEq, Eq)]
pub enum FlashError {
    /// The binary is larger than the whole flash.
    BinaryTooLarge,
    /// The start address lies below the base of the flash.
    StartBelowFlashBase,
    /// The binary reaches the CCFG of a CC26xx chip and overwriting it was
    /// not forced.
    WouldOverwriteCcfg,
    /// The binary ends past the end of the flash.
    EndBeyondFlash,
    /// The binary reaches the CCFG but is shorter than the CCFG, so it cannot
    /// be split at its last [`CCFG_SIZE`] bytes.
    ShorterThanCcfg,
    /// An erase was asked for at an address that does not start a sector.
    UnalignedErase,
    /// The device failed while erasing or writing.
    Device(Error),
}

/// Whether a binary of `len` bytes at `start` reaches the CCFG, which takes
/// the last [`CCFG_SIZE`] bytes of a flash of `flash_size` bytes. A binary
/// that ends exactly where the CCFG starts counts as reaching it.
pub open spec fn overwrites_ccfg(flash_size: u32, start: u32, len: nat) -> bool {
    start + len >= flash_size - CCFG_SIZE
}

/// A binary that ends exactly where the CCFG begins counts as reaching it;
/// one byte shorter, it does not.
pub proof fn lemma_ccfg_boundary(flash_size: u32, start: u32, len: nat)
    requires
        start + len == flash_size - CCFG_SIZE,
        len > 0,
    ensures
        overwrites_ccfg(flash_size, start, len),
        !overwrites_ccfg(flash_size, start, (len - 1) as nat),
{
}

/// Whether the CCFG of `family` must be written apart from the rest of the
/// image (CC26x0 and CC26x2).
pub open spec fn has_ccfg(family: Family) -> bool {
    family == Family::CC26X0 || family == Family::CC26X2
}

/// Whether the image is split in two transfers to write the CCFG last.
pub open spec fn splits_ccfg(family: Family, flash_size: u32, start: u32, len: nat) -> bool {
    has_ccfg(family) && overwrites_ccfg(flash_size, start, len)
}

/// The number of bytes erased before writing when asked: the binary, less
/// its last [`CCFG_SIZE`] bytes when it reaches the CCFG.
pub open spec fn erase_len_of(flash_size: u32, start: u32, len: nat) -> int {
    if overwrites_ccfg(flash_size, start, len) {
        len - CCFG_SIZE
    } else {
        len as int
    }
}

/// The reason, if any, why a binary of `len` bytes cannot be flashed at
/// `start` on a chip of `family` with `flash_size` bytes of flash; the
/// checks are taken in this order.
pub open spec fn flash_refusal(family: Family, flash_size: u32, start: u32, len: nat, force: bool, erase: bool) -> Option<FlashError> {
    if len > flash_size {
        Some(FlashError::BinaryTooLarge)
    } else if start < family.flash_base() {
        Some(FlashError::StartBelowFlashBase)
    } else if splits_ccfg(family, flash_size, start, len) && !force {
        Some(FlashError::WouldOverwriteCcfg)
    } else if start + len > family.flash_base() + flash_size {
        Some(FlashError::EndBeyondFlash)
    } else if overwrites_ccfg(flash_size, start, len) && len < CCFG_SIZE && (erase || has_ccfg(family)) {
        Some(FlashError::ShorterThanCcfg)
    } else if erase && !family.supports_erase() && start % family.sector_size() != 0 {
        Some(FlashError::UnalignedErase)
    } else {
        None
    }
}

/// The packets that write `binary` at `start`: one transfer, or two when
/// the CCFG is written apart.
pub open spec fn image_frames(family: Family, flash_size: u32, start: u32, binary: Seq<u8>) -> Seq<Seq<u8>> {
    let len = binary.len();
    if splits_ccfg(family, flash_size, start, len) {
        transfer_frames_of(binary.take(len - CCFG_SIZE), start, true) + transfer_frames_of(
            binary.skip(len - CCFG_SIZE),
            (start + len - CCFG_SIZE) as u32,
            false,
        )
    } else {
        transfer_frames_of(binary, start, true)
    }
}

/// Every packet that flashing `binary` at `start` sends: the erase, when
/// asked for, then the image.
pub open spec fn flash_frames(family: Family, flash_size: u32, start: u32, binary: Seq<u8>, erase: bool) -> Seq<Seq<u8>> {
    let erased = if erase {
        erase_frames(family, start, erase_len_of(flash_size, start, binary.len()) as u32)
    } else {
        seq![]
    };
    erased + image_frames(family, flash_size, start, binary)
}

/// Whether a binary of `binary.len()` bytes at `binary_offset_in_flash`
/// reaches the CCFG of a flash of `flash_size` bytes.
pub fn may_overwrite_ccfg(flash_size: u32, binary_offset_in_flash: u32, binary: &[u8]) -> (r: bool)
    ensures
        r == overwrites_ccfg(flash_size, binary_offset_in_flash, binary@.len()),
{
    let reserved = binary_offset_in_flash as u64 + CCFG_SIZE as u64;
    if reserved >= flash_size as u64 {
        true
    } else {
        binary.len() as u64 >= flash_size as u64 - reserved
    }
}

/// What flashing a binary takes: the bytes to erase first, if asked, and
/// the transfers to write.
pub struct FlashPlan<'a> {
    pub erase_len: Option<u32>,
    pub transfers: Vec<Transfer<'a>>,
}

/// Checks that `binary` can be flashed at `start_address` and plans the
/// work.
///
/// When the image reaches the CCFG of a CC26xx chip (and `force` allows
/// it), it is split in two transfers: everything but the last
/// [`CCFG_SIZE`] bytes, acknowledged as usual, then those last bytes, whose
/// acknowledgements are not waited for. Otherwise it is one transfer.
pub fn plan_flash<'a>(
    family: Family,
    flash_size: u32,
    start_address: u32,
    binary: &'a [u8],
    force: bool,
    erase: bool,
) -> (r: Result<FlashPlan<'a>, FlashError>)
    ensures
        match flash_refusal(family, flash_size, start_address, binary@.len(), force, erase) {
            Some(e) => r == Err::<FlashPlan<'a>, FlashError>(e),
            None => r is Ok,
        },
        r matches Ok(plan) ==> {
            let len = binary@.len();
            &&& erase ==> plan.erase_len == Some(erase_len_of(flash_size, start_address, len) as u32)
            &&& !erase ==> plan.erase_len is None
            &&& if splits_ccfg(family, flash_size, start_address, len) {
                &&& plan.transfers@.len() == 2
                &&& plan.transfers@[0].data@ == binary@.take(len - CCFG_SIZE)
                &&& plan.transfers@[0].start_address == start_address
                &&& plan.transfers@[0].expect_ack
                &&& plan.transfers@[1].data@ == binary@.skip(len - CCFG_SIZE)
                &&& plan.transfers@[1].start_address == start_address + len - CCFG_SIZE
                &&& !plan.transfers@[1].expect_ack
            } else {
                &&& plan.transfers@.len() == 1
                &&& plan.transfers@[0].data@ == binary@
                &&& plan.transfers@[0].start_address == start_address
                &&& plan.transfers@[0].expect_ack
            }
        },
{
    let len = binary.len();
    if len as u64 > flash_size as u64 {
        return Err(FlashError::BinaryTooLarge);
    }
    if start_address < family.flash_base() {
        return Err(FlashError::StartBelowFlashBase);
    }
    let overwrites = may_overwrite_ccfg(flash_size, start_address, binary);
    let ccfg_family = matches!(family, Family::CC26X0 | Family::CC26X2);
    if ccfg_family && overwrites && !force {
        return Err(FlashError::WouldOverwriteCcfg);
    }
    if start_address as u64 + len as u64 > family.flash_base() as u64 + flash_size as u64 {
        return Err(FlashError::EndBeyondFlash);
    }
    if overwrites && len < CCFG_SIZE && (erase || ccfg_family) {
        return Err(FlashError::ShorterThanCcfg);
    }
    if erase && !family.supports_erase() && start_address % family.sector_size() != 0 {
        return Err(FlashError::UnalignedErase);
    }
    let erase_len = if !erase {
        None
    } else if overwrites {
        Some((len - CCFG_SIZE) as u32)
    } else {
        Some(len as u32)
    };
    let mut transfers: Vec<Transfer<'a>> = Vec::new();
    if ccfg_family && overwrites {
        let split = len - CCFG_SIZE;
        transfers.push(Transfer { data: &binary[0..split], start_address, expect_ack: true });
        transfers.push(
            Transfer {
                data: &binary[split..len],
                start_address: start_address + split as u32,
                expect_ack: false,
            },
        );
        assert(binary@.subrange(0, split as int) =~= binary@.take(split as int));
        assert(binary@.subrange(split as int, len as int) =~= binary@.skip(split as int));
    } else {
        transfers.push(Transfer { data: binary, start_address, expect_ack: true });
    }
    Ok(FlashPlan { erase_len, transfers })
}

/// The transfers that [`plan_flash`] returns send the packets of
/// [`image_frames`].
proof fn lemma_planned_frames<'a>(family: Family, flash_size: u32, start: u32, binary: Seq<u8>, ts: Seq<Transfer<'a>>)
    requires
        if splits_ccfg(family, flash_size, start, binary.len()) {
            &&& ts.len() == 2
            &&& ts[0].data@ == binary.take(binary.len() - CCFG_SIZE)
            &&& ts[0].start_address == start
            &&& ts[0].expect_ack
            &&& ts[1].data@ == binary.skip(binary.len() - CCFG_SIZE)
            &&& ts[1].start_address == start + binary.len() - CCFG_SIZE
            &&& !ts[1].expect_ack
        } else {
            &&& ts.len() == 1
            &&& ts[0].data@ == binary
            &&& ts[0].start_address == start
            &&& ts[0].expect_ack
        },
    ensures
        write_frames(ts, ts.len()) == image_frames(family, flash_size, start, binary),
{
    assert(write_frames(ts, 0) == Seq::<Seq<u8>>::empty());
    if ts.len() == 2 {
        assert(write_frames(ts, 1) =~= seq![] + transfer_frames_of(ts[0].data@, ts[0].start_address, true));
        assert(write_frames(ts, 2) =~= write_frames(ts, 1) + transfer_frames_of(ts[1].data@, ts[1].start_address, false));
    } else {
        assert(write_frames(ts, 1) =~= seq![] + transfer_frames_of(ts[0].data@, ts[0].start_address, true));
    }
}

/// Flashes `binary` at `address` on a chip whose flash is `flash_size`
/// bytes: checks and plans the work with [`plan_flash`], erases first when
/// `write_erase` is set, then writes the transfers.
#[verifier::rlimit(60)]
pub fn flash<P: Transport>(
    device: &mut Device<P>,
    flash_size: u32,
    address: u32,
    binary: &[u8],
    write_erase: bool,
    force: bool,
) -> (r: Result<(), FlashError>)
    requires
        old(device).family().flash_base() + flash_size <= 0x1_0000_0000,
    ensures
        final(device).extends(old(device)),
        flash_refusal(old(device).family(), flash_size, address, binary@.len(), force, write_erase) matches Some(e)
            ==> r == Err::<(), FlashError>(e) && final(device).frames() == old(device).frames(),
        r is Ok ==> flash_refusal(old(device).family(), flash_size, address, binary@.len(), force, write_erase) is None
            && final(device).frames_since(old(device)) == flash_frames(
            old(device).family(),
            flash_size,
            address,
            binary@,
            write_erase,
        ),
        r is Ok ==> all_success(final(device).responses_since(old(device))),
        r is Err ==> final(device).frames_since(old(device)).is_prefix_of(
            flash_frames(old(device).family(), flash_size, address, binary@, write_erase),
        ),
        r matches Err(e) ==> e is Device || flash_refusal(
            old(device).family(),
            flash_size,
            address,
            binary@.len(),
            force,
            write_erase,
        ) == Some(e),
{
    let family = device.family();
    let plan = match plan_flash(family, flash_size, address, binary, force, write_erase) {
        Ok(p) => p,
        Err(e) => {
            return Err(e);
        },
    };
    match plan.erase_len {
        Some(n) => {
            match erase_flash_range(device, address, n) {
                Ok(()) => {},
                Err(e) => {
                    proof {
                        let full = flash_frames(family, flash_size, address, binary@, write_erase);
                        let part = device.frames_since(old(device));
                        let erased = erase_frames(family, address, n);
                        assert(part =~= part.subrange(0, part.len() as int));
                        assert(erased =~= full.subrange(0, erased.len() as int));
                    }
                    return Err(FlashError::Device(e));
                },
            }
        },
        None => {
            assert(device.frames_since(old(device)) =~= seq![]);
            assert(device.responses_since(old(device)) =~= seq![]);
        },
    }
    let ghost after_erase = *device;
    let ghost erased = after_erase.frames_since(old(device));
    let ghost full = flash_frames(family, flash_size, address, binary@, write_erase);
    let ghost image = image_frames(family, flash_size, address, binary@);
    proof {
        lemma_planned_frames(family, flash_size, address, binary@, plan.transfers@);
    }
    let res = write_flash_range(device, plan.transfers.as_slice());
    proof {
        assert(device.frames_since(old(device)) =~= erased + device.frames_since(&after_erase));
        assert(device.responses_since(old(device)) =~= after_erase.responses_since(old(device))
            + device.responses_since(&after_erase));
    }
    match res {
        Ok(()) => {
            proof {
                let a = after_erase.responses_since(old(device));
                let b = device.responses_since(&after_erase);
                assert forall|k: int| 0 <= k < (a + b).len() implies #[trigger] (a + b)[k] == seq![
                    crate::constants::COMMAND_RET_SUCCESS,
                ] by {
                    if k < a.len() {
                        assert((a + b)[k] == a[k]);
                    } else {
                        assert((a + b)[k] == b[k - a.len()]);
                    }
                }
            }
        },
        Err(e) => {
            proof {
                lemma_prefix_of_concat(erased, device.frames_since(&after_erase), image, full);
            }
            return Err(FlashError::Device(e));
        },
    }
    Ok(())
}

} // verus!
