use ti_sbl::boot::{bootloader_entry_steps, BootStep, ControlLine};
use ti_sbl::flash::{may_overwrite_ccfg, plan_flash, FlashError};
use ti_sbl::text::{format_addr, parse_hex_address};
use ti_sbl::util::{flash_size_from_register, status_code_to_str, CCFG_SIZE};
use ti_sbl::Family;

#[test]
fn binary_ending_at_ccfg_overwrites_it() {
    let flash_size: u32 = 0x20000;
    let ccfg = flash_size - CCFG_SIZE as u32;
    let binary = vec![0u8; 256];
    let start = ccfg - 256;
    assert!(may_overwrite_ccfg(flash_size, start, &binary));
    assert!(!may_overwrite_ccfg(flash_size, start, &binary[..255]));
    assert!(may_overwrite_ccfg(flash_size, start + 1, &binary));
}

#[test]
fn tiny_flash_always_reaches_ccfg() {
    assert!(may_overwrite_ccfg(10, 0, &[]));
}

#[test]
fn ccfg_preserving_split_on_cc26x2() {
    let binary: Vec<u8> = (0..256u32).map(|i| i as u8).collect();
    let plan = plan_flash(Family::CC26X2, 0x20000, 0x1FF00, &binary, true, false).unwrap();
    assert_eq!(plan.erase_len, None);
    assert_eq!(plan.transfers.len(), 2);
    assert_eq!(plan.transfers[0].data, &binary[0..168]);
    assert_eq!(plan.transfers[0].start_address, 0x1FF00);
    assert!(plan.transfers[0].expect_ack);
    assert_eq!(plan.transfers[1].data, &binary[168..256]);
    assert_eq!(plan.transfers[1].start_address, 0x1FFA8);
    assert!(!plan.transfers[1].expect_ack);
}

#[test]
fn plain_image_is_one_transfer() {
    let binary = vec![0xAAu8; 500];
    let plan = plan_flash(Family::CC26X2, 0x20000, 0x10000, &binary, false, false).unwrap();
    assert_eq!(plan.transfers.len(), 1);
    assert_eq!(plan.transfers[0].data.len(), 500);
    assert_eq!(plan.transfers[0].start_address, 0x10000);
    assert!(plan.transfers[0].expect_ack);
}

#[test]
fn ccfg_overwrite_refused_without_force() {
    let binary = vec![0u8; 256];
    let r = plan_flash(Family::CC26X2, 0x20000, 0x1FF00, &binary, false, false);
    assert_eq!(r.err(), Some(FlashError::WouldOverwriteCcfg));
    let r = plan_flash(Family::CC26X0, 0x20000, 0x1FF00, &binary, false, false);
    assert_eq!(r.err(), Some(FlashError::WouldOverwriteCcfg));
}

#[test]
fn cc2538_has_no_ccfg_split() {
    let binary = vec![0u8; 256];
    let plan = plan_flash(Family::CC2538, 0x20000, 0x21FF00, &binary, false, true).unwrap();
    assert_eq!(plan.transfers.len(), 1);
    assert_eq!(plan.erase_len, Some(256 - 88));
}

#[test]
fn erase_length_leaves_ccfg_intact() {
    let image = vec![0u8; 0x2000];
    let plan = plan_flash(Family::CC26X2, 0x20000, 0x1E000, &image, true, true).unwrap();
    assert_eq!(plan.erase_len, Some(0x2000 - 88));
    assert_eq!(plan.transfers.len(), 2);
    let binary = vec![0u8; 256];
    let plan = plan_flash(Family::CC26X2, 0x20000, 0x10000, &binary, false, true).unwrap();
    assert_eq!(plan.erase_len, Some(256));
}

#[test]
fn plan_bounds_are_checked() {
    let big = vec![0u8; 0x20001];
    assert_eq!(
        plan_flash(Family::CC26X2, 0x20000, 0, &big, true, false).err(),
        Some(FlashError::BinaryTooLarge)
    );
    let binary = vec![0u8; 16];
    assert_eq!(
        plan_flash(Family::CC2538, 0x80000, 0x1000, &binary, false, false).err(),
        Some(FlashError::StartBelowFlashBase)
    );
    assert_eq!(
        plan_flash(Family::CC2538, 0x80000, 0x200000 + 0x80000 - 8, &binary, false, false).err(),
        Some(FlashError::EndBeyondFlash)
    );
    assert_eq!(
        plan_flash(Family::CC26X2, 0x20000, 0x20000 - 40, &binary, true, false).err(),
        Some(FlashError::ShorterThanCcfg)
    );
    assert_eq!(
        plan_flash(Family::CC26X2, 0x20000, 0x100, &binary, false, true).err(),
        Some(FlashError::UnalignedErase)
    );
    assert!(plan_flash(Family::CC26X2, 0x20000, 0x100, &binary, false, false).is_ok());
}

#[test]
fn status_code_names() {
    assert_eq!(status_code_to_str(0x40), "COMMAND_RET_SUCCESS");
    assert_eq!(status_code_to_str(0x41), "COMMAND_RET_UNKNOWN_CMD");
    assert_eq!(status_code_to_str(0x42), "COMMAND_RET_INVALID_CMD");
    assert_eq!(status_code_to_str(0x43), "COMMAND_RET_INVALID_ADR");
    assert_eq!(status_code_to_str(0x44), "COMMAND_RET_FLASH_FAIL");
    assert_eq!(status_code_to_str(0x00), "Unknown");
    assert_eq!(status_code_to_str(0x45), "Unknown");
}

#[test]
fn flash_size_register_decoding() {
    assert_eq!(flash_size_from_register(Family::CC26X2, 0x14), 163840);
    assert_eq!(flash_size_from_register(Family::CC26X2, 0xFFFF_FF10), 16 * 8192);
    assert_eq!(flash_size_from_register(Family::CC26X0, 0x20), 32 * 4092);
    assert_eq!(flash_size_from_register(Family::CC2538, 0x00), 0x10000);
    assert_eq!(flash_size_from_register(Family::CC2538, 0x10), 0x20000);
    assert_eq!(flash_size_from_register(Family::CC2538, 0x20), 0x40000);
    assert_eq!(flash_size_from_register(Family::CC2538, 0x30), 0x60000);
    assert_eq!(flash_size_from_register(Family::CC2538, 0x4F), 0x80000);
    assert_eq!(flash_size_from_register(Family::CC2538, 0x50), 0x10000);
    assert_eq!(flash_size_from_register(Family::CC2538, 0x70), 0x10000);
}

#[test]
fn ieee_address_text() {
    let addr = [0x00, 0x12, 0x4B, 0x00, 0x1A, 0xBC, 0xDE, 0xF0];
    assert_eq!(format_addr(addr), "00:12:4B:00:1A:BC:DE:F0");
    assert_eq!(format_addr([0xFF; 8]), "FF:FF:FF:FF:FF:FF:FF:FF");
}

fn apply(steps: &[BootStep], rts: &mut bool, dtr: &mut bool) {
    for step in steps {
        match step {
            BootStep::Drive(ControlLine::Rts, level) => *rts = *level,
            BootStep::Drive(ControlLine::Dtr, level) => *dtr = *level,
            BootStep::Settle => {}
        }
    }
}

#[test]
fn bootloader_entry_leaves_lines_at_rest() {
    let (mut rts, mut dtr) = (false, false);
    apply(&bootloader_entry_steps(false, false), &mut rts, &mut dtr);
    assert_eq!((rts, dtr), (false, false));

    let (mut rts, mut dtr) = (false, false);
    apply(&bootloader_entry_steps(true, false), &mut rts, &mut dtr);
    assert_eq!((rts, dtr), (false, false));

    let (mut rts, mut dtr) = (false, true);
    apply(&bootloader_entry_steps(false, true), &mut rts, &mut dtr);
    assert_eq!((rts, dtr), (false, true));

    let (mut rts, mut dtr) = (true, false);
    apply(&bootloader_entry_steps(true, true), &mut rts, &mut dtr);
    assert_eq!((rts, dtr), (true, false));
}

#[test]
fn bootloader_entry_pulses_reset_while_holding_the_pin() {
    let steps = bootloader_entry_steps(false, true);
    assert_eq!(
        steps,
        vec![
            BootStep::Drive(ControlLine::Dtr, false),
            BootStep::Drive(ControlLine::Rts, false),
            BootStep::Drive(ControlLine::Rts, true),
            BootStep::Drive(ControlLine::Rts, false),
            BootStep::Settle,
            BootStep::Drive(ControlLine::Dtr, true),
        ]
    );
}

#[test]
fn flash_addresses_parse_as_hex() {
    assert_eq!(parse_hex_address("0x00000000"), Some(0));
    assert_eq!(parse_hex_address("0x1FF00"), Some(0x1FF00));
    assert_eq!(parse_hex_address("1ff00"), Some(0x1FF00));
    assert_eq!(parse_hex_address("0xFFFFFFFF"), Some(0xFFFF_FFFF));
    assert_eq!(parse_hex_address("+10"), Some(0x10));
    assert_eq!(parse_hex_address("0x100000000"), None);
    assert_eq!(parse_hex_address("0x"), None);
    assert_eq!(parse_hex_address(""), None);
    assert_eq!(parse_hex_address("0x12G4"), None);
    assert_eq!(parse_hex_address("0X10"), None);
}
