use std::collections::VecDeque;

use ti_sbl::flash::{flash, plan_flash, FlashError};
use ti_sbl::frame::{command_checksum, decode_command_frame};
use ti_sbl::util::{
    check_chunk_ack, check_status, erase_flash_range, read_flash_size, read_ieee_address, write_flash_range, Transfer,
};
use ti_sbl::{Device, Error, Family, Transport, TransportError};

/// A simulated bootloader on the other end of the line.
struct Chip {
    /// Every byte the host wrote.
    written: Vec<u8>,
    /// Host bytes not yet understood.
    pending: Vec<u8>,
    /// Bytes waiting to be read by the host.
    outbox: VecDeque<u8>,
    /// Every command packet received, decoded.
    commands: Vec<(u8, Vec<u8>)>,
    /// Answer nothing until the baud rate has been synchronised.
    needs_auto_baud: bool,
    synced: bool,
    /// Answer no command from this one on (counted from 0).
    silent_from: Option<usize>,
    /// Answer the auto-baud bytes with NACK.
    refuse_auto_baud: bool,
    /// Statuses to answer `GetStatus` with, in order; success once empty.
    statuses: VecDeque<u8>,
    /// Opcodes to answer with NACK.
    nack: Vec<u8>,
    /// Answer `SendData` with NACK after this many of them.
    nack_send_data_after: Option<usize>,
    /// Words that memory reads return, by address.
    memory: Vec<(u32, [u8; 4])>,
    /// Report end of stream once nothing is left to read.
    eof_when_empty: bool,
    /// Length byte to put in responses instead of the right one.
    bad_response_len: Option<u8>,
    timeout_ms: u64,
    /// Refuse every write.
    broken: bool,
}

impl Chip {
    fn new() -> Chip {
        Chip {
            written: Vec::new(),
            pending: Vec::new(),
            outbox: VecDeque::new(),
            commands: Vec::new(),
            needs_auto_baud: false,
            synced: false,
            silent_from: None,
            refuse_auto_baud: false,
            statuses: VecDeque::new(),
            nack: Vec::new(),
            nack_send_data_after: None,
            memory: Vec::new(),
            eof_when_empty: false,
            bad_response_len: None,
            timeout_ms: 0,
            broken: false,
        }
    }

    fn respond(&mut self, payload: &[u8]) {
        let len = self.bad_response_len.unwrap_or((payload.len() + 2) as u8);
        self.outbox.push_back(len);
        self.outbox.push_back(command_checksum(0, payload));
        self.outbox.extend(payload.iter().copied());
    }

    fn word_at(&self, address: u32) -> [u8; 4] {
        self.memory
            .iter()
            .find(|(a, _)| *a == address)
            .map(|(_, w)| *w)
            .unwrap_or([0xFF; 4])
    }

    fn process(&mut self) {
        loop {
            if self.pending.len() >= 2 && self.pending[0] == 0x00 && (self.pending[1] == 0xCC || self.pending[1] == 0x33) {
                self.pending.drain(..2);
            } else if self.pending.len() >= 2 && self.pending[0] == 0x55 && self.pending[1] == 0x55 {
                self.pending.drain(..2);
                self.synced = true;
                let token = if self.refuse_auto_baud { 0x33 } else { 0xCC };
                self.outbox.extend([0x00, token]);
            } else if !self.pending.is_empty() && self.pending.len() >= self.pending[0] as usize && self.pending[0] >= 3 {
                let n = self.pending[0] as usize;
                let pkt: Vec<u8> = self.pending.drain(..n).collect();
                let (cmd, data) = decode_command_frame(&pkt).expect("well-formed packet");
                self.commands.push((cmd, data.clone()));
                if self.needs_auto_baud && !self.synced {
                    continue;
                }
                if self.silent_from.map_or(false, |k| self.commands.len() > k) {
                    continue;
                }
                let sends = self.commands.iter().filter(|(c, _)| *c == 0x24).count();
                let nacked = self.nack.contains(&cmd)
                    || (cmd == 0x24 && self.nack_send_data_after.map_or(false, |k| sends > k));
                self.outbox.extend([0xFF, 0x00, if nacked { 0x33 } else { 0xCC }]);
                if nacked {
                    continue;
                }
                match cmd {
                    0x23 => {
                        let st = self.statuses.pop_front().unwrap_or(0x40);
                        self.respond(&[st]);
                    }
                    0x28 => self.respond(&[0x3B, 0xB4, 0x10, 0x2F]),
                    0x2A => {
                        let address = u32::from_be_bytes([data[0], data[1], data[2], data[3]]);
                        let mut out = Vec::new();
                        for k in 0..data[5] as u32 {
                            out.extend_from_slice(&self.word_at(address + 4 * k));
                        }
                        self.respond(&out);
                    }
                    _ => {}
                }
            } else {
                break;
            }
        }
    }
}

impl Transport for Chip {
    fn set_timeout_ms(&mut self, ms: u64) -> Result<(), TransportError> {
        self.timeout_ms = ms;
        Ok(())
    }

    fn write_all(&mut self, data: &[u8]) -> Result<(), TransportError> {
        if self.broken {
            return Err(TransportError::Io("line is down".to_string()));
        }
        self.written.extend_from_slice(data);
        self.pending.extend_from_slice(data);
        self.process();
        Ok(())
    }

    fn flush(&mut self) -> Result<(), TransportError> {
        Ok(())
    }

    fn read_byte(&mut self) -> Result<Option<u8>, TransportError> {
        match self.outbox.pop_front() {
            Some(b) => Ok(Some(b)),
            None if self.eof_when_empty => Ok(None),
            None => Err(TransportError::TimedOut),
        }
    }
}

fn open(chip: Chip, family: Family) -> Device<Chip> {
    Device::new(chip, family).unwrap()
}

/// The commands after the opening one, as opcodes and payloads.
fn commands_of(device: Device<Chip>) -> Vec<(u8, Vec<u8>)> {
    let chip = device.into_transport();
    chip.commands[1..].to_vec()
}

#[test]
fn opening_sets_timeout_and_sends_empty_command() {
    let device = open(Chip::new(), Family::CC26X2);
    assert_eq!(device.family(), Family::CC26X2);
    let chip = device.into_transport();
    assert_eq!(chip.timeout_ms, 200);
    assert_eq!(chip.written, vec![0x03, 0x00, 0x00]);
}

#[test]
fn ping_round_trip() {
    let mut device = open(Chip::new(), Family::CC26X2);
    assert_eq!(device.ping(), Ok(true));
    let chip = device.into_transport();
    assert_eq!(chip.written[3..], [0x03, 0x20, 0x20]);
}

#[test]
fn ping_answered_with_nack_is_false() {
    let mut chip = Chip::new();
    chip.nack = vec![0x20];
    let mut device = open(chip, Family::CC26X2);
    assert_eq!(device.ping(), Ok(false));
}

#[test]
fn auto_baud_fallback() {
    let mut chip = Chip::new();
    chip.needs_auto_baud = true;
    let device = Device::new(chip, Family::CC26X2).unwrap();
    let chip = device.into_transport();
    assert_eq!(chip.written, vec![0x03, 0x00, 0x00, 0x55, 0x55]);
}

#[test]
fn auto_baud_refused_is_not_connected() {
    let mut chip = Chip::new();
    chip.needs_auto_baud = true;
    chip.refuse_auto_baud = true;
    assert_eq!(Device::new(chip, Family::CC26X2).err(), Some(Error::NotConnected));
}

#[test]
fn end_of_stream_is_an_error() {
    let mut chip = Chip::new();
    chip.eof_when_empty = true;
    chip.silent_from = Some(1);
    let mut device = open(chip, Family::CC26X2);
    assert_eq!(device.ping(), Err(Error::UnexpectedEof));
}

#[test]
fn silent_chip_times_out() {
    let mut chip = Chip::new();
    chip.silent_from = Some(1);
    let mut device = open(chip, Family::CC26X2);
    assert_eq!(device.ping(), Err(Error::AckTimeout));
}

#[test]
fn download_nack_is_reported() {
    let mut chip = Chip::new();
    chip.nack = vec![0x21];
    let mut device = open(chip, Family::CC26X2);
    assert_eq!(device.download(0x1000, 16), Err(Error::NotAcknowledged(0x21)));
}

#[test]
fn download_payload_is_big_endian() {
    let mut device = open(Chip::new(), Family::CC26X2);
    device.download(0x12345678, 0x9ABCDEF0).unwrap();
    let cmds = commands_of(device);
    assert_eq!(cmds, vec![(0x21, vec![0x12, 0x34, 0x56, 0x78, 0x9A, 0xBC, 0xDE, 0xF0])]);
}

#[test]
fn status_and_chip_id_are_read() {
    let mut chip = Chip::new();
    chip.statuses = VecDeque::from(vec![0x43]);
    let mut device = open(chip, Family::CC26X2);
    assert_eq!(device.get_status(), Ok(0x43));
    assert_eq!(device.get_chip_id(), Ok(0x3BB4102F));
    let chip = device.into_transport();
    // Each response is acknowledged by the host.
    assert_eq!(chip.written[6..8], [0x00, 0xCC]);
    assert_eq!(chip.written[11..13], [0x00, 0xCC]);
}

#[test]
fn response_of_wrong_length_is_refused() {
    let mut chip = Chip::new();
    chip.bad_response_len = Some(4);
    let mut device = open(chip, Family::CC26X2);
    assert_eq!(device.get_status(), Err(Error::ResponseLength { expected: 1, found: 2 }));
}

#[test]
fn write_500_bytes_at_0x10000() {
    let binary: Vec<u8> = (0..500u32).map(|i| (i % 251) as u8).collect();
    let plan = plan_flash(Family::CC26X2, 0x20000, 0x10000, &binary, false, false).unwrap();
    let mut device = open(Chip::new(), Family::CC26X2);
    write_flash_range(&mut device, &plan.transfers).unwrap();
    let cmds = commands_of(device);
    assert_eq!(cmds.len(), 6);
    assert_eq!(cmds[0], (0x21, vec![0x00, 0x01, 0x00, 0x00, 0x00, 0x00, 0x01, 0xF4]));
    assert_eq!(cmds[1], (0x23, vec![]));
    assert_eq!(cmds[2], (0x24, binary[..252].to_vec()));
    assert_eq!(cmds[3], (0x23, vec![]));
    assert_eq!(cmds[4], (0x24, binary[252..].to_vec()));
    assert_eq!(cmds[4].1.len(), 248);
    assert_eq!(cmds[5], (0x23, vec![]));
}

fn send_data_sizes(len: usize) -> Vec<usize> {
    let data = vec![0x5Au8; len];
    let transfers = [Transfer { data: &data, start_address: 0, expect_ack: true }];
    let mut device = open(Chip::new(), Family::CC26X2);
    write_flash_range(&mut device, &transfers).unwrap();
    commands_of(device).iter().filter(|(c, _)| *c == 0x24).map(|(_, d)| d.len()).collect()
}

#[test]
fn chunk_of_252_is_one_send_data() {
    assert_eq!(send_data_sizes(252), vec![252]);
}

#[test]
fn chunk_of_253_is_two_send_data() {
    assert_eq!(send_data_sizes(253), vec![252, 1]);
}

#[test]
fn empty_transfer_sends_no_data() {
    assert_eq!(send_data_sizes(0), Vec::<usize>::new());
    assert_eq!(send_data_sizes(504), vec![252, 252]);
}

#[test]
fn bad_status_after_download_stops_the_write() {
    let mut chip = Chip::new();
    chip.statuses = VecDeque::from(vec![0x41]);
    let data = vec![1u8; 300];
    let transfers = [Transfer { data: &data, start_address: 0, expect_ack: true }];
    let mut device = open(chip, Family::CC26X2);
    let r = write_flash_range(&mut device, &transfers);
    assert_eq!(r, Err(Error::Status { command: 0x21, status: 0x41 }));
    let cmds = commands_of(device);
    assert_eq!(cmds.len(), 2);
}

#[test]
fn bad_status_after_a_chunk_stops_the_write() {
    let mut chip = Chip::new();
    chip.statuses = VecDeque::from(vec![0x40, 0x44]);
    let data = vec![1u8; 600];
    let transfers = [Transfer { data: &data, start_address: 0, expect_ack: true }];
    let mut device = open(chip, Family::CC26X2);
    let r = write_flash_range(&mut device, &transfers);
    assert_eq!(r, Err(Error::Status { command: 0x24, status: 0x44 }));
    let cmds = commands_of(device);
    assert_eq!(cmds.len(), 4);
    assert_eq!(cmds[3].0, 0x23);
}

#[test]
fn nacked_chunk_names_its_place() {
    let mut chip = Chip::new();
    chip.nack_send_data_after = Some(1);
    let data = vec![1u8; 600];
    let transfers = [
        Transfer { data: &data[..10], start_address: 0x4000, expect_ack: true },
        Transfer { data: &data, start_address: 0x10000, expect_ack: true },
    ];
    let mut device = open(chip, Family::CC26X2);
    let r = write_flash_range(&mut device, &transfers);
    assert_eq!(
        r,
        Err(Error::ChunkNotAcknowledged { transfer: 1, chunk: 0, address: 0x10000, page: 8 })
    );
}

#[test]
fn ccfg_preserving_write_ignores_tail_acknowledgements() {
    let binary: Vec<u8> = (0..256u32).map(|i| i as u8).collect();
    let mut chip = Chip::new();
    chip.nack_send_data_after = Some(1);
    let mut device = open(chip, Family::CC26X2);
    flash(&mut device, 0x20000, 0x1FF00, &binary, false, true).unwrap();
    let cmds = commands_of(device);
    let opcodes: Vec<u8> = cmds.iter().map(|(c, _)| *c).collect();
    assert_eq!(opcodes, vec![0x21, 0x23, 0x24, 0x23, 0x21, 0x23, 0x24]);
    assert_eq!(cmds[0].1, vec![0x00, 0x01, 0xFF, 0x00, 0x00, 0x00, 0x00, 0xA8]);
    assert_eq!(cmds[2].1, binary[..168].to_vec());
    assert_eq!(cmds[4].1, vec![0x00, 0x01, 0xFF, 0xA8, 0x00, 0x00, 0x00, 0x58]);
    assert_eq!(cmds[6].1, binary[168..].to_vec());
}

#[test]
fn flash_refuses_before_touching_the_chip() {
    let binary = vec![0u8; 256];
    let mut device = open(Chip::new(), Family::CC26X2);
    let r = flash(&mut device, 0x20000, 0x1FF00, &binary, false, false);
    assert_eq!(r, Err(FlashError::WouldOverwriteCcfg));
    assert!(commands_of(device).is_empty());
}

#[test]
fn flash_with_erase_erases_then_writes() {
    let binary = vec![7u8; 300];
    let mut device = open(Chip::new(), Family::CC26X2);
    flash(&mut device, 0x20000, 0x2000, &binary, true, false).unwrap();
    let opcodes: Vec<u8> = commands_of(device).iter().map(|(c, _)| *c).collect();
    assert_eq!(opcodes, vec![0x26, 0x23, 0x21, 0x23, 0x24, 0x23, 0x24, 0x23]);
}

#[test]
fn sector_erase_two_sectors() {
    let mut device = open(Chip::new(), Family::CC26X2);
    erase_flash_range(&mut device, 0x0, 16384).unwrap();
    let cmds = commands_of(device);
    assert_eq!(
        cmds,
        vec![
            (0x26, vec![0x00, 0x00, 0x00, 0x00]),
            (0x23, vec![]),
            (0x26, vec![0x00, 0x00, 0x20, 0x00]),
            (0x23, vec![]),
        ]
    );
}

#[test]
fn partial_sector_counts_as_a_whole_one() {
    let mut device = open(Chip::new(), Family::CC26X0);
    erase_flash_range(&mut device, 4092, 4093).unwrap();
    let cmds = commands_of(device);
    assert_eq!(cmds.len(), 4);
    assert_eq!(cmds[0].1, 4092u32.to_be_bytes().to_vec());
    assert_eq!(cmds[2].1, 8184u32.to_be_bytes().to_vec());
}

#[test]
fn failed_sector_erase_names_the_status() {
    let mut chip = Chip::new();
    chip.statuses = VecDeque::from(vec![0x40, 0x43]);
    let mut device = open(chip, Family::CC26X2);
    let r = erase_flash_range(&mut device, 0, 3 * 8192);
    assert_eq!(r, Err(Error::Status { command: 0x26, status: 0x43 }));
    assert_eq!(commands_of(device).len(), 4);
}

#[test]
fn cc2538_erases_the_range_at_once() {
    let mut device = open(Chip::new(), Family::CC2538);
    erase_flash_range(&mut device, 0x00200000, 0x1000).unwrap();
    let cmds = commands_of(device);
    assert_eq!(cmds, vec![(0x26, vec![0x00, 0x20, 0x00, 0x00, 0x00, 0x00, 0x10, 0x00])]);
}

#[test]
fn cc2538_switches_to_xosc() {
    let mut device = open(Chip::new(), Family::CC2538);
    assert_eq!(device.set_xosc(), Ok(()));
    assert_eq!(commands_of(device), vec![(0x29, vec![])]);
}

#[test]
fn read_flash_size_on_cc26x2() {
    let mut chip = Chip::new();
    chip.memory = vec![(0x4003002C, [0x14, 0x00, 0x00, 0x00])];
    let mut device = open(chip, Family::CC26X2);
    assert_eq!(read_flash_size(&mut device), Ok(163840));
    let cmds = commands_of(device);
    assert_eq!(cmds, vec![(0x2A, vec![0x40, 0x03, 0x00, 0x2C, 0x01, 0x01])]);
}

#[test]
fn memory_read_fills_the_buffer() {
    let mut chip = Chip::new();
    chip.memory = vec![(0x1000, [1, 2, 3, 4]), (0x1004, [5, 6, 7, 8])];
    let mut device = open(chip, Family::CC26X0);
    let mut buf = [0u8; 8];
    device.memory_read_32(0x1000, &mut buf).unwrap();
    assert_eq!(buf, [1, 2, 3, 4, 5, 6, 7, 8]);
}

#[test]
fn ieee_addresses_are_read() {
    let mut chip = Chip::new();
    chip.memory = vec![
        (0x4003002C, [0x10, 0x00, 0x00, 0x00]),
        (0x2F0, [0x00, 0x12, 0x4B, 0x00]),
        (0x2F4, [0x1A, 0xBC, 0xDE, 0xF0]),
    ];
    let mut device = open(chip, Family::CC26X2);
    let (primary, secondary) = read_ieee_address(&mut device).unwrap();
    assert_eq!(primary, [0x00, 0x12, 0x4B, 0x00, 0x1A, 0xBC, 0xDE, 0xF0]);
    assert_eq!(secondary, ti_sbl::util::INVALID_ADDR);
    let cmds = commands_of(device);
    let secondary_at = 0x20000u32 - 88 + 0x20;
    assert_eq!(cmds[2].1[..4], secondary_at.to_be_bytes());
}

#[test]
fn zero_flash_size_is_refused() {
    let mut chip = Chip::new();
    chip.memory = vec![(0x4003002C, [0x00, 0x00, 0x00, 0x00])];
    let mut device = open(chip, Family::CC26X2);
    assert_eq!(read_ieee_address(&mut device), Err(Error::FlashSizeTooSmall(0)));
}

#[test]
fn broken_line_is_a_transport_error() {
    let mut chip = Chip::new();
    chip.broken = true;
    assert_eq!(
        Device::new(chip, Family::CC26X2).err(),
        Some(Error::Transport(TransportError::Io("line is down".to_string())))
    );
}

#[test]
fn device_failure_while_flashing_is_reported() {
    let mut chip = Chip::new();
    chip.statuses = VecDeque::from(vec![0x43]);
    let binary = vec![1u8; 16];
    let mut device = open(chip, Family::CC26X2);
    let r = flash(&mut device, 0x20000, 0x1000, &binary, false, false);
    assert_eq!(r, Err(FlashError::Device(Error::Status { command: 0x21, status: 0x43 })));
}

#[test]
fn only_success_status_passes() {
    assert_eq!(check_status(0x24, 0x40), Ok(()));
    for st in [0x00u8, 0x41, 0x42, 0x43, 0x44, 0xFF] {
        assert_eq!(check_status(0x24, st), Err(Error::Status { command: 0x24, status: st }));
    }
}

#[test]
fn sector_erase_nack_is_reported() {
    let mut chip = Chip::new();
    chip.nack = vec![0x26];
    let mut device = open(chip, Family::CC26X2);
    assert_eq!(device.sector_erase(0x4000), Err(Error::NotAcknowledged(0x26)));
}

#[test]
fn send_data_nack_is_not_an_error() {
    let mut chip = Chip::new();
    chip.nack = vec![0x24];
    let mut device = open(chip, Family::CC26X2);
    assert_eq!(device.send_data(&[1, 2, 3]), Ok(false));
    let chip = device.into_transport();
    assert_eq!(chip.written[3..], [0x06, 0x2A, 0x24, 1, 2, 3]);
}

#[test]
fn nothing_to_write_or_erase_succeeds_silently() {
    let mut device = open(Chip::new(), Family::CC26X2);
    assert_eq!(write_flash_range(&mut device, &[]), Ok(()));
    assert_eq!(erase_flash_range(&mut device, 0, 0), Ok(()));
    assert!(commands_of(device).is_empty());
}

#[test]
fn chunk_nack_matters_only_when_acknowledgements_are_expected() {
    assert_eq!(check_chunk_ack(true, true, 0, 1, 0x100, 0), Ok(()));
    assert_eq!(check_chunk_ack(false, false, 0, 1, 0x100, 0), Ok(()));
    assert_eq!(check_chunk_ack(false, true, 0, 1, 0x100, 0), Ok(()));
    assert_eq!(
        check_chunk_ack(true, false, 2, 3, 0x4000, 2),
        Err(Error::ChunkNotAcknowledged { transfer: 2, chunk: 3, address: 0x4000, page: 2 })
    );
}

#[test]
fn download_nack_stops_the_write() {
    let mut chip = Chip::new();
    chip.nack = vec![0x21];
    let data = vec![1u8; 10];
    let transfers = [Transfer { data: &data, start_address: 0, expect_ack: true }];
    let mut device = open(chip, Family::CC26X2);
    assert_eq!(write_flash_range(&mut device, &transfers), Err(Error::NotAcknowledged(0x21)));
    assert_eq!(commands_of(device).len(), 1);
}
