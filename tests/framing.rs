use ti_sbl::command_checksum;
use ti_sbl::frame::{decode_command_frame, encode_frame, read_be32, read_le32};

#[test]
fn test_command_checksum() {
    // nonsensical data, just to make sure it works.
    const DATA: &[u8] = &[0xde, 0xad, 0xbe, 0xef];
    assert_eq!(command_checksum(0xCA, DATA), 0x02);
}

#[test]
fn checksum_of_empty_payload_is_the_command() {
    assert_eq!(command_checksum(0x20, &[]), 0x20);
}

#[test]
fn checksum_wraps_modulo_256() {
    assert_eq!(command_checksum(0xFF, &[0x01]), 0x00);
    assert_eq!(command_checksum(0x80, &[0x80, 0x80]), 0x80);
}

#[test]
fn ping_packet_bytes() {
    assert_eq!(encode_frame(0x20, &[]), vec![0x03, 0x20, 0x20]);
}

#[test]
fn encoded_packet_carries_length_checksum_and_payload() {
    let pkt = encode_frame(0xCA, &[0xDE, 0xAD, 0xBE, 0xEF]);
    assert_eq!(pkt, vec![0x07, 0x02, 0xCA, 0xDE, 0xAD, 0xBE, 0xEF]);
}

#[test]
fn encode_then_decode_round_trips() {
    let data: Vec<u8> = (0..252u32).map(|i| (i * 7 + 3) as u8).collect();
    for cmd in [0x00u8, 0x21, 0x24, 0xFF] {
        for len in [0usize, 1, 8, 251, 252] {
            let pkt = encode_frame(cmd, &data[..len]);
            assert_eq!(pkt.len(), 3 + len);
            assert_eq!(pkt[0] as usize, 3 + len);
            assert_eq!(pkt[1], command_checksum(cmd, &data[..len]));
            let (c, d) = decode_command_frame(&pkt).unwrap();
            assert_eq!(c, cmd);
            assert_eq!(d, data[..len].to_vec());
        }
    }
}

#[test]
fn decode_rejects_bad_length_or_checksum() {
    assert!(decode_command_frame(&[0x04, 0x20, 0x20]).is_none());
    assert!(decode_command_frame(&[0x03, 0x21, 0x20]).is_none());
    assert!(decode_command_frame(&[0x02, 0x20]).is_none());
    assert!(decode_command_frame(&[]).is_none());
}

#[test]
fn words_read_in_both_byte_orders() {
    assert_eq!(read_be32(&[0x12, 0x34, 0x56, 0x78]), 0x12345678);
    assert_eq!(read_le32(&[0x12, 0x34, 0x56, 0x78]), 0x78563412);
    assert_eq!(read_le32(&[0x14, 0x00, 0x00, 0x00]), 0x14);
}
