//! Wire-level behaviour: command framing, packet headers, packet ids and handshakes.

use atem_proxy::{
    build_ack_reply, build_client_handshake, build_init_complete_ack, build_server_handshake_reply,
    command_identity, decode_packet, encode_packet, is_ack_covering, is_handshake_packet,
    next_packet_id, parse_commands, parse_handshake_status, parse_product_name, parse_version,
    serialize_command, server_session_id, synthetic_init_complete, CommandName, FlagBits,
    PacketFlags, PacketHeader, ProtocolError, ReliableConfig, ReliableEndpoint, HANDSHAKE_CLIENT_STATUS,
    HANDSHAKE_OK_STATUS, HEADER_LEN, INIT_COMPLETE, MAX_PACKET_ID,
};

#[test]
fn command_roundtrip() {
    let raw = serialize_command(CommandName(*b"PrgI"), &[0, 0, 0, 1]);
    let cmds = parse_commands(&raw).unwrap();
    assert_eq!(cmds.len(), 1);
    assert_eq!(cmds[0].name, CommandName(*b"PrgI"));
    assert_eq!(cmds[0].body, &[0, 0, 0, 1]);
}

#[test]
fn identity_coalesces_same_me() {
    let a = command_identity(CommandName(*b"PrgI"), &[0, 0, 0, 1]);
    let b = command_identity(CommandName(*b"PrgI"), &[0, 0, 0, 2]);
    assert_eq!(a, b);
    let other_me = command_identity(CommandName(*b"PrgI"), &[1, 0, 0, 2]);
    assert_ne!(a, other_me);
}

#[test]
fn synthetic_incm_is_twelve_bytes_like_libatem() {
    let raw = synthetic_init_complete();
    assert_eq!(raw.len(), 12, "Companion skips trailing 8-byte InCm");
    let cmds = parse_commands(&raw).unwrap();
    assert_eq!(cmds.len(), 1);
    assert_eq!(cmds[0].name, CommandName(INIT_COMPLETE));
    assert_eq!(cmds[0].body, &[0x01, 0x00, 0x00, 0x00]);
}

#[test]
fn product_name_truncates_at_nul_and_drops_control_pad() {
    let mut body = b"ATEM 2 M/E Constellation HD".to_vec();
    body.extend_from_slice(&[0u8; 13]);
    body.push(0x13);
    assert_eq!(
        parse_product_name(&body).as_deref(),
        Some("ATEM 2 M/E Constellation HD")
    );
}

#[test]
fn roundtrip_header_flags_and_length() {
    let mut h = PacketHeader::new(
        PacketFlags::ACK_REQUEST | PacketFlags::ACK_REPLY,
        0x8008,
        12,
    );
    h.ack_id = 42;
    h.packet_id = 7;
    let mut buf = [0u8; HEADER_LEN];
    h.encode(&mut buf);
    let decoded = PacketHeader::decode(&buf).unwrap();
    assert_eq!(decoded.flags, h.flags);
    assert_eq!(decoded.length, 12);
    assert_eq!(decoded.session_id, 0x8008);
    assert_eq!(decoded.ack_id, 42);
    assert_eq!(decoded.packet_id, 7);
}

#[test]
fn encode_packet_sets_length() {
    let h = PacketHeader::new(PacketFlags::HANDSHAKE, 0x1234, 0);
    let pkt = encode_packet(&h, &[1, 2, 3, 4]);
    assert_eq!(pkt.len(), 16);
    let (dh, payload) = decode_packet(&pkt).unwrap();
    assert_eq!(dh.length, 16);
    assert_eq!(payload, &[1, 2, 3, 4]);
}

#[test]
fn packet_id_wraps_at_15_bits() {
    assert_eq!(next_packet_id(MAX_PACKET_ID - 1), 0);
}

#[test]
fn ack_covering_window() {
    assert!(is_ack_covering(10, 10));
    assert!(is_ack_covering(20, 10));
    assert!(!is_ack_covering(10, 20));
}

#[test]
fn packs_commands_under_mtu() {
    let mut ep = ReliableEndpoint::new(0x8001, ReliableConfig::default(), 0);
    let cmd = vec![0u8; 100];
    let cmds = vec![cmd; 20];
    ep.queue_commands_packed(&cmds);
    // Should produce multiple outbound payloads
    assert!(ep.outbound.len() > 1);
}

#[test]
fn client_handshake_is_20_bytes() {
    let pkt = build_client_handshake(0x1234);
    assert_eq!(pkt.len(), 20);
    let (h, payload) = decode_packet(&pkt).unwrap();
    assert!(h.flags.contains(PacketFlags::HANDSHAKE));
    assert_eq!(payload[0], HANDSHAKE_CLIENT_STATUS);
}

#[test]
fn server_session_sets_high_bit() {
    assert_eq!(server_session_id(8), 0x8008);
    assert_eq!(server_session_id(1), 0x8001);
}

#[test]
fn server_handshake_uses_assigned_session() {
    let pkt = build_server_handshake_reply(0x8005);
    let (h, payload) = decode_packet(&pkt).unwrap();
    assert_eq!(h.session_id, 0x8005);
    assert_eq!(payload[0], HANDSHAKE_OK_STATUS);
}

// Further cases.

#[test]
fn decode_rejects_short_and_inconsistent_packets() {
    assert_eq!(decode_packet(&[0u8; 5]).unwrap_err(), ProtocolError::TooShort(5));
    // Declared length 8 is below the header size.
    let mut bad = vec![0x00, 0x08];
    bad.extend_from_slice(&[0u8; 10]);
    assert_eq!(
        decode_packet(&bad).unwrap_err(),
        ProtocolError::LengthMismatch { declared: 8, actual: 12 }
    );
    // Declared length 20 is beyond the 12 bytes given.
    let mut long = vec![0x00, 0x14];
    long.extend_from_slice(&[0u8; 10]);
    assert_eq!(
        decode_packet(&long).unwrap_err(),
        ProtocolError::LengthMismatch { declared: 20, actual: 12 }
    );
}

#[test]
fn decode_ignores_bytes_past_the_declared_length() {
    let h = PacketHeader::new(PacketFlags::ACK_REQUEST, 7, 0);
    let mut pkt = encode_packet(&h, &[9, 9]);
    pkt.extend_from_slice(&[1, 2, 3]);
    let (dh, payload) = decode_packet(&pkt).unwrap();
    assert_eq!(dh.length, 14);
    assert_eq!(payload, &[9, 9]);
}

#[test]
fn header_flags_occupy_the_top_five_bits() {
    let h = PacketHeader::new(PacketFlags::ACK_REPLY, 0x0102, 12);
    let mut buf = [0u8; HEADER_LEN];
    h.encode(&mut buf);
    // ACK_REPLY (0x10) << 11 | 12 = 0x800c
    assert_eq!(&buf[0..4], &[0x80, 0x0c, 0x01, 0x02]);
}

#[test]
fn parse_commands_reports_bad_framing_offset() {
    let mut raw = serialize_command(CommandName(*b"PrgI"), &[0, 0, 0, 1]);
    // A second command whose length field (4) is below a frame header.
    raw.extend_from_slice(&[0, 4, 0, 0, b'X', b'X', b'X', b'X']);
    assert_eq!(parse_commands(&raw).unwrap_err(), ProtocolError::BadCommand(12));
    // Trailing bytes shorter than a frame header.
    let mut tail = serialize_command(CommandName(*b"PrgI"), &[]);
    tail.extend_from_slice(&[1, 2, 3]);
    assert_eq!(parse_commands(&tail).unwrap_err(), ProtocolError::BadCommand(8));
    assert_eq!(parse_commands(&[]).unwrap().len(), 0);
}

#[test]
fn command_name_from_bytes_and_text() {
    assert_eq!(CommandName::from_bytes(&[b'_', b'v', b'e', b'r', 9]).unwrap(), CommandName(*b"_ver"));
    assert!(CommandName::from_bytes(&[1, 2, 3]).is_err());
    assert_eq!(CommandName(*b"DCut").as_str().unwrap(), "DCut");
    assert!(CommandName([0xff, 0xfe, 0x00, 0x01]).as_str().is_err());
}

#[test]
fn version_needs_four_bytes() {
    assert_eq!(parse_version(&[0, 2, 0, 30]), Some((2, 30)));
    assert_eq!(parse_version(&[0, 2, 0]), None);
}

#[test]
fn ack_window_wraps_around_the_id_space() {
    assert!(is_ack_covering(3, 32765));
    assert!(is_ack_covering(265, 10));
    assert!(!is_ack_covering(266, 10));
    assert_eq!(next_packet_id(5), 6);
}

#[test]
fn ack_and_init_ack_packets() {
    let ack = build_ack_reply(0x8001, 9, 3);
    let (h, payload) = decode_packet(&ack).unwrap();
    assert!(h.flags.contains(PacketFlags::ACK_REPLY));
    assert_eq!((h.session_id, h.ack_id, h.packet_id), (0x8001, 9, 3));
    assert!(payload.is_empty());
    let init = build_init_complete_ack(0x8002, 4);
    let (ih, _) = decode_packet(&init).unwrap();
    assert_eq!((ih.ack_id, ih.unknown), (4, 0x61));
    assert!(!is_handshake_packet(ih.flags));
    assert_eq!(parse_handshake_status(&[2, 0]), Some(2));
    assert_eq!(parse_handshake_status(&[]), None);
}

#[test]
fn in_flight_ids_stay_consecutive_across_wrap() {
    let mut ep = ReliableEndpoint::new(0x8001, ReliableConfig::default(), 0);
    ep.next_send_id = MAX_PACKET_ID - 2;
    for _ in 0..4 {
        ep.queue_payload(vec![1, 2, 3]);
    }
    let out = ep.poll_outbound(1);
    assert_eq!(out.len(), 4);
    let ids: Vec<u16> = ep.in_flight.iter().map(|e| e.packet_id).collect();
    assert_eq!(ids, vec![MAX_PACKET_ID - 2, MAX_PACKET_ID - 1, 0, 1]);
    assert_eq!(ep.next_send_id, 2);
    // Acknowledging the first two keeps the rest in order.
    ep.on_ack_id(MAX_PACKET_ID - 1);
    let ids: Vec<u16> = ep.in_flight.iter().map(|e| e.packet_id).collect();
    assert_eq!(ids, vec![0, 1]);
}
