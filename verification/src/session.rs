//! Handshake (HELLO) packets, session ids and acknowledgement packets.

use vstd::prelude::*;
use crate::packet::{
    encode_packet, has_flags, packet_bytes, FlagBits, PacketFlags, PacketHeader, HEADER_LEN,
};

verus! {

/// Client HELLO payload status byte.
pub const HANDSHAKE_CLIENT_STATUS: u8 = 0x01;

/// Switcher/proxy HELLO OK status.
pub const HANDSHAKE_OK_STATUS: u8 = 0x02;

/// Special remote-seq value clients send after init.
pub const INIT_ACK_REMOTE_SEQ: u16 = 0x61;

#[derive(Debug, Clone, Copy, PartialEq, Eq, Structural)]
pub enum HandshakeRole {
    Client,
    Server,
}

/// Server-side session id: the high bit set over the low 15 bits of `index`.
pub open spec fn session_id_for(index: u16) -> u16 {
    (0x8000 + index % 0x8000) as u16
}

/// Assign server-side session IDs in the ATEM style: high bit set.
pub fn server_session_id(index: u16) -> (r: u16)
    ensures
        r == session_id_for(index),
        r >= 0x8000,
{
    let r = 0x8000 | (index & 0x7FFF);
    assert(0x8000 | (index & 0x7FFF) == 0x8000 + index % 0x8000) by (bit_vector);
    r
}

pub fn is_handshake_packet(flags: u8) -> (r: bool)
    ensures
        r == has_flags(flags, PacketFlags::HANDSHAKE),
{
    flags.contains(PacketFlags::HANDSHAKE)
}

pub fn parse_handshake_status(payload: &[u8]) -> (r: Option<u8>)
    ensures
        r == (if payload@.len() > 0 { Some(payload@[0]) } else { None::<u8> }),
{
    if payload.len() > 0 {
        Some(payload[0])
    } else {
        None
    }
}

/// Header of a client HELLO.
pub open spec fn client_hello_header(session_id: u16) -> PacketHeader {
    PacketHeader {
        flags: PacketFlags::HANDSHAKE,
        length: 20,
        session_id,
        ack_id: 0,
        retransmit_request: 0,
        unknown: 0x0068,
        packet_id: 0,
    }
}

pub open spec fn client_hello_payload() -> Seq<u8> {
    seq![HANDSHAKE_CLIENT_STATUS, 0u8, 0u8, 0x08u8, 0u8, 0u8, 0u8, 0u8]
}

/// Client → ATEM/proxy HELLO (20-byte packet).
pub fn build_client_handshake(session_id: u16) -> (out: Vec<u8>)
    ensures
        out@ == packet_bytes(client_hello_header(session_id), client_hello_payload()),
        out@.len() == 20,
{
    let mut header = PacketHeader::new(PacketFlags::HANDSHAKE, session_id, 20);
    header.unknown = 0x0068;
    let payload: [u8; 8] = [HANDSHAKE_CLIENT_STATUS, 0x00, 0x00, 0x08, 0x00, 0x00, 0x00, 0x00];
    assert(payload@ =~= client_hello_payload());
    encode_packet(&header, vstd::array::array_as_slice(&payload))
}

/// Header of a switcher/proxy HELLO reply.
pub open spec fn server_hello_header(session_id: u16) -> PacketHeader {
    PacketHeader {
        flags: PacketFlags::HANDSHAKE,
        length: 20,
        session_id,
        ack_id: 0,
        retransmit_request: 0,
        unknown: 0,
        packet_id: 0,
    }
}

pub open spec fn server_hello_payload() -> Seq<u8> {
    seq![HANDSHAKE_OK_STATUS, 0u8, 0u8, 0u8, 0u8, 0u8, 0u8, 0u8]
}

/// Proxy/ATEM → client HELLO reply using the assigned session id for the whole session.
pub fn build_server_handshake_reply(session_id: u16) -> (out: Vec<u8>)
    ensures
        out@ == packet_bytes(server_hello_header(session_id), server_hello_payload()),
        out@.len() == 20,
{
    let header = PacketHeader::new(PacketFlags::HANDSHAKE, session_id, 20);
    let payload: [u8; 8] = [HANDSHAKE_OK_STATUS, 0x00, 0x00, 0x00, 0x00, 0x00, 0x00, 0x00];
    assert(payload@ =~= server_hello_payload());
    encode_packet(&header, vstd::array::array_as_slice(&payload))
}

/// Header of an empty acknowledgement.
pub open spec fn ack_header(session_id: u16, ack_id: u16, packet_id: u16) -> PacketHeader {
    PacketHeader {
        flags: PacketFlags::ACK_REPLY,
        length: 12,
        session_id,
        ack_id,
        retransmit_request: 0,
        unknown: 0,
        packet_id,
    }
}

/// Empty ACK reply packet.
pub fn build_ack_reply(session_id: u16, ack_id: u16, packet_id: u16) -> (out: Vec<u8>)
    ensures
        out@ == packet_bytes(ack_header(session_id, ack_id, packet_id), Seq::empty()),
        out@.len() == HEADER_LEN,
{
    let mut header = PacketHeader::new(PacketFlags::ACK_REPLY, session_id, HEADER_LEN as u16);
    header.ack_id = ack_id;
    header.packet_id = packet_id;
    let empty: [u8; 0] = [];
    let out = encode_packet(&header, vstd::array::array_as_slice(&empty));
    assert(empty@ =~= Seq::<u8>::empty());
    out
}

/// Header of the post-init ACK a client sends to a switcher.
pub open spec fn init_ack_header(session_id: u16, ack_id: u16) -> PacketHeader {
    PacketHeader {
        flags: PacketFlags::ACK_REPLY,
        length: 12,
        session_id,
        ack_id,
        retransmit_request: 0,
        unknown: INIT_ACK_REMOTE_SEQ,
        packet_id: 0,
    }
}

/// Build the special post-init ACK used by clients toward a switcher (remote seq 0x61).
pub fn build_init_complete_ack(session_id: u16, ack_id: u16) -> (out: Vec<u8>)
    ensures
        out@ == packet_bytes(init_ack_header(session_id, ack_id), Seq::empty()),
        out@.len() == HEADER_LEN,
{
    let mut header = PacketHeader::new(PacketFlags::ACK_REPLY, session_id, HEADER_LEN as u16);
    header.ack_id = ack_id;
    header.unknown = INIT_ACK_REMOTE_SEQ;
    let empty: [u8; 0] = [];
    let out = encode_packet(&header, vstd::array::array_as_slice(&empty));
    assert(empty@ =~= Seq::<u8>::empty());
    out
}

/// Server-side session ids have the high bit set, keep the low 15 bits of the
/// index, and so differ for different indexes below 2^15.
pub proof fn lemma_session_ids_distinct(i: u16, j: u16)
    ensures
        session_id_for(i) >= 0x8000,
        session_id_for(i) as int - 0x8000 == i as int % 0x8000,
        i < 0x8000 && j < 0x8000 && i != j ==> session_id_for(i) != session_id_for(j),
{
}

} // verus!
