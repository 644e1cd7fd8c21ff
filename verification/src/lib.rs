//! Blackmagic ATEM UDP protocol helpers and the decision logic of a
//! transparent multi-client ATEM proxy.

pub mod endian;
pub mod error;

pub use error::ProtocolError;
pub mod text;
pub mod command;
pub mod packet;
pub mod session;
pub mod reliable;
pub mod ordered_map;
pub mod cache;
pub mod addr;
pub mod locks;
pub mod config;
pub mod transfer;
pub mod filter;
pub mod mdns;
pub mod upstream;
pub mod server;

pub use command::{
    command_identity, is_audio_levels_subscribe, is_ephemeral_command, is_lock_command,
    is_lock_request, is_lock_status, is_transfer_command, lock_request_enabled, lock_store_id,
    parse_commands, parse_product_name, parse_version, serialize_command, synthesize_unlock,
    synthetic_init_complete, CommandName, CommandRef, INIT_COMPLETE,
};
pub use packet::{
    decode_packet, encode_packet, FlagBits, PacketFlags, PacketHeader, ATEM_UDP_PORT, HEADER_LEN,
    MAX_PACKET_LEN,
};
pub use reliable::{
    is_ack_covering, next_packet_id, AckState, InFlightEntry, ReliableConfig, ReliableEndpoint,
    SeqSpace, MAX_PACKET_ID,
};
pub use session::{
    build_ack_reply, build_client_handshake, build_init_complete_ack, build_server_handshake_reply,
    is_handshake_packet, parse_handshake_status, server_session_id, HandshakeRole,
    HANDSHAKE_CLIENT_STATUS, HANDSHAKE_OK_STATUS, INIT_ACK_REMOTE_SEQ,
};
