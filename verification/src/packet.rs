//! The 12-byte ATEM UDP header and whole-datagram encoding.

use vstd::prelude::*;
use crate::endian::{be16, be16_bytes, lemma_be16_roundtrip, push_be16, push_bytes, read_be16};
use crate::error::ProtocolError;

verus! {

pub const ATEM_UDP_PORT: u16 = 9910;

pub const HEADER_LEN: usize = 12;

/// Practical max packed datagram size (LibAtem packs to about 1400 bytes).
pub const MAX_PACKET_LEN: usize = 1400;

/// Header flag bits. They live in the high 5 bits of the first big-endian `u16`
/// (the low 11 bits hold the length); a header keeps them as a `u8`.
pub struct PacketFlags;

impl PacketFlags {
    pub const ACK_REQUEST: u8 = 0x01;
    pub const HANDSHAKE: u8 = 0x02;
    pub const IS_RETRANSMIT: u8 = 0x04;
    pub const RETRANSMIT_REQUEST: u8 = 0x08;
    pub const ACK_REPLY: u8 = 0x10;

    /// Keeps only the five defined flag bits.
    pub fn from_bits_truncate(bits: u8) -> (r: u8)
        ensures
            r == bits & 0x1f,
            r < 32,
    {
        assert(bits & 0x1f < 32) by (bit_vector);
        bits & 0x1f
    }
}

proof fn lemma_low_five_bits(x: u8)
    requires
        x < 32,
    ensures
        x & 0x1f == x,
{
    assert(x < 32 ==> x & 0x1f == x) by (bit_vector);
}

/// All bits of `f` are set in `flags`.
pub open spec fn has_flags(flags: u8, f: u8) -> bool {
    flags & f == f
}

/// Flag-set queries on a header's flag bits.
pub trait FlagBits {
    /// Every bit of `other` is set in `self`.
    fn contains(self, other: Self) -> bool;
}

impl FlagBits for u8 {
    fn contains(self, other: u8) -> (r: bool)
        ensures
            r == has_flags(self, other),
    {
        self & other == other
    }
}

/// 12-byte ATEM UDP header.
#[derive(Debug, Clone, Copy, PartialEq, Eq, Structural)]
pub struct PacketHeader {
    pub flags: u8,
    pub length: u16,
    pub session_id: u16,
    pub ack_id: u16,
    pub retransmit_request: u16,
    pub unknown: u16,
    pub packet_id: u16,
}

/// The first header word: five flag bits above eleven length bits.
pub open spec fn flags_len_word(h: PacketHeader) -> u16 {
    ((h.flags % 32) as int * 2048 + (h.length % 2048) as int) as u16
}

/// The wire bytes of a header.
pub open spec fn header_bytes(h: PacketHeader) -> Seq<u8> {
    be16_bytes(flags_len_word(h)) + be16_bytes(h.session_id) + be16_bytes(h.ack_id) + be16_bytes(
        h.retransmit_request,
    ) + be16_bytes(h.unknown) + be16_bytes(h.packet_id)
}

/// The header read from the first 12 bytes of `b`.
pub open spec fn header_from_bytes(b: Seq<u8>) -> PacketHeader {
    let w = be16(b[0], b[1]);
    PacketHeader {
        flags: (w / 2048) as u8,
        length: w % 2048,
        session_id: be16(b[2], b[3]),
        ack_id: be16(b[4], b[5]),
        retransmit_request: be16(b[6], b[7]),
        unknown: be16(b[8], b[9]),
        packet_id: be16(b[10], b[11]),
    }
}

/// A header field set that survives encoding unchanged.
pub open spec fn header_encodable(h: PacketHeader) -> bool {
    h.flags < 32 && h.length < 2048
}

impl PacketHeader {
    pub fn new(flags: u8, session_id: u16, length: u16) -> (h: Self)
        ensures
            h == (PacketHeader {
                flags,
                length,
                session_id,
                ack_id: 0,
                retransmit_request: 0,
                unknown: 0,
                packet_id: 0,
            }),
    {
        Self { flags, length, session_id, ack_id: 0, retransmit_request: 0, unknown: 0, packet_id: 0 }
    }

    /// The first header word as the wire holds it.
    fn flags_len(&self) -> (w: u16)
        ensures
            w == flags_len_word(*self),
    {
        ((self.flags % 32) as u16) * 2048 + self.length % 2048
    }

    pub fn encode(&self, out: &mut [u8; HEADER_LEN])
        ensures
            final(out)@ == header_bytes(*self),
    {
        let w = self.flags_len();
        let mut v: Vec<u8> = Vec::new();
        push_be16(&mut v, w);
        push_be16(&mut v, self.session_id);
        push_be16(&mut v, self.ack_id);
        push_be16(&mut v, self.retransmit_request);
        push_be16(&mut v, self.unknown);
        push_be16(&mut v, self.packet_id);
        assert(v@ =~= header_bytes(*self));
        *out = [v[0], v[1], v[2], v[3], v[4], v[5], v[6], v[7], v[8], v[9], v[10], v[11]];
        assert(out@ =~= header_bytes(*self));
    }

    pub fn decode(buf: &[u8]) -> (r: Result<Self, ProtocolError>)
        ensures
            r is Err <==> buf@.len() < HEADER_LEN,
            r matches Err(e) ==> e == ProtocolError::TooShort(buf@.len() as usize),
            r matches Ok(h) ==> h == header_from_bytes(buf@),
    {
        if buf.len() < HEADER_LEN {
            return Err(ProtocolError::TooShort(buf.len()));
        }
        let flags_len = read_be16(buf[0], buf[1]);
        let high = (flags_len / 2048) as u8;
        proof {
            lemma_low_five_bits(high);
        }
        let flags = PacketFlags::from_bits_truncate(high);
        let length = flags_len % 2048;
        Ok(Self {
            flags,
            length,
            session_id: read_be16(buf[2], buf[3]),
            ack_id: read_be16(buf[4], buf[5]),
            retransmit_request: read_be16(buf[6], buf[7]),
            unknown: read_be16(buf[8], buf[9]),
            packet_id: read_be16(buf[10], buf[11]),
        })
    }
}

/// What `decode_packet` makes of a datagram.
pub open spec fn decode_packet_spec(b: Seq<u8>) -> Result<(PacketHeader, Seq<u8>), ProtocolError> {
    if b.len() < 12 {
        Err(ProtocolError::TooShort(b.len() as usize))
    } else {
        let h = header_from_bytes(b);
        let declared = h.length as int;
        if declared < 12 || b.len() < declared {
            Err(ProtocolError::LengthMismatch { declared: declared as usize, actual: b.len() as usize })
        } else {
            Ok((h, b.subrange(12, declared)))
        }
    }
}

pub fn decode_packet(buf: &[u8]) -> (r: Result<(PacketHeader, &[u8]), ProtocolError>)
    ensures
        match r {
            Ok((h, p)) => decode_packet_spec(buf@) == Ok::<(PacketHeader, Seq<u8>), ProtocolError>((h, p@)),
            Err(e) => decode_packet_spec(buf@) == Err::<(PacketHeader, Seq<u8>), ProtocolError>(e),
        },
{
    let header = PacketHeader::decode(buf)?;
    let declared = header.length as usize;
    if declared < HEADER_LEN {
        return Err(ProtocolError::LengthMismatch { declared, actual: buf.len() });
    }
    if buf.len() < declared {
        return Err(ProtocolError::LengthMismatch { declared, actual: buf.len() });
    }
    Ok((header, &buf[HEADER_LEN..declared]))
}

/// The header `encode_packet` writes: the given one with the length of the datagram.
pub open spec fn with_length(h: PacketHeader, payload_len: int) -> PacketHeader {
    PacketHeader { length: (12 + payload_len) as u16, ..h }
}

/// The datagram `encode_packet` produces.
pub open spec fn packet_bytes(h: PacketHeader, payload: Seq<u8>) -> Seq<u8> {
    header_bytes(with_length(h, payload.len() as int)) + payload
}

/// Encode a header (with its length set to the datagram size) followed by the payload.
pub fn encode_packet(header: &PacketHeader, payload: &[u8]) -> (out: Vec<u8>)
    requires
        HEADER_LEN + payload@.len() <= u16::MAX,
    ensures
        out@ == packet_bytes(*header, payload@),
        out@.len() == HEADER_LEN + payload@.len(),
{
    let mut h = *header;
    h.length = (HEADER_LEN + payload.len()) as u16;
    let mut hdr = [0u8; HEADER_LEN];
    h.encode(&mut hdr);
    let mut out = Vec::new();
    push_bytes(&mut out, vstd::array::array_as_slice(&hdr));
    push_bytes(&mut out, payload);
    assert(h == with_length(*header, payload@.len() as int));
    out
}

/// Encode-then-decode: decoding a header's bytes gives the header back.
pub proof fn lemma_header_roundtrip(h: PacketHeader)
    requires
        header_encodable(h),
    ensures
        header_from_bytes(header_bytes(h)) == h,
{
    let b = header_bytes(h);
    lemma_be16_roundtrip(flags_len_word(h));
    lemma_be16_roundtrip(h.session_id);
    lemma_be16_roundtrip(h.ack_id);
    lemma_be16_roundtrip(h.retransmit_request);
    lemma_be16_roundtrip(h.unknown);
    lemma_be16_roundtrip(h.packet_id);
    assert(b[0] == be16_bytes(flags_len_word(h))[0] && b[1] == be16_bytes(flags_len_word(h))[1]);
    assert(b[2] == be16_bytes(h.session_id)[0] && b[3] == be16_bytes(h.session_id)[1]);
    assert(b[4] == be16_bytes(h.ack_id)[0] && b[5] == be16_bytes(h.ack_id)[1]);
    assert(b[6] == be16_bytes(h.retransmit_request)[0] && b[7] == be16_bytes(h.retransmit_request)[1]);
    assert(b[8] == be16_bytes(h.unknown)[0] && b[9] == be16_bytes(h.unknown)[1]);
    assert(b[10] == be16_bytes(h.packet_id)[0] && b[11] == be16_bytes(h.packet_id)[1]);
}

/// Wire layout of an encoded header: twelve bytes, the flags-and-length word
/// (five flag bits above eleven length bits) in bytes 0-1, then the session id,
/// ack id, retransmit request, unknown field and packet id, each big-endian, in
/// bytes 2-3, 4-5, 6-7, 8-9 and 10-11.
pub proof fn lemma_header_layout(h: PacketHeader)
    ensures
        header_bytes(h).len() == 12,
        header_bytes(h)[0] == ((h.flags % 32) as int * 2048 + (h.length % 2048) as int) / 256,
        header_bytes(h)[1] == ((h.flags % 32) as int * 2048 + (h.length % 2048) as int) % 256,
        header_bytes(h)[2] == h.session_id as int / 256,
        header_bytes(h)[3] == h.session_id as int % 256,
        header_bytes(h)[4] == h.ack_id as int / 256,
        header_bytes(h)[5] == h.ack_id as int % 256,
        header_bytes(h)[6] == h.retransmit_request as int / 256,
        header_bytes(h)[7] == h.retransmit_request as int % 256,
        header_bytes(h)[8] == h.unknown as int / 256,
        header_bytes(h)[9] == h.unknown as int % 256,
        header_bytes(h)[10] == h.packet_id as int / 256,
        header_bytes(h)[11] == h.packet_id as int % 256,
{
    let b = header_bytes(h);
    let w = flags_len_word(h);
    assert(w as int == (h.flags % 32) as int * 2048 + (h.length % 2048) as int);
    assert(b[0] == be16_bytes(w)[0] && b[1] == be16_bytes(w)[1]);
    assert(b[2] == be16_bytes(h.session_id)[0] && b[3] == be16_bytes(h.session_id)[1]);
    assert(b[4] == be16_bytes(h.ack_id)[0] && b[5] == be16_bytes(h.ack_id)[1]);
    assert(b[6] == be16_bytes(h.retransmit_request)[0] && b[7] == be16_bytes(h.retransmit_request)[1]);
    assert(b[8] == be16_bytes(h.unknown)[0] && b[9] == be16_bytes(h.unknown)[1]);
    assert(b[10] == be16_bytes(h.packet_id)[0] && b[11] == be16_bytes(h.packet_id)[1]);
}

/// Reading a header takes each field from its fixed offset: flags and length from
/// the big-endian word in bytes 0-1 (flags above bit 11, length below), then the
/// session id, ack id, retransmit request, unknown field and packet id from bytes
/// 2-3, 4-5, 6-7, 8-9 and 10-11, each big-endian.
pub proof fn lemma_header_field_offsets(b: Seq<u8>)
    requires
        b.len() >= 12,
    ensures
        header_from_bytes(b).flags as int == (b[0] as int * 256 + b[1] as int) / 2048,
        header_from_bytes(b).length as int == (b[0] as int * 256 + b[1] as int) % 2048,
        header_from_bytes(b).session_id as int == b[2] as int * 256 + b[3] as int,
        header_from_bytes(b).ack_id as int == b[4] as int * 256 + b[5] as int,
        header_from_bytes(b).retransmit_request as int == b[6] as int * 256 + b[7] as int,
        header_from_bytes(b).unknown as int == b[8] as int * 256 + b[9] as int,
        header_from_bytes(b).packet_id as int == b[10] as int * 256 + b[11] as int,
{
    let w = b[0] as int * 256 + b[1] as int;
    assert(be16(b[0], b[1]) as int == w);
    assert(w / 2048 < 32);
}

/// Encode-then-decode for any header: every 16-bit field comes back as it was, and
/// the flags and the length come back modulo their widths on the wire (5 and 11 bits).
pub proof fn lemma_header_fields_roundtrip(h: PacketHeader)
    ensures
        header_from_bytes(header_bytes(h)) == (PacketHeader {
            flags: h.flags % 32,
            length: h.length % 2048,
            ..h
        }),
{
    let g = PacketHeader { flags: h.flags % 32, length: h.length % 2048, ..h };
    assert(header_bytes(g) == header_bytes(h));
    lemma_header_roundtrip(g);
}

/// Decode-then-encode: re-encoding a decoded header reproduces the 12 bytes read.
pub proof fn lemma_header_bytes_roundtrip(b: Seq<u8>)
    requires
        b.len() >= 12,
    ensures
        header_encodable(header_from_bytes(b)),
        header_bytes(header_from_bytes(b)) == b.take(12),
{
    let h = header_from_bytes(b);
    let w = be16(b[0], b[1]);
    assert(flags_len_word(h) == w);
    crate::endian::lemma_be16_bytes_roundtrip(b[0], b[1]);
    crate::endian::lemma_be16_bytes_roundtrip(b[2], b[3]);
    crate::endian::lemma_be16_bytes_roundtrip(b[4], b[5]);
    crate::endian::lemma_be16_bytes_roundtrip(b[6], b[7]);
    crate::endian::lemma_be16_bytes_roundtrip(b[8], b[9]);
    crate::endian::lemma_be16_bytes_roundtrip(b[10], b[11]);
    assert(header_bytes(h) =~= b.take(12));
}

/// Encode-then-decode for whole datagrams: the header comes back with the datagram
/// length, and the payload comes back unchanged.
pub proof fn lemma_packet_roundtrip(h: PacketHeader, payload: Seq<u8>)
    requires
        h.flags < 32,
        12 + payload.len() < 2048,
    ensures
        decode_packet_spec(packet_bytes(h, payload)) == Ok::<(PacketHeader, Seq<u8>), ProtocolError>(
            (with_length(h, payload.len() as int), payload),
        ),
{
    let h2 = with_length(h, payload.len() as int);
    let b = packet_bytes(h, payload);
    lemma_header_roundtrip(h2);
    assert(b.take(12) =~= header_bytes(h2));
    assert(header_from_bytes(b) == header_from_bytes(header_bytes(h2))) by {
        assert forall|i: int| 0 <= i < 12 implies b[i] == header_bytes(h2)[i] by {
            assert(b.take(12)[i] == b[i]);
        }
    }
    assert(b.subrange(12, 12 + payload.len() as int) =~= payload);
}

} // verus!
