//! Command framing inside packet payloads and command classification.
//!
//! A payload is a sequence of framed commands:
//! `u16 length (BE) | u16 reserved | 4-byte name | body`.

use vstd::prelude::*;
use vstd::array::*;
use vstd::slice::slice_to_vec;
use vstd::string::*;
use vstd::utf8::*;
use crate::endian::{be16, be16_bytes, push_be16, push_bytes, read_be16};
use crate::error::ProtocolError;
use crate::text::{str_contains, str_starts_with, seq_contains, seq_starts_with, trim_end_blank, trim_end_blank_owned, utf8_str};

verus! {

broadcast use encode_utf8_decode_utf8;

/// Name of the initialization-complete command (`InCm`).
pub const INIT_COMPLETE: [u8; 4] = [0x49, 0x6e, 0x43, 0x6d];

/// A four-byte command name.
#[derive(Debug, Clone, Copy, PartialEq, Eq, Hash)]
pub struct CommandName(pub [u8; 4]);

/// A single framed command inside a packet payload.
#[derive(Debug, Clone, PartialEq, Eq)]
pub struct CommandRef<'a> {
    pub name: CommandName,
    /// Full framed command including the 8-byte header and the body.
    pub raw: &'a [u8],
    pub body: &'a [u8],
}

/// The four bytes `a b c d` as a name.
pub open spec fn tag(a: u8, b: u8, c: u8, d: u8) -> Seq<u8> {
    seq![a, b, c, d]
}

/// Compares a name with four given bytes.
pub fn name_is(name: &CommandName, a: u8, b: u8, c: u8, d: u8) -> (r: bool)
    ensures
        r == (name.0@ == tag(a, b, c, d)),
{
    let r = name.0[0] == a && name.0[1] == b && name.0[2] == c && name.0[3] == d;
    proof {
        if r {
            assert(name.0@ =~= tag(a, b, c, d));
        } else if name.0@ == tag(a, b, c, d) {
            assert(name.0@[0] == a && name.0@[1] == b && name.0@[2] == c && name.0@[3] == d);
        }
    }
    r
}

pub open spec fn init_complete_name() -> Seq<u8> {
    tag(0x49, 0x6e, 0x43, 0x6d)
}

/// `INIT_COMPLETE` holds the bytes of `InCm`.
pub proof fn lemma_init_complete_bytes()
    ensures
        INIT_COMPLETE@ == init_complete_name(),
{
    assert(INIT_COMPLETE@ =~= init_complete_name());
}

impl CommandName {
    /// The name as text; fails when the four bytes are not valid UTF-8.
    pub fn as_str(&self) -> (r: Result<&str, ProtocolError>)
        ensures
            r is Ok <==> valid_utf8(self.0@),
            r matches Ok(s) ==> s@ == decode_utf8(self.0@),
            r matches Err(e) ==> e == ProtocolError::BadCommandName,
    {
        match utf8_str(array_as_slice(&self.0)) {
            Some(s) => Ok(s),
            None => Err(ProtocolError::BadCommandName),
        }
    }

    /// The first four bytes of `b` as a name.
    pub fn from_bytes(b: &[u8]) -> (r: Result<Self, ProtocolError>)
        ensures
            r is Err <==> b@.len() < 4,
            r matches Ok(n) ==> n.0@ == b@.take(4),
            r matches Err(e) ==> e == ProtocolError::BadCommandName,
    {
        if b.len() < 4 {
            return Err(ProtocolError::BadCommandName);
        }
        let name = CommandName([b[0], b[1], b[2], b[3]]);
        assert(name.0@ =~= b@.take(4));
        Ok(name)
    }
}

/// Wire bytes of a command: the length field holds `8 + body.len()` modulo 2^16.
pub open spec fn command_bytes(name: Seq<u8>, body: Seq<u8>) -> Seq<u8> {
    be16_bytes(((8 + body.len()) % 65536) as u16) + seq![0u8, 0u8] + name + body
}

/// Serialize a command from name + body into wire bytes.
pub fn serialize_command(name: CommandName, body: &[u8]) -> (out: Vec<u8>)
    requires
        body@.len() + 8 <= usize::MAX,
    ensures
        out@ == command_bytes(name.0@, body@),
{
    let len = 8 + body.len();
    let mut out = Vec::new();
    push_be16(&mut out, (len % 65536) as u16);
    push_be16(&mut out, 0);
    push_bytes(&mut out, array_as_slice(&name.0));
    push_bytes(&mut out, body);
    assert(be16_bytes(0) =~= seq![0u8, 0u8]);
    assert(out@ =~= command_bytes(name.0@, body@));
    out
}

/// The frames of a payload in order, or the offset of the first framing error.
pub open spec fn split_frames(p: Seq<u8>) -> Result<Seq<Seq<u8>>, int>
    decreases p.len(),
{
    if p.len() >= 8 {
        let len = be16(p[0], p[1]) as int;
        if len < 8 || len > p.len() {
            Err(0)
        } else {
            match split_frames(p.skip(len)) {
                Ok(rest) => Ok(seq![p.take(len)] + rest),
                Err(off) => Err(off + len),
            }
        }
    } else if p.len() == 0 {
        Ok(Seq::empty())
    } else {
        Err(0)
    }
}

/// Name bytes of a frame.
pub open spec fn frame_name(f: Seq<u8>) -> Seq<u8> {
    f.subrange(4, 8)
}

/// Body bytes of a frame.
pub open spec fn frame_body(f: Seq<u8>) -> Seq<u8> {
    f.skip(8)
}

/// `v` holds exactly the commands of `frames`, in order.
pub open spec fn refs_match(v: Seq<CommandRef>, frames: Seq<Seq<u8>>) -> bool {
    &&& v.len() == frames.len()
    &&& forall|i: int|
        0 <= i < v.len() ==> {
            &&& (#[trigger] v[i]).raw@ == frames[i]
            &&& v[i].body@ == frame_body(frames[i])
            &&& v[i].name.0@ == frame_name(frames[i])
        }
}

/// Result of splitting `p` once `done` frames have been read and `off` bytes consumed.
pub open spec fn resume_split(done: Seq<Seq<u8>>, rest: Result<Seq<Seq<u8>>, int>, off: int) -> Result<
    Seq<Seq<u8>>,
    int,
> {
    match rest {
        Ok(r) => Ok(done + r),
        Err(e) => Err(e + off),
    }
}

proof fn lemma_split_step(p: Seq<u8>, off: int, len: int)
    requires
        0 <= off,
        off + 8 <= p.len(),
        len == be16(p[off], p[off + 1]) as int,
        8 <= len,
        off + len <= p.len(),
    ensures
        split_frames(p.skip(off)) == resume_split(
            seq![p.subrange(off, off + len)],
            split_frames(p.skip(off + len)),
            len,
        ),
{
    let q = p.skip(off);
    assert(q[0] == p[off] && q[1] == p[off + 1]);
    assert(q.skip(len) =~= p.skip(off + len));
    assert(q.take(len) =~= p.subrange(off, off + len));
}

/// Parse zero or more commands from a packet payload.
pub fn parse_commands(payload: &[u8]) -> (r: Result<Vec<CommandRef<'_>>, ProtocolError>)
    ensures
        match r {
            Ok(v) => split_frames(payload@) matches Ok(frames) && refs_match(v@, frames),
            Err(e) => split_frames(payload@) matches Err(off) && e == ProtocolError::BadCommand(
                off as usize,
            ),
        },
{
    let mut out: Vec<CommandRef<'_>> = Vec::new();
    let mut offset: usize = 0;
    let ghost mut done: Seq<Seq<u8>> = Seq::empty();
    assert(payload@.skip(0) =~= payload@);
    while payload.len() - offset >= 8
        invariant
            offset <= payload@.len(),
            refs_match(out@, done),
            split_frames(payload@) == resume_split(done, split_frames(payload@.skip(offset as int)), offset as int),
        decreases payload@.len() - offset,
    {
        let len = read_be16(payload[offset], payload[offset + 1]) as usize;
        if len < 8 || len > payload.len() - offset {
            assert(split_frames(payload@.skip(offset as int)) == Err::<Seq<Seq<u8>>, int>(0)) by {
                let q = payload@.skip(offset as int);
                assert(q[0] == payload@[offset as int] && q[1] == payload@[offset + 1]);
            }
            return Err(ProtocolError::BadCommand(offset));
        }
        let name = CommandName([payload[offset + 4], payload[offset + 5], payload[offset + 6], payload[offset + 7]]);
        let raw = &payload[offset..offset + len];
        let body = &payload[offset + 8..offset + len];
        proof {
            lemma_split_step(payload@, offset as int, len as int);
            let f = payload@.subrange(offset as int, offset + len);
            assert(name.0@ =~= frame_name(f));
            assert(body@ =~= frame_body(f));
            assert(done.push(f) + (seq![f] + Seq::empty()).skip(1) =~= done.push(f));
            let old_done = done;
            done = done.push(f);
            match split_frames(payload@.skip(offset + len)) {
                Ok(r) => {
                    assert(old_done + (seq![f] + r) =~= done + r);
                },
                Err(e) => {},
            }
        }
        out.push(CommandRef { name, raw, body });
        offset += len;
    }
    if offset != payload.len() {
        assert(split_frames(payload@.skip(offset as int)) == Err::<Seq<Seq<u8>>, int>(0));
        return Err(ProtocolError::BadCommand(offset));
    }
    assert(payload@.skip(offset as int) =~= Seq::<u8>::empty());
    assert(done + Seq::<Seq<u8>>::empty() =~= done);
    Ok(out)
}


/// `_ver` body: major and minor as two big-endian `u16`s.
pub fn parse_version(body: &[u8]) -> (r: Option<(u16, u16)>)
    ensures
        r is Some <==> body@.len() >= 4,
        r matches Some(v) ==> v == (be16(body@[0], body@[1]), be16(body@[2], body@[3])),
{
    if body.len() < 4 {
        return None;
    }
    Some((read_be16(body[0], body[1]), read_be16(body[2], body[3])))
}

/// Length of the prefix of `b` before its first NUL byte (all of `b` when there is none).
pub open spec fn nul_free_len(b: Seq<u8>) -> int
    decreases b.len(),
{
    if b.len() == 0 {
        0
    } else if b[0] == 0 {
        0
    } else {
        1 + nul_free_len(b.skip(1))
    }
}

proof fn lemma_nul_free_len(b: Seq<u8>, i: int)
    requires
        0 <= i <= b.len(),
        forall|j: int| 0 <= j < i ==> b[j] != 0,
        i == b.len() || b[i] == 0,
    ensures
        nul_free_len(b) == i,
    decreases b.len(),
{
    if b.len() > 0 && b[0] != 0 {
        lemma_nul_free_len(b.skip(1), i - 1);
    }
}

/// The text a `_pin` body carries, cleaned: the bytes before the first NUL, decoded,
/// with trailing control and whitespace characters removed; `None` when those bytes
/// are not valid UTF-8. The text may be empty.
pub open spec fn product_text_of(body: Seq<u8>) -> Option<Seq<char>> {
    let bytes = body.take(nul_free_len(body));
    if valid_utf8(bytes) {
        Some(trim_end_blank(decode_utf8(bytes)))
    } else {
        None
    }
}

/// The product name a `_pin` body carries: its cleaned text, when that is non-empty.
pub open spec fn product_name_of(body: Seq<u8>) -> Option<Seq<char>> {
    match product_text_of(body) {
        Some(t) => if t.len() > 0 {
            Some(t)
        } else {
            None
        },
        None => None,
    }
}

/// The bytes of a UTF-8 body before its first NUL are UTF-8 too: a NUL byte never
/// falls inside an encoded character.
pub proof fn lemma_utf8_before_nul(b: Seq<u8>)
    requires
        valid_utf8(b),
    ensures
        valid_utf8(b.take(nul_free_len(b))),
{
    let k = nul_free_len(b);
    lemma_nul_free_len_bounds(b);
    lemma_utf8_prefix(b, k);
}

proof fn lemma_nul_free_len_bounds(b: Seq<u8>)
    ensures
        0 <= nul_free_len(b) <= b.len(),
        forall|j: int| 0 <= j < nul_free_len(b) ==> b[j] != 0,
        nul_free_len(b) == b.len() || b[nul_free_len(b)] == 0,
    decreases b.len(),
{
    if b.len() > 0 && b[0] != 0 {
        lemma_nul_free_len_bounds(b.skip(1));
        assert forall|j: int| 0 <= j < nul_free_len(b) implies b[j] != 0 by {
            if j > 0 {
                assert(b.skip(1)[j - 1] == b[j]);
            }
        }
        if nul_free_len(b) < b.len() {
            assert(b.skip(1)[nul_free_len(b) - 1] == b[nul_free_len(b)]);
        }
    }
}

proof fn lemma_utf8_prefix(b: Seq<u8>, k: int)
    requires
        valid_utf8(b),
        0 <= k <= b.len(),
        forall|j: int| 0 <= j < k ==> b[j] != 0,
        k == b.len() || b[k] == 0,
    ensures
        valid_utf8(b.take(k)),
    decreases b.len(),
{
    let t = b.take(k);
    if k == 0 {
        assert(t.len() == 0);
    } else {
        let l = length_of_first_scalar(b);
        assert(1 <= l <= 4);
        assert(l <= k) by {
            if k < l {
                assert(is_continuation_byte(b[k]));
            }
        }
        assert(forall|i: int| 0 <= i < l ==> t[i] == b[i]);
        assert(valid_first_scalar(t));
        assert(length_of_first_scalar(t) == l);
        let rest = pop_first_scalar(b);
        assert(pop_first_scalar(t) =~= rest.take(k - l));
        assert forall|j: int| 0 <= j < k - l implies rest[j] != 0 by {
            assert(rest[j] == b[j + l]);
        }
        if k < b.len() {
            assert(rest[k - l] == b[k]);
        }
        lemma_utf8_prefix(rest, k - l);
    }
}

/// The cleaned text of a `_pin` body (see `product_text_of`).
pub fn product_text(body: &[u8]) -> (r: Option<String>)
    ensures
        r is Some <==> product_text_of(body@) is Some,
        r matches Some(s) ==> product_text_of(body@) == Some(s@),
{
    let mut end: usize = 0;
    while end < body.len() && body[end] != 0
        invariant
            end <= body@.len(),
            forall|j: int| 0 <= j < end ==> body@[j] != 0,
        decreases body@.len() - end,
    {
        end = end + 1;
    }
    proof {
        lemma_nul_free_len(body@, end as int);
    }
    let bytes = &body[0..end];
    assert(bytes@ =~= body@.take(end as int));
    match utf8_str(bytes) {
        Some(s) => Some(trim_end_blank_owned(s)),
        None => None,
    }
}

/// Parse the `_pin` product name from a fixed-width, padded body.
pub fn parse_product_name(body: &[u8]) -> (r: Option<String>)
    ensures
        r is Some <==> product_name_of(body@) is Some,
        r matches Some(s) ==> product_name_of(body@) == Some(s@),
{
    match product_text(body) {
        Some(t) => if t.as_str().is_empty() {
            None
        } else {
            Some(t)
        },
        None => None,
    }
}

/// Body of the synthetic `InCm`: a real switcher sends `01 00 00 00`.
pub open spec fn init_complete_body() -> Seq<u8> {
    seq![1u8, 0u8, 0u8, 0u8]
}

/// Build a synthetic, twelve-byte `InCm` for late-join dumps.
pub fn synthetic_init_complete() -> (out: Vec<u8>)
    ensures
        out@ == command_bytes(init_complete_name(), init_complete_body()),
{
    proof {
        lemma_init_complete_bytes();
    }
    let body: [u8; 4] = [0x01, 0x00, 0x00, 0x00];
    assert(body@ =~= init_complete_body());
    serialize_command(CommandName(INIT_COMPLETE), array_as_slice(&body))
}

/// Names whose state is a single value per switcher.
pub open spec fn singleton_state_name(n: Seq<u8>) -> bool {
    ||| n == tag(0x5f, 0x76, 0x65, 0x72)  // _ver
    ||| n == tag(0x49, 0x6e, 0x43, 0x6d)  // InCm
    ||| n == tag(0x5f, 0x70, 0x69, 0x6e)  // _pin
    ||| n == tag(0x5f, 0x74, 0x6f, 0x70)  // _top
    ||| n == tag(0x70, 0x6f, 0x77, 0x72)  // powr

}

/// Names whose state is kept per mix effect (first body byte).
pub open spec fn per_me_name(n: Seq<u8>) -> bool {
    ||| n == tag(0x50, 0x72, 0x67, 0x49)  // PrgI
    ||| n == tag(0x50, 0x72, 0x76, 0x49)  // PrvI
    ||| n == tag(0x54, 0x72, 0x53, 0x53)  // TrSS
    ||| n == tag(0x54, 0x72, 0x50, 0x73)  // TrPs
    ||| n == tag(0x54, 0x72, 0x50, 0x72)  // TrPr
    ||| n == tag(0x46, 0x74, 0x62, 0x53)  // FtbS
    ||| n == tag(0x46, 0x74, 0x62, 0x50)  // FtbP

}

/// Names whose state is indexed by the first (up to) four body bytes.
pub open spec fn indexed_name(n: Seq<u8>) -> bool {
    ||| n == tag(0x4b, 0x65, 0x4f, 0x6e)  // KeOn
    ||| n == tag(0x4b, 0x65, 0x42, 0x50)  // KeBP
    ||| n == tag(0x44, 0x73, 0x6b, 0x42)  // DskB
    ||| n == tag(0x44, 0x73, 0x6b, 0x53)  // DskS
    ||| n == tag(0x44, 0x73, 0x6b, 0x50)  // DskP
    ||| n == tag(0x43, 0x6f, 0x6c, 0x56)  // ColV
    ||| n == tag(0x41, 0x75, 0x78, 0x53)  // AuxS
    ||| n == tag(0x4d, 0x50, 0x43, 0x45)  // MPCE
    ||| n == tag(0x4d, 0x50, 0x72, 0x70)  // MPrp
    ||| n == tag(0x43, 0x76, 0x6c, 0x49)  // CvlI
    ||| n == tag(0x49, 0x6e, 0x50, 0x72)  // InPr
    ||| n == tag(0x49, 0x6e, 0x50, 0x58)  // InPX

}

/// Identity bytes under which state of command `n` with body `body` coalesces.
pub open spec fn identity_of(n: Seq<u8>, body: Seq<u8>) -> Seq<u8> {
    if singleton_state_name(n) {
        Seq::empty()
    } else if per_me_name(n) {
        body.take(if body.len() >= 1 { 1 } else { 0 })
    } else if indexed_name(n) {
        body.take(if body.len() >= 4 { 4 } else { body.len() as int })
    } else {
        Seq::empty()
    }
}

/// The four bytes of `n` are `a b c d`.
pub open spec fn name_bytes_are(n: Seq<u8>, a: u8, b: u8, c: u8, d: u8) -> bool {
    n.len() == 4 && n[0] == a && n[1] == b && n[2] == c && n[3] == d
}

/// A name given byte by byte is the same as the name given as a tag.
pub proof fn lemma_name_bytes_are(n: Seq<u8>, a: u8, b: u8, c: u8, d: u8)
    ensures
        name_bytes_are(n, a, b, c, d) <==> n == tag(a, b, c, d),
{
    if name_bytes_are(n, a, b, c, d) {
        assert(n =~= tag(a, b, c, d));
    }
}

/// The program, preview, transition and fade-to-black state commands (`PrgI`,
/// `PrvI`, `TrSS`, `TrPs`, `TrPr`, `FtbS`, `FtbP`) coalesce per mix effect: their
/// identity is the first body byte (nothing for an empty body), so commands for
/// different mix effects keep separate state.
pub proof fn lemma_per_me_identity(n: Seq<u8>, body: Seq<u8>)
    requires
        name_bytes_are(n, 0x50, 0x72, 0x67, 0x49) || name_bytes_are(n, 0x50, 0x72, 0x76, 0x49)
            || name_bytes_are(n, 0x54, 0x72, 0x53, 0x53) || name_bytes_are(n, 0x54, 0x72, 0x50, 0x73)
            || name_bytes_are(n, 0x54, 0x72, 0x50, 0x72) || name_bytes_are(n, 0x46, 0x74, 0x62, 0x53)
            || name_bytes_are(n, 0x46, 0x74, 0x62, 0x50),
    ensures
        body.len() >= 1 ==> identity_of(n, body) == seq![body[0]],
        body.len() == 0 ==> identity_of(n, body) == Seq::<u8>::empty(),
{
    lemma_name_bytes_are(n, 0x50, 0x72, 0x67, 0x49);
    lemma_name_bytes_are(n, 0x50, 0x72, 0x76, 0x49);
    lemma_name_bytes_are(n, 0x54, 0x72, 0x53, 0x53);
    lemma_name_bytes_are(n, 0x54, 0x72, 0x50, 0x73);
    lemma_name_bytes_are(n, 0x54, 0x72, 0x50, 0x72);
    lemma_name_bytes_are(n, 0x46, 0x74, 0x62, 0x53);
    lemma_name_bytes_are(n, 0x46, 0x74, 0x62, 0x50);
    lemma_not_singleton(n);
    assert(per_me_name(n));
    if body.len() >= 1 {
        assert(body.take(1) =~= seq![body[0]]);
    } else {
        assert(body.take(0) =~= Seq::<u8>::empty());
    }
}

proof fn lemma_not_singleton(n: Seq<u8>)
    requires
        n.len() == 4,
        n[0] != 0x5f,
        n[0] != 0x70,
        n[0] != 0x49 || n[2] != 0x43,
    ensures
        !singleton_state_name(n),
{
    assert(tag(0x5f, 0x76, 0x65, 0x72)[0] == 0x5f);
    assert(tag(0x49, 0x6e, 0x43, 0x6d)[0] == 0x49 && tag(0x49, 0x6e, 0x43, 0x6d)[2] == 0x43);
    assert(tag(0x5f, 0x70, 0x69, 0x6e)[0] == 0x5f);
    assert(tag(0x5f, 0x74, 0x6f, 0x70)[0] == 0x5f);
    assert(tag(0x70, 0x6f, 0x77, 0x72)[0] == 0x70);
}

/// Keyer, downstream keyer, color, aux, media player, input and related state
/// commands (`KeOn`, `KeBP`, `DskB`, `DskS`, `DskP`, `ColV`, `AuxS`, `MPCE`,
/// `MPrp`, `CvlI`, `InPr`, `InPX`) coalesce per index: their identity is the first
/// four body bytes, or the whole body when it is shorter.
pub proof fn lemma_indexed_identity(n: Seq<u8>, body: Seq<u8>)
    requires
        name_bytes_are(n, 0x4b, 0x65, 0x4f, 0x6e) || name_bytes_are(n, 0x4b, 0x65, 0x42, 0x50)
            || name_bytes_are(n, 0x44, 0x73, 0x6b, 0x42) || name_bytes_are(n, 0x44, 0x73, 0x6b, 0x53)
            || name_bytes_are(n, 0x44, 0x73, 0x6b, 0x50) || name_bytes_are(n, 0x43, 0x6f, 0x6c, 0x56)
            || name_bytes_are(n, 0x41, 0x75, 0x78, 0x53) || name_bytes_are(n, 0x4d, 0x50, 0x43, 0x45)
            || name_bytes_are(n, 0x4d, 0x50, 0x72, 0x70) || name_bytes_are(n, 0x43, 0x76, 0x6c, 0x49)
            || name_bytes_are(n, 0x49, 0x6e, 0x50, 0x72) || name_bytes_are(n, 0x49, 0x6e, 0x50, 0x58),
    ensures
        body.len() >= 4 ==> identity_of(n, body) == body.subrange(0, 4),
        body.len() < 4 ==> identity_of(n, body) == body,
{
    lemma_name_bytes_are(n, 0x4b, 0x65, 0x4f, 0x6e);
    lemma_name_bytes_are(n, 0x4b, 0x65, 0x42, 0x50);
    lemma_name_bytes_are(n, 0x44, 0x73, 0x6b, 0x42);
    lemma_name_bytes_are(n, 0x44, 0x73, 0x6b, 0x53);
    lemma_name_bytes_are(n, 0x44, 0x73, 0x6b, 0x50);
    lemma_name_bytes_are(n, 0x43, 0x6f, 0x6c, 0x56);
    lemma_name_bytes_are(n, 0x41, 0x75, 0x78, 0x53);
    lemma_name_bytes_are(n, 0x4d, 0x50, 0x43, 0x45);
    lemma_name_bytes_are(n, 0x4d, 0x50, 0x72, 0x70);
    lemma_name_bytes_are(n, 0x43, 0x76, 0x6c, 0x49);
    lemma_name_bytes_are(n, 0x49, 0x6e, 0x50, 0x72);
    lemma_name_bytes_are(n, 0x49, 0x6e, 0x50, 0x58);
    lemma_not_singleton(n);
    assert(!per_me_name(n)) by {
        assert(tag(0x50, 0x72, 0x67, 0x49)[0] == 0x50);
        assert(tag(0x50, 0x72, 0x76, 0x49)[0] == 0x50);
        assert(tag(0x54, 0x72, 0x53, 0x53)[0] == 0x54);
        assert(tag(0x54, 0x72, 0x50, 0x73)[0] == 0x54);
        assert(tag(0x54, 0x72, 0x50, 0x72)[0] == 0x54);
        assert(tag(0x46, 0x74, 0x62, 0x53)[0] == 0x46);
        assert(tag(0x46, 0x74, 0x62, 0x50)[0] == 0x46);
    }
    assert(indexed_name(n));
    if body.len() >= 4 {
        assert(body.take(4) =~= body.subrange(0, 4));
    } else {
        assert(body.take(body.len() as int) =~= body);
    }
}

/// Single-valued state (`_ver`, `InCm`, `_pin`, `_top`, `powr`) has an empty
/// identity: one cached command per name, whatever its body.
pub proof fn lemma_singleton_identity(n: Seq<u8>, body: Seq<u8>)
    requires
        name_bytes_are(n, 0x5f, 0x76, 0x65, 0x72) || name_bytes_are(n, 0x49, 0x6e, 0x43, 0x6d)
            || name_bytes_are(n, 0x5f, 0x70, 0x69, 0x6e) || name_bytes_are(n, 0x5f, 0x74, 0x6f, 0x70)
            || name_bytes_are(n, 0x70, 0x6f, 0x77, 0x72),
    ensures
        identity_of(n, body) == Seq::<u8>::empty(),
{
    lemma_name_bytes_are(n, 0x5f, 0x76, 0x65, 0x72);
    lemma_name_bytes_are(n, 0x49, 0x6e, 0x43, 0x6d);
    lemma_name_bytes_are(n, 0x5f, 0x70, 0x69, 0x6e);
    lemma_name_bytes_are(n, 0x5f, 0x74, 0x6f, 0x70);
    lemma_name_bytes_are(n, 0x70, 0x6f, 0x77, 0x72);
}

/// Bytes that spell ASCII characters one for one are valid UTF-8 and read back as
/// those characters.
pub(crate) proof fn lemma_ascii_text(n: Seq<u8>, chars: Seq<char>)
    requires
        n.len() == chars.len(),
        forall|i: int| 0 <= i < n.len() ==> '\0' <= #[trigger] chars[i] <= '\u{7f}' && chars[i] as u8 == n[i],
    ensures
        valid_utf8(n),
        decode_utf8(n) == chars,
{
    broadcast use is_ascii_chars_encode_utf8, encode_utf8_valid_utf8;

    assert(is_ascii_chars(chars));
    let e = encode_utf8(chars);
    assert(e.len() == chars.len());
    assert forall|i: int| 0 <= i < e.len() implies e[i] == n[i] by {
        assert(chars[i] as u8 == e[i]);
    }
    assert(e =~= n);
}

/// Program, preview, transition and fade-to-black state is cacheable: none of those
/// names is a high-rate, lock, transfer or `InCm` name.
pub proof fn lemma_per_me_cacheable(n: Seq<u8>)
    requires
        per_me_name(n),
    ensures
        !ephemeral_name(n),
        !lock_name(n),
        !transfer_name(n),
        n != init_complete_name(),
{
    if n == tag(0x50, 0x72, 0x67, 0x49) {
        lemma_ascii_text(n, seq!['P', 'r', 'g', 'I']);
    } else if n == tag(0x50, 0x72, 0x76, 0x49) {
        lemma_ascii_text(n, seq!['P', 'r', 'v', 'I']);
    } else if n == tag(0x54, 0x72, 0x53, 0x53) {
        lemma_ascii_text(n, seq!['T', 'r', 'S', 'S']);
    } else if n == tag(0x54, 0x72, 0x50, 0x73) {
        lemma_ascii_text(n, seq!['T', 'r', 'P', 's']);
    } else if n == tag(0x54, 0x72, 0x50, 0x72) {
        lemma_ascii_text(n, seq!['T', 'r', 'P', 'r']);
    } else if n == tag(0x46, 0x74, 0x62, 0x53) {
        lemma_ascii_text(n, seq!['F', 't', 'b', 'S']);
    } else {
        lemma_ascii_text(n, seq!['F', 't', 'b', 'P']);
    }
    assert(decode_utf8(n).take(4) =~= decode_utf8(n));
}

/// Identity bytes used for state-cache coalescing.
pub fn command_identity(name: CommandName, body: &[u8]) -> (r: Vec<u8>)
    ensures
        r@ == identity_of(name.0@, body@),
        r@.len() <= 4,
{
    let n = &name;
    let singleton = name_is(n, 0x5f, 0x76, 0x65, 0x72) || name_is(n, 0x49, 0x6e, 0x43, 0x6d)
        || name_is(n, 0x5f, 0x70, 0x69, 0x6e) || name_is(n, 0x5f, 0x74, 0x6f, 0x70) || name_is(
        n,
        0x70,
        0x6f,
        0x77,
        0x72,
    );
    if singleton {
        return Vec::new();
    }
    let per_me = name_is(n, 0x50, 0x72, 0x67, 0x49) || name_is(n, 0x50, 0x72, 0x76, 0x49)
        || name_is(n, 0x54, 0x72, 0x53, 0x53) || name_is(n, 0x54, 0x72, 0x50, 0x73) || name_is(
        n,
        0x54,
        0x72,
        0x50,
        0x72,
    ) || name_is(n, 0x46, 0x74, 0x62, 0x53) || name_is(n, 0x46, 0x74, 0x62, 0x50);
    if per_me {
        let mut v = Vec::new();
        if body.len() >= 1 {
            v.push(body[0]);
        }
        assert(v@ =~= identity_of(name.0@, body@));
        return v;
    }
    let indexed = name_is(n, 0x4b, 0x65, 0x4f, 0x6e) || name_is(n, 0x4b, 0x65, 0x42, 0x50)
        || name_is(n, 0x44, 0x73, 0x6b, 0x42) || name_is(n, 0x44, 0x73, 0x6b, 0x53) || name_is(
        n,
        0x44,
        0x73,
        0x6b,
        0x50,
    ) || name_is(n, 0x43, 0x6f, 0x6c, 0x56) || name_is(n, 0x41, 0x75, 0x78, 0x53) || name_is(
        n,
        0x4d,
        0x50,
        0x43,
        0x45,
    ) || name_is(n, 0x4d, 0x50, 0x72, 0x70) || name_is(n, 0x43, 0x76, 0x6c, 0x49) || name_is(
        n,
        0x49,
        0x6e,
        0x50,
        0x72,
    ) || name_is(n, 0x49, 0x6e, 0x50, 0x58);
    if indexed {
        let k = if body.len() >= 4 { 4 } else { body.len() };
        let v = slice_to_vec(&body[0..k]);
        assert(v@ =~= identity_of(name.0@, body@));
        return v;
    }
    Vec::new()
}

/// High-rate, non-state names (audio meters, timecode).
pub open spec fn ephemeral_name(n: Seq<u8>) -> bool {
    ||| n == tag(0x41, 0x4d, 0x4c, 0x76)  // AMLv
    ||| n == tag(0x41, 0x4d, 0x6d, 0x4f)  // AMmO
    ||| n == tag(0x46, 0x41, 0x53, 0x50)  // FASP
    ||| n == tag(0x46, 0x4d, 0x4c, 0x76)  // FMLv
    ||| n == tag(0x46, 0x41, 0x74, 0x6c)  // FAtl
    ||| n == tag(0x46, 0x41, 0x73, 0x70)  // FAsp
    ||| n == tag(0x54, 0x69, 0x6d, 0x65)  // Time
    ||| n == tag(0x54, 0x69, 0x6d, 0x43)  // TimC
    ||| n == tag(0x54, 0x43, 0x43, 0x63)  // TCCc

}

/// High-rate / non-state commands that must not enter the late-join cache.
pub fn is_ephemeral_command(name: CommandName) -> (r: bool)
    ensures
        r == ephemeral_name(name.0@),
{
    let n = &name;
    name_is(n, 0x41, 0x4d, 0x4c, 0x76) || name_is(n, 0x41, 0x4d, 0x6d, 0x4f) || name_is(
        n,
        0x46,
        0x41,
        0x53,
        0x50,
    ) || name_is(n, 0x46, 0x4d, 0x4c, 0x76) || name_is(n, 0x46, 0x41, 0x74, 0x6c) || name_is(
        n,
        0x46,
        0x41,
        0x73,
        0x70,
    ) || name_is(n, 0x54, 0x69, 0x6d, 0x65) || name_is(n, 0x54, 0x69, 0x6d, 0x43) || name_is(
        n,
        0x54,
        0x43,
        0x43,
        0x63,
    )
}

/// Client-originated lock requests: `LOCK`, `PLCK`.
pub open spec fn lock_request_name(n: Seq<u8>) -> bool {
    n == tag(0x4c, 0x4f, 0x43, 0x4b) || n == tag(0x50, 0x4c, 0x43, 0x4b)
}

/// Upstream lock status notifications: `LKST`, `LKOB`.
pub open spec fn lock_status_name(n: Seq<u8>) -> bool {
    n == tag(0x4c, 0x4b, 0x53, 0x54) || n == tag(0x4c, 0x4b, 0x4f, 0x42)
}

/// Lock-related names: requests, status, and any name that reads as text starting with `Lock`.
pub open spec fn lock_name(n: Seq<u8>) -> bool {
    ||| lock_request_name(n)
    ||| lock_status_name(n)
    ||| valid_utf8(n) && seq_starts_with(decode_utf8(n), seq!['L', 'o', 'c', 'k'])
}

pub fn is_lock_command(name: CommandName) -> (r: bool)
    ensures
        r == lock_name(name.0@),
{
    if is_lock_request(name) || is_lock_status(name) {
        return true;
    }
    match name.as_str() {
        Ok(s) => {
            let lit = "Lock";
            proof {
                reveal_strlit("Lock");
                assert(lit@ =~= seq!['L', 'o', 'c', 'k']);
            }
            str_starts_with(s, lit)
        },
        Err(_) => false,
    }
}

/// Client-originated lock request (not upstream status).
pub fn is_lock_request(name: CommandName) -> (r: bool)
    ensures
        r == lock_request_name(name.0@),
{
    name_is(&name, 0x4c, 0x4f, 0x43, 0x4b) || name_is(&name, 0x50, 0x4c, 0x43, 0x4b)
}

/// Upstream lock status/obtainment notifications.
pub fn is_lock_status(name: CommandName) -> (r: bool)
    ensures
        r == lock_status_name(name.0@),
{
    name_is(&name, 0x4c, 0x4b, 0x53, 0x54) || name_is(&name, 0x4c, 0x4b, 0x4f, 0x42)
}

/// Store id of a lock/transfer body: the big-endian `u16` at offset 0.
pub open spec fn store_id_of(body: Seq<u8>) -> Option<u16> {
    if body.len() >= 2 {
        Some(be16(body[0], body[1]))
    } else {
        None
    }
}

/// Best-effort store id from lock/transfer command body (u16 BE at offset 0).
pub fn lock_store_id(body: &[u8]) -> (r: Option<u16>)
    ensures
        r == store_id_of(body@),
{
    if body.len() < 2 {
        return None;
    }
    Some(read_be16(body[0], body[1]))
}

/// Whether a lock body asks for the locked state: byte 2 when present, else the last byte.
pub open spec fn lock_enabled_of(body: Seq<u8>) -> bool {
    if body.len() >= 3 {
        body[2] != 0
    } else if body.len() > 0 {
        body.last() != 0
    } else {
        false
    }
}

/// Whether a LOCK/PLCK body requests locked (true) vs unlocked (false).
pub fn lock_request_enabled(body: &[u8]) -> (r: bool)
    ensures
        r == lock_enabled_of(body@),
{
    if body.len() >= 3 {
        return body[2] != 0;
    }
    if body.len() > 0 {
        body[body.len() - 1] != 0
    } else {
        false
    }
}

/// Body of a client unlock request for `store`.
pub open spec fn unlock_body(store: u16) -> Seq<u8> {
    be16_bytes(store) + seq![0u8, 0u8]
}

/// The `LOCK` name.
pub open spec fn lock_name_bytes() -> Seq<u8> {
    tag(0x4c, 0x4f, 0x43, 0x4b)
}

/// Build a client unlock request for a store (`LOCK` store, state 0).
pub fn synthesize_unlock(store: u16) -> (out: Vec<u8>)
    ensures
        out@ == command_bytes(lock_name_bytes(), unlock_body(store)),
{
    let mut body = Vec::new();
    push_be16(&mut body, store);
    body.push(0);
    body.push(0);
    assert(body@ =~= unlock_body(store));
    let name = CommandName([0x4c, 0x4f, 0x43, 0x4b]);
    assert(name.0@ =~= lock_name_bytes());
    serialize_command(name, body.as_slice())
}

/// Media transfer names: the listed `FT*` names, and any name that reads as text
/// starting with `FT` or `Data`.
pub open spec fn transfer_name(n: Seq<u8>) -> bool {
    ||| n == tag(0x46, 0x54, 0x53, 0x44)  // FTSD
    ||| n == tag(0x46, 0x54, 0x53, 0x55)  // FTSU
    ||| n == tag(0x46, 0x54, 0x43, 0x44)  // FTCD
    ||| n == tag(0x46, 0x54, 0x44, 0x61)  // FTDa
    ||| n == tag(0x46, 0x54, 0x55, 0x41)  // FTUA
    ||| n == tag(0x46, 0x54, 0x46, 0x44)  // FTFD
    ||| n == tag(0x46, 0x54, 0x44, 0x43)  // FTDC
    ||| n == tag(0x46, 0x54, 0x44, 0x45)  // FTDE
    ||| n == tag(0x46, 0x54, 0x45, 0x53)  // FTES
    ||| valid_utf8(n) && (seq_starts_with(decode_utf8(n), seq!['F', 'T']) || seq_starts_with(
        decode_utf8(n),
        seq!['D', 'a', 't', 'a'],
    ))
}

pub fn is_transfer_command(name: CommandName) -> (r: bool)
    ensures
        r == transfer_name(name.0@),
{
    let n = &name;
    let listed = name_is(n, 0x46, 0x54, 0x53, 0x44) || name_is(n, 0x46, 0x54, 0x53, 0x55)
        || name_is(n, 0x46, 0x54, 0x43, 0x44) || name_is(n, 0x46, 0x54, 0x44, 0x61) || name_is(
        n,
        0x46,
        0x54,
        0x55,
        0x41,
    ) || name_is(n, 0x46, 0x54, 0x46, 0x44) || name_is(n, 0x46, 0x54, 0x44, 0x43) || name_is(
        n,
        0x46,
        0x54,
        0x44,
        0x45,
    ) || name_is(n, 0x46, 0x54, 0x45, 0x53);
    if listed {
        return true;
    }
    match name.as_str() {
        Ok(s) => {
            let ft = "FT";
            let data = "Data";
            proof {
                reveal_strlit("FT");
                reveal_strlit("Data");
                assert(ft@ =~= seq!['F', 'T']);
                assert(data@ =~= seq!['D', 'a', 't', 'a']);
            }
            str_starts_with(s, ft) || str_starts_with(s, data)
        },
        Err(_) => false,
    }
}

/// Audio level subscription names: `SALN`, `FASP`, `SAff`, and any name whose text
/// contains `SendLevels`, or both `Levels` and `Enable`.
pub open spec fn audio_subscribe_name(n: Seq<u8>) -> bool {
    ||| n == tag(0x53, 0x41, 0x4c, 0x4e)  // SALN
    ||| n == tag(0x46, 0x41, 0x53, 0x50)  // FASP
    ||| n == tag(0x53, 0x41, 0x66, 0x66)  // SAff
    ||| valid_utf8(n) && (seq_contains(
        decode_utf8(n),
        seq!['S', 'e', 'n', 'd', 'L', 'e', 'v', 'e', 'l', 's'],
    ) || seq_contains(decode_utf8(n), seq!['L', 'e', 'v', 'e', 'l', 's']) && seq_contains(
        decode_utf8(n),
        seq!['E', 'n', 'a', 'b', 'l', 'e'],
    ))
}

/// Audio level subscription related client commands.
pub fn is_audio_levels_subscribe(name: CommandName) -> (r: bool)
    ensures
        r == audio_subscribe_name(name.0@),
{
    let n = &name;
    if name_is(n, 0x53, 0x41, 0x4c, 0x4e) || name_is(n, 0x46, 0x41, 0x53, 0x50) || name_is(
        n,
        0x53,
        0x41,
        0x66,
        0x66,
    ) {
        return true;
    }
    match name.as_str() {
        Ok(s) => {
            let send_levels = "SendLevels";
            let levels = "Levels";
            let enable = "Enable";
            proof {
                reveal_strlit("SendLevels");
                reveal_strlit("Levels");
                reveal_strlit("Enable");
                assert(send_levels@ =~= seq!['S', 'e', 'n', 'd', 'L', 'e', 'v', 'e', 'l', 's']);
                assert(levels@ =~= seq!['L', 'e', 'v', 'e', 'l', 's']);
                assert(enable@ =~= seq!['E', 'n', 'a', 'b', 'l', 'e']);
            }
            str_contains(s, send_levels) || str_contains(s, levels) && str_contains(s, enable)
        },
        Err(_) => false,
    }
}


/// `name` and `body` can be framed without the length field wrapping.
pub open spec fn frameable(name: Seq<u8>, body: Seq<u8>) -> bool {
    name.len() == 4 && body.len() + 8 < 65536
}

/// Wire bytes of a list of commands, back to back.
pub open spec fn commands_bytes(cmds: Seq<(Seq<u8>, Seq<u8>)>) -> Seq<u8>
    decreases cmds.len(),
{
    if cmds.len() == 0 {
        Seq::empty()
    } else {
        command_bytes(cmds[0].0, cmds[0].1) + commands_bytes(cmds.skip(1))
    }
}

/// A framed command is read back as one frame, followed by whatever comes after it.
pub proof fn lemma_split_command_then(name: Seq<u8>, body: Seq<u8>, rest: Seq<u8>)
    requires
        frameable(name, body),
    ensures
        split_frames(command_bytes(name, body) + rest) == resume_split(
            seq![command_bytes(name, body)],
            split_frames(rest),
            body.len() + 8int,
        ),
        frame_name(command_bytes(name, body)) == name,
        frame_body(command_bytes(name, body)) == body,
{
    let c = command_bytes(name, body);
    let p = c + rest;
    let len = body.len() + 8int;
    assert(p[0] == c[0] && p[1] == c[1]);
    assert(be16(c[0], c[1]) as int == len) by {
        crate::endian::lemma_be16_roundtrip(((8 + body.len()) % 65536) as u16);
    }
    assert(p.skip(len) =~= rest);
    assert(p.take(len) =~= c);
    assert(frame_name(c) =~= name);
    assert(frame_body(c) =~= body);
}

/// Serialize-then-parse: parsing back-to-back framed commands yields each
/// command's frame, in order, with its name and body.
pub proof fn lemma_parse_serialized(cmds: Seq<(Seq<u8>, Seq<u8>)>)
    requires
        forall|i: int| 0 <= i < cmds.len() ==> frameable(#[trigger] cmds[i].0, cmds[i].1),
    ensures
        split_frames(commands_bytes(cmds)) == Ok::<Seq<Seq<u8>>, int>(
            cmds.map_values(|c: (Seq<u8>, Seq<u8>)| command_bytes(c.0, c.1)),
        ),
        forall|i: int|
            0 <= i < cmds.len() ==> frame_name(command_bytes(#[trigger] cmds[i].0, cmds[i].1))
                == cmds[i].0 && frame_body(command_bytes(cmds[i].0, cmds[i].1)) == cmds[i].1,
    decreases cmds.len(),
{
    if cmds.len() == 0 {
        assert(commands_bytes(cmds) =~= Seq::<u8>::empty());
        assert(cmds.map_values(|c: (Seq<u8>, Seq<u8>)| command_bytes(c.0, c.1)) =~= Seq::<
            Seq<u8>,
        >::empty());
    } else {
        let rest = cmds.skip(1);
        assert forall|i: int| 0 <= i < rest.len() implies frameable(#[trigger] rest[i].0, rest[i].1) by {
            assert(rest[i] == cmds[i + 1]);
        }
        lemma_parse_serialized(rest);
        assert(frameable(cmds[0].0, cmds[0].1));
        lemma_split_command_then(cmds[0].0, cmds[0].1, commands_bytes(rest));
        assert(seq![command_bytes(cmds[0].0, cmds[0].1)] + rest.map_values(
            |c: (Seq<u8>, Seq<u8>)| command_bytes(c.0, c.1),
        ) =~= cmds.map_values(|c: (Seq<u8>, Seq<u8>)| command_bytes(c.0, c.1)));
        assert forall|i: int|
            0 <= i < cmds.len() implies frame_name(command_bytes(#[trigger] cmds[i].0, cmds[i].1))
            == cmds[i].0 && frame_body(command_bytes(cmds[i].0, cmds[i].1)) == cmds[i].1 by {
            if i == 0 {
            } else {
                assert(rest[i - 1] == cmds[i]);
            }
        }
    }
}


/// A complete framed command: its length field equals its size.
pub open spec fn is_frame(f: Seq<u8>) -> bool {
    f.len() >= 8 && be16(f[0], f[1]) as int == f.len()
}

/// Frames back to back.
pub open spec fn concat_frames(fs: Seq<Seq<u8>>) -> Seq<u8>
    decreases fs.len(),
{
    if fs.len() == 0 {
        Seq::empty()
    } else {
        fs[0] + concat_frames(fs.skip(1))
    }
}

/// A complete frame is read back as one frame, followed by whatever comes after it.
pub proof fn lemma_split_frame_then(f: Seq<u8>, rest: Seq<u8>)
    requires
        is_frame(f),
    ensures
        split_frames(f + rest) == resume_split(seq![f], split_frames(rest), f.len() as int),
{
    let p = f + rest;
    assert(p[0] == f[0] && p[1] == f[1]);
    assert(p.skip(f.len() as int) =~= rest);
    assert(p.take(f.len() as int) =~= f);
}

/// Complete frames back to back are split into exactly those frames.
pub proof fn lemma_split_concat_frames(fs: Seq<Seq<u8>>)
    requires
        forall|i: int| 0 <= i < fs.len() ==> is_frame(#[trigger] fs[i]),
    ensures
        split_frames(concat_frames(fs)) == Ok::<Seq<Seq<u8>>, int>(fs),
    decreases fs.len(),
{
    if fs.len() == 0 {
        assert(concat_frames(fs) =~= Seq::<u8>::empty());
        assert(fs =~= Seq::<Seq<u8>>::empty());
    } else {
        assert forall|i: int| 0 <= i < fs.skip(1).len() implies is_frame(#[trigger] fs.skip(1)[i]) by {
            assert(fs.skip(1)[i] == fs[i + 1]);
        }
        lemma_split_concat_frames(fs.skip(1));
        assert(is_frame(fs[0]));
        lemma_split_frame_then(fs[0], concat_frames(fs.skip(1)));
        assert(concat_frames(fs) == fs[0] + concat_frames(fs.skip(1)));
        assert(seq![fs[0]] + fs.skip(1) =~= fs);
        assert(seq![fs[0]] + fs.skip(1) == fs);
        assert(split_frames(concat_frames(fs)) == Ok::<Seq<Seq<u8>>, int>(seq![fs[0]] + fs.skip(1)));
    }
}

} // verus!
