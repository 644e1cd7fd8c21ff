//! Per-connection reliable UDP state: packet ids, in-flight window, outbound
//! queue, acknowledgements, retransmission and pings.
//!
//! Times are milliseconds on a monotonic clock the caller supplies.

use vstd::prelude::*;
use std::collections::VecDeque;
use vstd::slice::slice_to_vec;
use crate::endian::{be16, be16_bytes, push_be16, push_bytes, read_be16};
use crate::packet::{
    encode_packet, header_bytes, header_from_bytes, lemma_header_fields_roundtrip, lemma_header_roundtrip,
    packet_bytes, with_length,
    PacketFlags, PacketHeader, HEADER_LEN, MAX_PACKET_LEN,
};

verus! {

/// 15-bit packet ID space used by ATEM.
pub const MAX_PACKET_ID: u16 = 0x8000;

/// Tuning of a reliable endpoint; all durations are in milliseconds.
#[derive(Debug, Clone, Copy, PartialEq, Eq, Structural)]
pub struct ReliableConfig {
    pub max_in_flight: usize,
    pub retransmit_after: u64,
    pub ack_coalesce_count: u16,
    pub ack_coalesce_after: u64,
    pub ping_interval: u64,
    pub idle_timeout: u64,
}

pub open spec fn default_reliable_config() -> ReliableConfig {
    ReliableConfig {
        max_in_flight: 32,
        retransmit_after: 30,
        ack_coalesce_count: 16,
        ack_coalesce_after: 5,
        ping_interval: 100,
        idle_timeout: 1000,
    }
}

impl Default for ReliableConfig {
    fn default() -> (r: Self)
        ensures
            r == default_reliable_config(),
    {
        Self {
            max_in_flight: 32,
            retransmit_after: 30,
            ack_coalesce_count: 16,
            ack_coalesce_after: 5,
            ping_interval: 100,
            idle_timeout: 1000,
        }
    }
}

#[derive(Debug, Clone, Copy, Default)]
pub struct SeqSpace;

/// The packet id after `current` in the 15-bit space.
pub fn next_packet_id(current: u16) -> (r: u16)
    requires
        current < u16::MAX,
    ensures
        r == (current + 1) % 32768,
        r < MAX_PACKET_ID,
{
    (current + 1) % MAX_PACKET_ID
}

/// Whether acknowledging `ack_id` covers `packet_id`: equal ids, or `ack_id` at most
/// 255 ahead of `packet_id` modulo 2^15. A negative `ack_id - packet_id + 2^15`
/// (possible only for ids outside the 15-bit space) leaves a negative remainder
/// under Rust's `%`, which also counts as covering.
pub open spec fn ack_covers(ack_id: u16, packet_id: u16) -> bool {
    let d = ack_id as int - packet_id as int + 32768;
    ack_id == packet_id || d < 0 || d % 32768 < 256
}

/// Wrap-aware check whether `ack_id` covers `packet_id` (±256 window).
pub fn is_ack_covering(ack_id: u16, packet_id: u16) -> (r: bool)
    ensures
        r == ack_covers(ack_id, packet_id),
{
    if ack_id == packet_id {
        return true;
    }
    let d: i32 = (ack_id as i32) - (packet_id as i32) + MAX_PACKET_ID as i32;
    if d < 0 {
        // Rust's `%` keeps the dividend's sign: the remainder is negative, below 256.
        return true;
    }
    (d as u32) % (MAX_PACKET_ID as u32) < 256
}

/// A reliable packet sent and not yet acknowledged.
#[derive(Debug, Clone)]
pub struct InFlightEntry {
    pub packet_id: u16,
    pub bytes: Vec<u8>,
    pub sent_at: u64,
}

impl View for InFlightEntry {
    type V = (u16, Seq<u8>, u64);

    open spec fn view(&self) -> (u16, Seq<u8>, u64) {
        (self.packet_id, self.bytes@, self.sent_at)
    }
}

#[derive(Debug, Clone, Copy, PartialEq, Eq, Structural)]
pub struct AckState {
    pub highest_recv: Option<u16>,
    pub expected_recv: u16,
    pub last_ack_sent_at: Option<u64>,
    pub packets_since_ack: u16,
    pub need_init_ack: bool,
}

pub open spec fn fresh_ack_state() -> AckState {
    AckState {
        highest_recv: None,
        expected_recv: 0,
        last_ack_sent_at: None,
        packets_since_ack: 0,
        need_init_ack: false,
    }
}

impl Default for AckState {
    fn default() -> (r: Self)
        ensures
            r == fresh_ack_state(),
    {
        AckState {
            highest_recv: None,
            expected_recv: 0,
            last_ack_sent_at: None,
            packets_since_ack: 0,
            need_init_ack: false,
        }
    }
}

/// Per-connection reliable UDP state (client or server role).
#[derive(Debug)]
pub struct ReliableEndpoint {
    pub session_id: u16,
    pub next_send_id: u16,
    pub config: ReliableConfig,
    pub in_flight: VecDeque<InFlightEntry>,
    pub outbound: VecDeque<Vec<u8>>,
    pub ack: AckState,
    pub last_recv_at: u64,
    pub last_ping_at: u64,
    pub opened: bool,
}

/// Abstract state of an endpoint.
pub ghost struct EndpointModel {
    pub session_id: u16,
    pub next_send_id: u16,
    pub config: ReliableConfig,
    /// `(packet_id, bytes, sent_at)` per in-flight packet, oldest first.
    pub in_flight: Seq<(u16, Seq<u8>, u64)>,
    pub outbound: Seq<Seq<u8>>,
    pub ack: AckState,
    pub last_recv_at: u64,
    pub last_ping_at: u64,
    pub opened: bool,
}

pub open spec fn inflight_view(q: Seq<InFlightEntry>) -> Seq<(u16, Seq<u8>, u64)> {
    q.map_values(|e: InFlightEntry| e@)
}

pub open spec fn bytes_list(q: Seq<Vec<u8>>) -> Seq<Seq<u8>> {
    q.map_values(|v: Vec<u8>| v@)
}

impl View for ReliableEndpoint {
    type V = EndpointModel;

    open spec fn view(&self) -> EndpointModel {
        EndpointModel {
            session_id: self.session_id,
            next_send_id: self.next_send_id,
            config: self.config,
            in_flight: inflight_view(self.in_flight@),
            outbound: bytes_list(self.outbound@),
            ack: self.ack,
            last_recv_at: self.last_recv_at,
            last_ping_at: self.last_ping_at,
            opened: self.opened,
        }
    }
}

/// `a - b`, or 0 when `b` is later than `a`.
pub open spec fn elapsed(now: u64, since: u64) -> u64 {
    if now >= since {
        (now - since) as u64
    } else {
        0
    }
}

/// Appending `cmd` to the packing state `(emitted, current)`.
pub open spec fn pack_step(emitted: Seq<Seq<u8>>, cur: Seq<u8>, cmd: Seq<u8>) -> (Seq<Seq<u8>>, Seq<u8>) {
    let flush = 12 + cur.len() + cmd.len() > 1400 && cur.len() > 0;
    let e1 = if flush { emitted.push(cur) } else { emitted };
    let c1 = if flush { Seq::empty() } else { cur };
    if 12 + cmd.len() > 1400 {
        (e1.push(cmd), c1)
    } else {
        (e1, c1 + cmd)
    }
}

/// Packing state after the commands `cmds`, in order.
pub open spec fn pack_fold(cmds: Seq<Seq<u8>>) -> (Seq<Seq<u8>>, Seq<u8>)
    decreases cmds.len(),
{
    if cmds.len() == 0 {
        (Seq::empty(), Seq::empty())
    } else {
        let prev = pack_fold(cmds.drop_last());
        pack_step(prev.0, prev.1, cmds.last())
    }
}

/// The payloads `queue_commands_packed` queues for `cmds`: commands are packed
/// back to back until a datagram would exceed `MAX_PACKET_LEN`; a command too large
/// for any datagram goes alone.
pub open spec fn pack_commands(cmds: Seq<Seq<u8>>) -> Seq<Seq<u8>> {
    let st = pack_fold(cmds);
    if st.1.len() > 0 {
        st.0.push(st.1)
    } else {
        st.0
    }
}

/// The bytes of a list of byte strings, back to back.
pub open spec fn flatten(q: Seq<Seq<u8>>) -> Seq<u8>
    decreases q.len(),
{
    if q.len() == 0 {
        Seq::empty()
    } else {
        flatten(q.drop_last()) + q.last()
    }
}

proof fn lemma_bytes_list_push(q: Seq<Vec<u8>>, v: Vec<u8>)
    ensures
        bytes_list(q.push(v)) == bytes_list(q).push(v@),
{
    assert(bytes_list(q.push(v)) =~= bytes_list(q).push(v@));
}

impl ReliableEndpoint {
    pub fn new(session_id: u16, config: ReliableConfig, now: u64) -> (r: Self)
        ensures
            r@ == (EndpointModel {
                session_id,
                next_send_id: 0,
                config,
                in_flight: Seq::empty(),
                outbound: Seq::empty(),
                ack: fresh_ack_state(),
                last_recv_at: now,
                last_ping_at: now,
                opened: false,
            }),
    {
        let r = Self {
            session_id,
            next_send_id: 0,
            config,
            in_flight: VecDeque::new(),
            outbound: VecDeque::new(),
            ack: AckState::default(),
            last_recv_at: now,
            last_ping_at: now,
            opened: false,
        };
        assert(r@.in_flight =~= Seq::<(u16, Seq<u8>, u64)>::empty());
        assert(r@.outbound =~= Seq::<Seq<u8>>::empty());
        r
    }

    /// Records that a datagram arrived at `now`.
    pub fn note_recv(&mut self, now: u64)
        ensures
            final(self)@ == (EndpointModel { last_recv_at: now, ..old(self)@ }),
    {
        self.last_recv_at = now;
    }

    /// No datagram for longer than the idle timeout.
    pub fn is_timed_out(&self, now: u64) -> (r: bool)
        ensures
            r == (elapsed(now, self.last_recv_at) > self.config.idle_timeout),
    {
        now.saturating_sub(self.last_recv_at) > self.config.idle_timeout
    }

    pub fn queue_payload(&mut self, payload: Vec<u8>)
        ensures
            final(self)@ == (EndpointModel {
                outbound: old(self)@.outbound.push(payload@),
                ..old(self)@
            }),
    {
        self.outbound.push_back(payload);
        proof {
            assert(bytes_list(self.outbound@) =~= bytes_list(old(self).outbound@).push(payload@));
        }
    }

    /// Queues `commands` packed into as few payloads as fit a datagram.
    pub fn queue_commands_packed(&mut self, commands: &[Vec<u8>])
        ensures
            final(self)@ == (EndpointModel {
                outbound: old(self)@.outbound + pack_commands(bytes_list(commands@)),
                ..old(self)@
            }),
    {
        let ghost cmds = bytes_list(commands@);
        let ghost start = old(self)@;
        let mut current: Vec<u8> = Vec::new();
        let mut i: usize = 0;
        while i < commands.len()
            invariant
                i <= commands@.len(),
                cmds == bytes_list(commands@),
                self@ == (EndpointModel { outbound: self@.outbound, ..start }),
                self@.outbound == start.outbound + pack_fold(cmds.take(i as int)).0,
                current@ == pack_fold(cmds.take(i as int)).1,
                current@.len() + 12 <= 1400,
            decreases commands@.len() - i,
        {
            let cmd = &commands[i];
            let ghost prev = pack_fold(cmds.take(i as int));
            proof {
                assert(cmds.take(i + 1).drop_last() =~= cmds.take(i as int));
                assert(cmds.take(i + 1).last() == cmd@);
            }
            let flush = cmd.len() > MAX_PACKET_LEN - HEADER_LEN - current.len();
            if flush && current.len() > 0 {
                let taken = current;
                current = Vec::new();
                let ghost before = self.outbound@;
                self.outbound.push_back(taken);
                proof {
                    lemma_bytes_list_push(before, taken);
                    assert(self@.outbound =~= start.outbound + prev.0.push(prev.1));
                }
            }
            if cmd.len() > MAX_PACKET_LEN - HEADER_LEN {
                let copy = slice_to_vec(cmd.as_slice());
                let ghost before = self.outbound@;
                let ghost before_view = self@.outbound;
                self.outbound.push_back(copy);
                proof {
                    lemma_bytes_list_push(before, copy);
                    assert(self@.outbound =~= before_view.push(cmd@));
                }
            } else {
                push_bytes(&mut current, cmd.as_slice());
            }
            proof {
                assert(self@.outbound =~= start.outbound + pack_fold(cmds.take(i + 1)).0);
                assert(current@ =~= pack_fold(cmds.take(i + 1)).1);
            }
            i = i + 1;
        }
        assert(cmds.take(commands@.len() as int) =~= cmds);
        if current.len() > 0 {
            let ghost before = self.outbound@;
            let ghost before_view = self@.outbound;
            self.outbound.push_back(current);
            proof {
                lemma_bytes_list_push(before, current);
                assert(self@.outbound =~= before_view.push(pack_fold(cmds).1));
            }
        }
        assert(self@.outbound =~= start.outbound + pack_commands(cmds));
    }

    /// Drops acknowledged packets from the front of the in-flight window.
    pub fn on_ack_id(&mut self, ack_id: u16)
        ensures
            final(self)@ == (EndpointModel {
                in_flight: old(self)@.in_flight.skip(acked_count(old(self)@.in_flight, ack_id) as int),
                ..old(self)@
            }),
    {
        let ghost start = self@;
        let ghost mut k: int = 0;
        assert(start.in_flight.skip(0) =~= start.in_flight);
        loop
            invariant
                0 <= k <= start.in_flight.len(),
                self@ == (EndpointModel { in_flight: start.in_flight.skip(k), ..start }),
                acked_count(start.in_flight, ack_id) == k + acked_count(start.in_flight.skip(k), ack_id),
            ensures
                self@ == (EndpointModel {
                    in_flight: start.in_flight.skip(acked_count(start.in_flight, ack_id)),
                    ..start
                }),
            decreases self.in_flight@.len(),
        {
            let covered = self.in_flight.len() > 0 && is_ack_covering(
                ack_id,
                self.in_flight[0].packet_id,
            );
            if !covered {
                proof {
                    let q = start.in_flight.skip(k);
                    if q.len() > 0 {
                        assert(q[0] == self.in_flight@[0]@);
                    }
                    assert(acked_count(q, ack_id) == 0);
                }
                break;
            }
            let ghost before = self.in_flight@;
            self.in_flight.pop_front();
            proof {
                let q = start.in_flight.skip(k);
                assert(q[0] == before[0]@);
                assert(q.skip(1) =~= start.in_flight.skip(k + 1));
                assert(inflight_view(self.in_flight@) =~= start.in_flight.skip(k + 1));
                k = k + 1;
            }
        }
    }

    /// Returns true if the packet should be accepted for in-order delivery.
    pub fn accept_reliable(&mut self, packet_id: u16, is_retransmit: bool) -> (r: bool)
        requires
            packet_id == old(self).ack.expected_recv ==> old(self).ack.expected_recv < u16::MAX,
        ensures
            r == (packet_id == old(self).ack.expected_recv),
            final(self)@ == (if r {
                accept_next(old(self)@, packet_id)
            } else {
                old(self)@
            }),
    {
        if packet_id == self.ack.expected_recv {
            self.ack.expected_recv = next_packet_id(self.ack.expected_recv);
            self.ack.highest_recv = Some(packet_id);
            self.ack.packets_since_ack = self.ack.packets_since_ack.saturating_add(1);
            true
        } else if is_retransmit && is_ack_covering(
            self.ack.expected_recv.wrapping_sub(1) % MAX_PACKET_ID,
            packet_id,
        ) {
            // Duplicate retransmit of an already-seen packet.
            false
        } else {
            // Out of order: dropped; the caller may send a retransmit request.
            false
        }
    }

    pub fn should_send_ack(&self, now: u64) -> (r: bool)
        ensures
            r == ack_due(self@, now),
    {
        if self.ack.highest_recv.is_none() {
            return false;
        }
        if self.ack.packets_since_ack >= self.config.ack_coalesce_count {
            return true;
        }
        match self.ack.last_ack_sent_at {
            None => self.ack.packets_since_ack > 0,
            Some(t) => self.ack.packets_since_ack > 0 && now.saturating_sub(t)
                >= self.config.ack_coalesce_after,
        }
    }

    /// An ACK for the highest received packet; resets the coalescing counters.
    pub fn build_ack_packet(&mut self, now: u64) -> (r: Option<Vec<u8>>)
        ensures
            r is Some <==> old(self).ack.highest_recv is Some,
            r is None ==> final(self)@ == old(self)@,
            r matches Some(p) ==> p@ == ack_packet_bytes(old(self)@) && final(self)@ == acked_state(
                old(self)@,
                now,
            ),
    {
        let ack_id = match self.ack.highest_recv {
            Some(a) => a,
            None => return None,
        };
        let mut header = PacketHeader::new(PacketFlags::ACK_REPLY, self.session_id, HEADER_LEN as u16);
        header.ack_id = ack_id;
        self.ack.packets_since_ack = 0;
        self.ack.last_ack_sent_at = Some(now);
        let empty: [u8; 0] = [];
        assert(empty@ =~= Seq::<u8>::empty());
        Some(encode_packet(&header, vstd::array::array_as_slice(&empty)))
    }

    /// A retransmit request for the next expected packet id.
    pub fn build_retransmit_request(&self) -> (r: Vec<u8>)
        ensures
            r@ == packet_bytes(retransmit_request_header(self@), Seq::empty()),
    {
        let mut header = PacketHeader::new(
            PacketFlags::RETRANSMIT_REQUEST,
            self.session_id,
            HEADER_LEN as u16,
        );
        header.retransmit_request = self.ack.expected_recv;
        let empty: [u8; 0] = [];
        assert(empty@ =~= Seq::<u8>::empty());
        encode_packet(&header, vstd::array::array_as_slice(&empty))
    }
}

/// Number of leading in-flight packets that `ack_id` covers.
pub open spec fn acked_count(q: Seq<(u16, Seq<u8>, u64)>, ack_id: u16) -> int
    decreases q.len(),
{
    if q.len() > 0 && ack_covers(ack_id, q[0].0) {
        1 + acked_count(q.skip(1), ack_id)
    } else {
        0
    }
}

/// State after accepting the expected packet `packet_id`.
pub open spec fn accept_next(m: EndpointModel, packet_id: u16) -> EndpointModel {
    EndpointModel {
        ack: AckState {
            expected_recv: ((m.ack.expected_recv + 1) % 32768) as u16,
            highest_recv: Some(packet_id),
            packets_since_ack: if m.ack.packets_since_ack < u16::MAX {
                (m.ack.packets_since_ack + 1) as u16
            } else {
                u16::MAX
            },
            ..m.ack
        },
        ..m
    }
}

/// Whether an acknowledgement should go out now.
pub open spec fn ack_due(m: EndpointModel, now: u64) -> bool {
    &&& m.ack.highest_recv is Some
    &&& {
        ||| m.ack.packets_since_ack >= m.config.ack_coalesce_count
        ||| match m.ack.last_ack_sent_at {
            None => m.ack.packets_since_ack > 0,
            Some(t) => m.ack.packets_since_ack > 0 && elapsed(now, t) >= m.config.ack_coalesce_after,
        }
    }
}

/// Header of the acknowledgement for the highest received packet.
pub open spec fn ack_packet_header(m: EndpointModel) -> PacketHeader {
    PacketHeader {
        flags: PacketFlags::ACK_REPLY,
        length: 12,
        session_id: m.session_id,
        ack_id: m.ack.highest_recv.unwrap(),
        retransmit_request: 0,
        unknown: 0,
        packet_id: 0,
    }
}

pub open spec fn ack_packet_bytes(m: EndpointModel) -> Seq<u8> {
    packet_bytes(ack_packet_header(m), Seq::empty())
}

/// State after sending an acknowledgement at `now`.
pub open spec fn acked_state(m: EndpointModel, now: u64) -> EndpointModel {
    EndpointModel {
        ack: AckState { packets_since_ack: 0, last_ack_sent_at: Some(now), ..m.ack },
        ..m
    }
}

pub open spec fn retransmit_request_header(m: EndpointModel) -> PacketHeader {
    PacketHeader {
        flags: PacketFlags::RETRANSMIT_REQUEST,
        length: 12,
        session_id: m.session_id,
        ack_id: 0,
        retransmit_request: m.ack.expected_recv,
        unknown: 0,
        packet_id: 0,
    }
}


/// `b` with the retransmit flag set in its header word (left as is when shorter than two bytes).
pub open spec fn mark_retransmit(b: Seq<u8>) -> Seq<u8> {
    if b.len() >= 2 {
        let w = be16(b[0], b[1]);
        let flags = ((w / 2048) as u8) | PacketFlags::IS_RETRANSMIT;
        be16_bytes((flags as int * 2048 + w % 2048) as u16) + b.skip(2)
    } else {
        b
    }
}

/// The oldest in-flight packet has waited at least the retransmit delay.
pub open spec fn window_stale(m: EndpointModel, now: u64) -> bool {
    m.in_flight.len() > 0 && elapsed(now, m.in_flight[0].2) >= m.config.retransmit_after
}

/// Phase 1 of a poll: when the window is stale, every in-flight packet is sent again,
/// flagged as a retransmission, and restamped with `now`.
pub open spec fn retransmit_phase(m: EndpointModel, now: u64) -> (EndpointModel, Seq<Seq<u8>>) {
    if window_stale(m, now) {
        (
            EndpointModel {
                in_flight: m.in_flight.map_values(|e: (u16, Seq<u8>, u64)| (e.0, e.1, now)),
                ..m
            },
            m.in_flight.map_values(|e: (u16, Seq<u8>, u64)| mark_retransmit(e.1)),
        )
    } else {
        (m, Seq::empty())
    }
}

/// How many queued payloads fit in the in-flight window.
pub open spec fn send_count(m: EndpointModel) -> int {
    if m.in_flight.len() < m.config.max_in_flight {
        let room = m.config.max_in_flight - m.in_flight.len();
        if room < m.outbound.len() {
            room
        } else {
            m.outbound.len() as int
        }
    } else {
        0
    }
}

/// The packet id `i` steps after `start`.
pub open spec fn id_after(start: u16, i: int) -> u16 {
    if i == 0 {
        start
    } else {
        ((start + i) % 32768) as u16
    }
}

/// Datagram carrying the `i`-th queued payload as a reliable packet.
pub open spec fn data_packet(m: EndpointModel, i: int) -> Seq<u8> {
    packet_bytes(
        PacketHeader {
            flags: PacketFlags::ACK_REQUEST,
            length: (12 + m.outbound[i].len()) as u16,
            session_id: m.session_id,
            ack_id: 0,
            retransmit_request: 0,
            unknown: 0,
            packet_id: id_after(m.next_send_id, i),
        },
        m.outbound[i],
    )
}

/// Phase 2 of a poll: queued payloads are sent as reliable packets with consecutive
/// ids while the in-flight window has room.
pub open spec fn send_phase(m: EndpointModel, now: u64) -> (EndpointModel, Seq<Seq<u8>>) {
    let k = send_count(m);
    (
        EndpointModel {
            next_send_id: id_after(m.next_send_id, k),
            in_flight: m.in_flight + Seq::new(
                k as nat,
                |i: int| (id_after(m.next_send_id, i), data_packet(m, i), now),
            ),
            outbound: m.outbound.skip(k),
            ..m
        },
        Seq::new(k as nat, |i: int| data_packet(m, i)),
    )
}

/// Phase 3 of a poll: an acknowledgement when one is due.
pub open spec fn ack_phase(m: EndpointModel, now: u64) -> (EndpointModel, Seq<Seq<u8>>) {
    if ack_due(m, now) {
        (acked_state(m, now), seq![ack_packet_bytes(m)])
    } else {
        (m, Seq::empty())
    }
}

pub open spec fn ping_due(m: EndpointModel, now: u64) -> bool {
    m.opened && elapsed(now, m.last_ping_at) >= m.config.ping_interval
}

/// An empty reliable packet that keeps the connection alive.
pub open spec fn ping_bytes(m: EndpointModel) -> Seq<u8> {
    packet_bytes(
        PacketHeader {
            flags: PacketFlags::ACK_REQUEST,
            length: 12,
            session_id: m.session_id,
            ack_id: 0,
            retransmit_request: 0,
            unknown: 0,
            packet_id: m.next_send_id,
        },
        Seq::empty(),
    )
}

/// Phase 4 of a poll: on an open connection, a ping once the ping interval has
/// passed; it takes the next packet id and joins the in-flight window.
pub open spec fn ping_phase(m: EndpointModel, now: u64) -> (EndpointModel, Seq<Seq<u8>>) {
    if ping_due(m, now) {
        (
            EndpointModel {
                next_send_id: ((m.next_send_id + 1) % 32768) as u16,
                in_flight: m.in_flight.push((m.next_send_id, ping_bytes(m), now)),
                last_ping_at: now,
                ..m
            },
            seq![ping_bytes(m)],
        )
    } else {
        (m, Seq::empty())
    }
}

/// State and datagrams of one poll: retransmissions, new packets, an ack, a ping.
pub open spec fn poll_spec(m: EndpointModel, now: u64) -> (EndpointModel, Seq<Seq<u8>>) {
    let a = retransmit_phase(m, now);
    let b = send_phase(a.0, now);
    let c = ack_phase(b.0, now);
    let d = ping_phase(c.0, now);
    (d.0, a.1 + b.1 + c.1 + d.1)
}

/// A poll at `now` cannot overflow packet ids or datagram lengths: whenever a packet
/// or a ping goes out, the next id is not the largest `u16`, and every payload sent
/// fits a datagram.
pub open spec fn poll_ready(m: EndpointModel, now: u64) -> bool {
    &&& (m.next_send_id < u16::MAX || (send_count(m) == 0 && !ping_due(m, now)))
    &&& forall|i: int| 0 <= i < send_count(m) ==> 12 + (#[trigger] m.outbound[i]).len() <= u16::MAX
}

proof fn lemma_inflight_view_tail(q: Seq<InFlightEntry>)
    requires
        q.len() > 0,
    ensures
        inflight_view(q.subrange(1, q.len() as int)) == inflight_view(q).skip(1),
{
    assert(inflight_view(q.subrange(1, q.len() as int)) =~= inflight_view(q).skip(1));
}

proof fn lemma_inflight_view_push(q: Seq<InFlightEntry>, e: InFlightEntry)
    ensures
        inflight_view(q.push(e)) == inflight_view(q).push(e@),
{
    assert(inflight_view(q.push(e)) =~= inflight_view(q).push(e@));
}

proof fn lemma_bytes_list_tail(q: Seq<Vec<u8>>)
    requires
        q.len() > 0,
    ensures
        bytes_list(q.subrange(1, q.len() as int)) == bytes_list(q).skip(1),
{
    assert(bytes_list(q.subrange(1, q.len() as int)) =~= bytes_list(q).skip(1));
}

proof fn lemma_flag_bits(x: u8)
    requires
        x < 32,
    ensures
        (x | 4) < 32,
{
    assert(x < 32 ==> (x | 4) < 32) by (bit_vector);
}

/// A copy of `b` with the retransmit flag set in its header word.
fn mark_retransmit_bytes(b: &Vec<u8>) -> (r: Vec<u8>)
    ensures
        r@ == mark_retransmit(b@),
{
    if b.len() >= 2 {
        let w = read_be16(b[0], b[1]);
        let hi = (w / 2048) as u8;
        proof {
            lemma_flag_bits(hi);
        }
        let flags = hi | PacketFlags::IS_RETRANSMIT;
        let nw = (flags as u16) * 2048 + w % 2048;
        let mut out = Vec::new();
        push_be16(&mut out, nw);
        let tail = &b.as_slice()[2..b.len()];
        push_bytes(&mut out, tail);
        assert(tail@ =~= b@.skip(2));
        out
    } else {
        slice_to_vec(b.as_slice())
    }
}

proof fn lemma_id_after_step(s: u16, j: int)
    requires
        s < u16::MAX,
        0 <= j,
    ensures
        id_after(s, j) < u16::MAX,
        id_after(s, j + 1) == (id_after(s, j) + 1) % 32768,
{
    if j > 0 {
        vstd::arithmetic::div_mod::lemma_add_mod_noop(s + j, 1, 32768);
        assert(1int % 32768 == 1);
    }
}

impl ReliableEndpoint {
    fn retransmit_window(&mut self, now: u64, out: &mut Vec<Vec<u8>>)
        ensures
            final(self)@ == retransmit_phase(old(self)@, now).0,
            bytes_list(final(out)@) == bytes_list(old(out)@) + retransmit_phase(old(self)@, now).1,
    {
        let ghost m = self@;
        let ghost out0 = bytes_list(out@);
        if self.in_flight.len() > 0 && now.saturating_sub(self.in_flight[0].sent_at)
            >= self.config.retransmit_after {
            assert(m.in_flight[0] == self.in_flight@[0]@);
            let n = self.in_flight.len();
            let mut rebuilt: VecDeque<InFlightEntry> = VecDeque::new();
            let mut i: usize = 0;
            proof {
                assert(m.in_flight.skip(0) =~= m.in_flight);
                assert(inflight_view(rebuilt@) =~= m.in_flight.take(0).map_values(
                    |e: (u16, Seq<u8>, u64)| (e.0, e.1, now),
                ));
                assert(bytes_list(out@) =~= out0 + m.in_flight.take(0).map_values(
                    |e: (u16, Seq<u8>, u64)| mark_retransmit(e.1),
                ));
            }
            while i < n
                invariant
                    i <= n,
                    self.in_flight@.len() == n - i,
                    n == m.in_flight.len(),
                    self@ == (EndpointModel { in_flight: m.in_flight.skip(i as int), ..m }),
                    inflight_view(rebuilt@) == m.in_flight.take(i as int).map_values(
                        |e: (u16, Seq<u8>, u64)| (e.0, e.1, now),
                    ),
                    bytes_list(out@) == out0 + m.in_flight.take(i as int).map_values(
                        |e: (u16, Seq<u8>, u64)| mark_retransmit(e.1),
                    ),
                decreases n - i,
            {
                let ghost q = self.in_flight@;
                let ghost rb = rebuilt@;
                let ghost ob = out@;
                let entry = self.in_flight.pop_front().unwrap();
                proof {
                    assert(inflight_view(q)[0] == q[0]@);
                }
                let bytes = mark_retransmit_bytes(&entry.bytes);
                out.push(bytes);
                let ne = InFlightEntry { packet_id: entry.packet_id, bytes: entry.bytes, sent_at: now };
                rebuilt.push_back(ne);
                proof {
                    assert(m.in_flight.skip(i as int)[0] == q[0]@);
                    assert(m.in_flight[i as int] == q[0]@);
                    lemma_inflight_view_tail(q);
                    assert(m.in_flight.skip(i as int).skip(1) =~= m.in_flight.skip(i + 1));
                    lemma_inflight_view_push(rb, ne);
                    assert(m.in_flight.take(i + 1).map_values(|e: (u16, Seq<u8>, u64)| (e.0, e.1, now))
                        =~= m.in_flight.take(i as int).map_values(|e: (u16, Seq<u8>, u64)| (e.0, e.1, now)).push(
                        (entry.packet_id, entry.bytes@, now),
                    ));
                    assert(bytes_list(out@) =~= bytes_list(ob).push(mark_retransmit(entry.bytes@)));
                    assert(m.in_flight.take(i + 1).map_values(|e: (u16, Seq<u8>, u64)| mark_retransmit(e.1))
                        =~= m.in_flight.take(i as int).map_values(|e: (u16, Seq<u8>, u64)| mark_retransmit(e.1)).push(
                        mark_retransmit(entry.bytes@),
                    ));
                }
                i = i + 1;
            }
            self.in_flight = rebuilt;
            proof {
                assert(m.in_flight.take(n as int) =~= m.in_flight);
                assert(self@ =~= retransmit_phase(m, now).0);
            }
        } else {
            assert(bytes_list(out@) =~= out0 + Seq::<Seq<u8>>::empty());
        }
    }

    fn send_queued(&mut self, now: u64, out: &mut Vec<Vec<u8>>)
        requires
            poll_ready(old(self)@, now),
        ensures
            final(self)@ == send_phase(old(self)@, now).0,
            bytes_list(final(out)@) == bytes_list(old(out)@) + send_phase(old(self)@, now).1,
    {
        let ghost m = self@;
        let ghost out0 = bytes_list(out@);
        let ghost k = send_count(m);
        let mut j: usize = 0;
        proof {
            assert(m.outbound.skip(0) =~= m.outbound);
            assert(m.in_flight + Seq::new(
                0,
                |i: int| (id_after(m.next_send_id, i), data_packet(m, i), now),
            ) =~= m.in_flight);
            assert(bytes_list(out@) =~= out0 + Seq::new(0, |i: int| data_packet(m, i)));
        }
        while self.in_flight.len() < self.config.max_in_flight && self.outbound.len() > 0
            invariant
                poll_ready(m, now),
                0 <= j <= k,
                k == send_count(m),
                self.in_flight@.len() == m.in_flight.len() + j,
                self.outbound@.len() == m.outbound.len() - j,
                self@ == (EndpointModel {
                    next_send_id: id_after(m.next_send_id, j as int),
                    in_flight: m.in_flight + Seq::new(
                        j as nat,
                        |i: int| (id_after(m.next_send_id, i), data_packet(m, i), now),
                    ),
                    outbound: m.outbound.skip(j as int),
                    ..m
                }),
                bytes_list(out@) == out0 + Seq::new(j as nat, |i: int| data_packet(m, i)),
            decreases m.outbound.len() - j,
        {
            let ghost ob = out@;
            let ghost fl = self.in_flight@;
            let ghost oq = self.outbound@;
            proof {
                assert(bytes_list(self.outbound@)[0] == self.outbound@[0]@);
                assert(m.outbound.skip(j as int)[0] == m.outbound[j as int]);
            }
            let payload = self.outbound.pop_front().unwrap();
            proof {
                assert(payload@ == m.outbound[j as int]);
                lemma_id_after_step(m.next_send_id, j as int);
            }
            let packet_id = self.next_send_id;
            self.next_send_id = next_packet_id(self.next_send_id);
            let mut header = PacketHeader::new(
                PacketFlags::ACK_REQUEST,
                self.session_id,
                (HEADER_LEN + payload.len()) as u16,
            );
            header.packet_id = packet_id;
            let bytes = encode_packet(&header, payload.as_slice());
            let copy = slice_to_vec(bytes.as_slice());
            let ne = InFlightEntry { packet_id, bytes: copy, sent_at: now };
            self.in_flight.push_back(ne);
            out.push(bytes);
            proof {
                assert(bytes@ == data_packet(m, j as int));
                lemma_inflight_view_push(fl, ne);
                lemma_bytes_list_tail(oq);
                assert(m.outbound.skip(j as int).skip(1) =~= m.outbound.skip(j + 1));
                assert(inflight_view(self.in_flight@) =~= m.in_flight + Seq::new(
                    (j + 1) as nat,
                    |i: int| (id_after(m.next_send_id, i), data_packet(m, i), now),
                ));
                assert(bytes_list(self.outbound@) =~= m.outbound.skip(j + 1));
                lemma_bytes_list_push(ob, bytes);
                assert(out0 + Seq::new((j + 1) as nat, |i: int| data_packet(m, i)) =~= (out0
                    + Seq::new(j as nat, |i: int| data_packet(m, i))).push(data_packet(m, j as int)));
            }
            j = j + 1;
        }
        assert(j == k);
    }

    /// Produce next outbound datagrams: retransmits, new reliable packets, acks, pings.
    pub fn poll_outbound(&mut self, now: u64) -> (out: Vec<Vec<u8>>)
        requires
            poll_ready(old(self)@, now),
        ensures
            (final(self)@, bytes_list(out@)) == poll_spec(old(self)@, now),
    {
        let ghost m = self@;
        let mut out: Vec<Vec<u8>> = Vec::new();
        self.retransmit_window(now, &mut out);
        let ghost a = self@;
        assert(send_count(a) == send_count(m));
        assert(poll_ready(a, now));
        self.send_queued(now, &mut out);
        let ghost b = self@;
        let ghost ob = out@;
        if self.should_send_ack(now) {
            if let Some(ack) = self.build_ack_packet(now) {
                out.push(ack);
            }
        }
        proof {
            if ack_due(b, now) {
                assert(bytes_list(out@) =~= bytes_list(ob) + seq![ack_packet_bytes(b)]);
            } else {
                assert(bytes_list(out@) =~= bytes_list(ob) + Seq::<Seq<u8>>::empty());
            }
        }
        let ghost c = self@;
        let ghost oc = out@;
        proof {
            if m.next_send_id < u16::MAX {
                lemma_id_after_step(m.next_send_id, send_count(m));
            }
        }
        if self.opened && now.saturating_sub(self.last_ping_at) >= self.config.ping_interval {
            let mut header = PacketHeader::new(PacketFlags::ACK_REQUEST, self.session_id, HEADER_LEN as u16);
            header.packet_id = self.next_send_id;
            self.next_send_id = next_packet_id(self.next_send_id);
            let empty: [u8; 0] = [];
            assert(empty@ =~= Seq::<u8>::empty());
            let bytes = encode_packet(&header, vstd::array::array_as_slice(&empty));
            let copy = slice_to_vec(bytes.as_slice());
            self.in_flight.push_back(InFlightEntry { packet_id: header.packet_id, bytes: copy, sent_at: now });
            self.last_ping_at = now;
            out.push(bytes);
            proof {
                assert(bytes@ == ping_bytes(c));
                assert(inflight_view(self.in_flight@) =~= c.in_flight.push((c.next_send_id, ping_bytes(c), now)));
                assert(bytes_list(out@) =~= bytes_list(oc) + seq![ping_bytes(c)]);
            }
        } else {
            assert(bytes_list(out@) =~= bytes_list(oc) + Seq::<Seq<u8>>::empty());
        }
        proof {
            let pa = retransmit_phase(m, now);
            let pb = send_phase(pa.0, now);
            let pc = ack_phase(pb.0, now);
            let pd = ping_phase(pc.0, now);
            assert(bytes_list(out@) =~= pa.1 + pb.1 + pc.1 + pd.1);
        }
        out
    }
}


/// A packed payload is non-empty, and either fits one datagram or is a single
/// command that is larger than any datagram.
pub open spec fn packed_payload_ok(p: Seq<u8>, cmds: Seq<Seq<u8>>) -> bool {
    p.len() > 0 && (12 + p.len() <= 1400 || cmds.contains(p))
}

proof fn lemma_flatten_push(q: Seq<Seq<u8>>, x: Seq<u8>)
    ensures
        flatten(q.push(x)) == flatten(q) + x,
{
    assert(q.push(x).drop_last() =~= q);
}

proof fn lemma_pack_fold(cmds: Seq<Seq<u8>>)
    ensures
        flatten(pack_fold(cmds).0) + pack_fold(cmds).1 == flatten(cmds),
        pack_fold(cmds).1.len() + 12 <= 1400,
        forall|j: int|
            0 <= j < pack_fold(cmds).0.len() ==> packed_payload_ok(#[trigger] pack_fold(cmds).0[j], cmds),
    decreases cmds.len(),
{
    if cmds.len() == 0 {
        assert(flatten(Seq::<Seq<u8>>::empty()) + Seq::<u8>::empty() =~= Seq::<u8>::empty());
    } else {
        let init = cmds.drop_last();
        let cmd = cmds.last();
        lemma_pack_fold(init);
        let (e, c) = pack_fold(init);
        let flush = 12 + c.len() + cmd.len() > 1400 && c.len() > 0;
        let e1 = if flush { e.push(c) } else { e };
        let c1 = if flush { Seq::<u8>::empty() } else { c };
        if flush {
            lemma_flatten_push(e, c);
        }
        assert(flatten(e1) + c1 =~= flatten(init));
        assert(forall|x: Seq<u8>| init.contains(x) ==> cmds.contains(x)) by {
            assert forall|x: Seq<u8>| init.contains(x) implies cmds.contains(x) by {
                let j = choose|j: int| 0 <= j < init.len() && init[j] == x;
                assert(cmds[j] == x);
            }
        }
        assert(cmds.contains(cmd)) by {
            assert(cmds[cmds.len() - 1] == cmd);
        }
        assert forall|j: int| 0 <= j < e1.len() implies packed_payload_ok(#[trigger] e1[j], cmds) by {
            if j < e.len() {
                assert(packed_payload_ok(e[j], init));
            }
        }
        if 12 + cmd.len() > 1400 {
            lemma_flatten_push(e1, cmd);
            assert(flatten(cmds) == flatten(init) + cmd);
            assert(flatten(e1.push(cmd)) + c1 =~= flatten(cmds));
            assert forall|j: int| 0 <= j < e1.push(cmd).len() implies packed_payload_ok(
                #[trigger] e1.push(cmd)[j],
                cmds,
            ) by {
                if j < e1.len() {
                    assert(e1.push(cmd)[j] == e1[j]);
                }
            }
        } else {
            assert(flatten(cmds) == flatten(init) + cmd);
            assert(flatten(e1) + (c1 + cmd) =~= flatten(cmds));
        }
    }
}

/// Packing keeps every byte of every command, in order; each packed payload is
/// non-empty and fits one datagram unless it is a single oversized command.
pub proof fn lemma_pack_commands(cmds: Seq<Seq<u8>>)
    ensures
        flatten(pack_commands(cmds)) == flatten(cmds),
        forall|j: int|
            0 <= j < pack_commands(cmds).len() ==> packed_payload_ok(#[trigger] pack_commands(cmds)[j], cmds),
{
    lemma_pack_fold(cmds);
    let (e, c) = pack_fold(cmds);
    if c.len() > 0 {
        lemma_flatten_push(e, c);
        assert forall|j: int| 0 <= j < e.push(c).len() implies packed_payload_ok(#[trigger] e.push(c)[j], cmds) by {
            if j < e.len() {
                assert(e.push(c)[j] == e[j]);
            }
        }
    } else {
        assert(flatten(e) + c =~= flatten(e));
    }
}

/// After an acknowledgement, every dropped packet was covered by it and the new
/// oldest in-flight packet (if any) is not.
pub proof fn lemma_acked_prefix(q: Seq<(u16, Seq<u8>, u64)>, ack_id: u16)
    ensures
        0 <= acked_count(q, ack_id) <= q.len(),
        forall|i: int| 0 <= i < acked_count(q, ack_id) ==> ack_covers(ack_id, #[trigger] q[i].0),
        acked_count(q, ack_id) < q.len() ==> !ack_covers(ack_id, q[acked_count(q, ack_id)].0),
    decreases q.len(),
{
    if q.len() > 0 && ack_covers(ack_id, q[0].0) {
        lemma_acked_prefix(q.skip(1), ack_id);
        assert forall|i: int| 0 <= i < acked_count(q, ack_id) implies ack_covers(ack_id, #[trigger] q[i].0) by {
            if i > 0 {
                assert(q.skip(1)[i - 1] == q[i]);
            }
        }
        if acked_count(q, ack_id) < q.len() {
            assert(q.skip(1)[acked_count(q.skip(1), ack_id)] == q[acked_count(q, ack_id)]);
        }
    }
}

/// Packet ids stay within the 15-bit space across a poll.
pub proof fn lemma_poll_keeps_ids_in_range(m: EndpointModel, now: u64)
    requires
        m.next_send_id < MAX_PACKET_ID,
    ensures
        poll_spec(m, now).0.next_send_id < MAX_PACKET_ID,
{
}

/// A payload that fits one datagram behind its header.
pub open spec fn payload_fits(p: Seq<u8>) -> bool {
    12 + p.len() <= u16::MAX
}

/// Whether `p` fits one datagram behind its header.
pub fn fits_datagram(p: &[u8]) -> (r: bool)
    ensures
        r == payload_fits(p@),
{
    p.len() <= 65523
}

/// An endpoint whose packet ids stay in the 15-bit space and whose queued payloads
/// each fit a datagram.
pub open spec fn endpoint_wf(m: EndpointModel) -> bool {
    &&& m.next_send_id < MAX_PACKET_ID
    &&& m.ack.expected_recv < MAX_PACKET_ID
    &&& forall|i: int| 0 <= i < m.outbound.len() ==> payload_fits(#[trigger] m.outbound[i])
}

/// A well-formed endpoint can always be polled, and stays well formed.
pub proof fn lemma_poll_keeps_wf(m: EndpointModel, now: u64)
    requires
        endpoint_wf(m),
    ensures
        poll_ready(m, now),
        endpoint_wf(poll_spec(m, now).0),
{
    let a = retransmit_phase(m, now);
    let b = send_phase(a.0, now);
    let k = send_count(a.0);
    assert forall|i: int| 0 <= i < b.0.outbound.len() implies payload_fits(#[trigger] b.0.outbound[i]) by {
        assert(b.0.outbound[i] == a.0.outbound[i + k]);
    }
    lemma_poll_keeps_ids_in_range(m, now);
}

/// Packing commands that each fit a datagram gives payloads that each fit one.
pub proof fn lemma_pack_fits(cmds: Seq<Seq<u8>>)
    requires
        forall|i: int| 0 <= i < cmds.len() ==> payload_fits(#[trigger] cmds[i]),
    ensures
        forall|j: int| 0 <= j < pack_commands(cmds).len() ==> payload_fits(#[trigger] pack_commands(cmds)[j]),
{
    lemma_pack_commands(cmds);
    assert forall|j: int| 0 <= j < pack_commands(cmds).len() implies payload_fits(#[trigger] pack_commands(cmds)[j]) by {
        let p = pack_commands(cmds)[j];
        assert(packed_payload_ok(p, cmds));
        if !(12 + p.len() <= 1400) {
            let c = choose|c: int| 0 <= c < cmds.len() && cmds[c] == p;
            assert(payload_fits(cmds[c]));
        }
    }
}

/// Queuing fitting payloads keeps an endpoint well formed.
pub proof fn lemma_queue_keeps_wf(m: EndpointModel, more: Seq<Seq<u8>>)
    requires
        endpoint_wf(m),
        forall|i: int| 0 <= i < more.len() ==> payload_fits(#[trigger] more[i]),
    ensures
        endpoint_wf(EndpointModel { outbound: m.outbound + more, ..m }),
{
    let o = m.outbound + more;
    assert forall|i: int| 0 <= i < o.len() implies payload_fits(#[trigger] o[i]) by {
        if i < m.outbound.len() {
            assert(o[i] == m.outbound[i]);
        } else {
            assert(o[i] == more[i - m.outbound.len()]);
        }
    }
}

/// The ids of `q` run consecutively modulo 2^15 and `next` follows the last one;
/// every id is below 2^15.
pub open spec fn ids_run(q: Seq<(u16, Seq<u8>, u64)>, next: u16) -> bool {
    &&& next < MAX_PACKET_ID
    &&& q.len() > 0 ==> {
        &&& q[0].0 < MAX_PACKET_ID
        &&& forall|i: int| 0 <= i < q.len() ==> (#[trigger] q[i]).0 == (q[0].0 + i) % 32768
        &&& next == (q[0].0 + q.len()) % 32768
    }
}

proof fn lemma_mod_shift(a: int, j: int)
    ensures
        ((a % 32768) + j) % 32768 == (a + j) % 32768,
{
    vstd::arithmetic::div_mod::lemma_add_mod_noop_right(j, a, 32768);
}

/// Appending packets numbered on from `next` keeps the run.
proof fn lemma_ids_extend(q: Seq<(u16, Seq<u8>, u64)>, next: u16, r: Seq<(u16, Seq<u8>, u64)>, next2: u16)
    requires
        ids_run(q, next),
        forall|j: int| 0 <= j < r.len() ==> (#[trigger] r[j]).0 == (next + j) % 32768,
        next2 == (next + r.len()) % 32768,
    ensures
        ids_run(q + r, next2),
{
    let t = q + r;
    if t.len() > 0 {
        if q.len() == 0 {
            assert(t[0] == r[0]);
            assert(t[0].0 == next);
            assert forall|i: int| 0 <= i < t.len() implies (#[trigger] t[i]).0 == (t[0].0 + i) % 32768 by {
                assert(t[i] == r[i]);
            }
        } else {
            let f = q[0].0 as int;
            assert(t[0] == q[0]);
            assert forall|i: int| 0 <= i < t.len() implies (#[trigger] t[i]).0 == (t[0].0 + i) % 32768 by {
                if i < q.len() {
                    assert(t[i] == q[i]);
                } else {
                    assert(t[i] == r[i - q.len()]);
                    lemma_mod_shift(f + q.len(), i - q.len());
                }
            }
            lemma_mod_shift(f + q.len(), r.len() as int);
        }
    }
}

/// Packet ids stay consecutive across a poll: the in-flight ids run modulo 2^15 and
/// end just before the next id.
pub proof fn lemma_poll_keeps_ids_consecutive(m: EndpointModel, now: u64)
    requires
        ids_run(m.in_flight, m.next_send_id),
    ensures
        ids_run(poll_spec(m, now).0.in_flight, poll_spec(m, now).0.next_send_id),
{
    let a = retransmit_phase(m, now);
    let b = send_phase(a.0, now);
    let c = ack_phase(b.0, now);
    let d = ping_phase(c.0, now);
    assert(ids_run(a.0.in_flight, a.0.next_send_id)) by {
        if window_stale(m, now) {
            let q = a.0.in_flight;
            assert forall|i: int| 0 <= i < q.len() implies (#[trigger] q[i]).0 == m.in_flight[i].0 by {}
        }
    }
    let k = send_count(a.0);
    let n = a.0.next_send_id;
    let r = Seq::new(k as nat, |i: int| (id_after(n, i), data_packet(a.0, i), now));
    assert forall|j: int| 0 <= j < r.len() implies (#[trigger] r[j]).0 == (n + j) % 32768 by {
        if j == 0 {
            vstd::arithmetic::div_mod::lemma_small_mod(n as nat, 32768);
        }
    }
    if k == 0 {
        vstd::arithmetic::div_mod::lemma_small_mod(n as nat, 32768);
    }
    lemma_ids_extend(a.0.in_flight, n, r, b.0.next_send_id);
    if ping_due(c.0, now) {
        let p = seq![(c.0.next_send_id, ping_bytes(c.0), now)];
        assert(p[0].0 == (c.0.next_send_id + 0) % 32768) by {
            vstd::arithmetic::div_mod::lemma_small_mod(c.0.next_send_id as nat, 32768);
        }
        lemma_ids_extend(c.0.in_flight, c.0.next_send_id, p, d.0.next_send_id);
        assert(c.0.in_flight + p =~= d.0.in_flight);
    }
}

/// Packet ids stay consecutive across an acknowledgement: dropping the acknowledged
/// prefix keeps the run and the next id.
pub proof fn lemma_ack_keeps_ids_consecutive(q: Seq<(u16, Seq<u8>, u64)>, next: u16, ack_id: u16)
    requires
        ids_run(q, next),
    ensures
        ids_run(q.skip(acked_count(q, ack_id)), next),
{
    lemma_acked_prefix(q, ack_id);
    let c = acked_count(q, ack_id);
    let t = q.skip(c);
    if t.len() > 0 {
        let f = q[0].0 as int;
        assert(t[0] == q[c]);
        lemma_mod_shift(f + c, 0);
        assert forall|i: int| 0 <= i < t.len() implies (#[trigger] t[i]).0 == (t[0].0 + i) % 32768 by {
            assert(t[i] == q[c + i]);
            lemma_mod_shift(f + c, i);
        }
        lemma_mod_shift(f + c, t.len() as int);
    }
}

/// Accepting the expected reliable packet makes an acknowledgement due: the packet
/// becomes the highest received, the count of unacknowledged packets goes up by one
/// (saturating), and, once the coalescing delay since the last acknowledgement has
/// passed (at once when none was sent yet) or the count reaches the coalescing
/// count, the next poll sends a 12-byte ACK whose ack id is that packet's id, under
/// the endpoint's session id.
pub proof fn lemma_accept_makes_ack_due(m: EndpointModel, id: u16, now: u64)
    requires
        ({
            ||| m.ack.packets_since_ack + 1 >= m.config.ack_coalesce_count
            ||| match m.ack.last_ack_sent_at {
                None => true,
                Some(t) => elapsed(now, t) >= m.config.ack_coalesce_after,
            }
        }),
    ensures
        accept_next(m, id).ack.highest_recv == Some(id),
        accept_next(m, id).ack.packets_since_ack as int == if m.ack.packets_since_ack < u16::MAX {
            m.ack.packets_since_ack + 1
        } else {
            u16::MAX as int
        },
        accept_next(m, id).ack.packets_since_ack > 0,
        ack_due(accept_next(m, id), now),
        exists|k: int|
            0 <= k < poll_spec(accept_next(m, id), now).1.len() && {
                let d = #[trigger] poll_spec(accept_next(m, id), now).1[k];
                &&& d.len() == 12
                &&& header_from_bytes(d).flags == PacketFlags::ACK_REPLY
                &&& header_from_bytes(d).ack_id == id
                &&& header_from_bytes(d).session_id == m.session_id
            },
{
    let m2 = accept_next(m, id);
    let a = retransmit_phase(m2, now);
    let b = send_phase(a.0, now);
    let c = ack_phase(b.0, now);
    let d = ping_phase(c.0, now);
    assert(b.0.ack == m2.ack && b.0.config == m2.config && b.0.session_id == m2.session_id);
    assert(ack_due(b.0, now));
    let h = with_length(ack_packet_header(b.0), 0);
    lemma_header_roundtrip(h);
    let pkt = ack_packet_bytes(b.0);
    assert(pkt =~= header_bytes(h));
    let out = poll_spec(m2, now).1;
    let k = (a.1.len() + b.1.len()) as int;
    assert(out == a.1 + b.1 + c.1 + d.1);
    assert(out[k] == pkt);
}

/// For 15-bit ids, an acknowledgement of `a` covers exactly the 256 ids that end at
/// `a`: `a`, `a - 1`, ..., `a - 255`, counted modulo 2^15 (so it wraps past 0).
pub proof fn lemma_ack_covers_window(a: u16, p: u16)
    requires
        a < 32768,
        p < 32768,
    ensures
        ack_covers(a, p) <==> (if a >= p {
            a - p < 256
        } else {
            a + 32768 - p < 256
        }),
{
    let d = a as int - p as int + 32768;
    if a >= p {
        assert(d % 32768 == a - p) by {
            vstd::arithmetic::div_mod::lemma_mod_add_multiples_vanish(a - p, 32768);
            vstd::arithmetic::div_mod::lemma_small_mod((a - p) as nat, 32768);
        }
    } else {
        vstd::arithmetic::div_mod::lemma_small_mod(d as nat, 32768);
    }
}

/// A retransmission is the same datagram with the retransmit flag added: its header
/// reads back with the same fields and flags plus `IS_RETRANSMIT`, and its length
/// and payload bytes are unchanged.
pub proof fn lemma_mark_retransmit_header(b: Seq<u8>)
    requires
        b.len() >= 12,
    ensures
        mark_retransmit(b).len() == b.len(),
        mark_retransmit(b).skip(12) == b.skip(12),
        header_from_bytes(mark_retransmit(b)) == (PacketHeader {
            flags: header_from_bytes(b).flags | PacketFlags::IS_RETRANSMIT,
            ..header_from_bytes(b)
        }),
{
    let w = be16(b[0], b[1]);
    let hi = (w / 2048) as u8;
    lemma_flag_bits(hi);
    let flags = hi | PacketFlags::IS_RETRANSMIT;
    let nw = (flags as int * 2048 + w % 2048) as u16;
    assert(nw as int == flags as int * 2048 + w % 2048);
    let r = mark_retransmit(b);
    assert(r == be16_bytes(nw) + b.skip(2));
    assert(r[0] == be16_bytes(nw)[0] && r[1] == be16_bytes(nw)[1]);
    crate::endian::lemma_be16_roundtrip(nw);
    assert(be16(r[0], r[1]) == nw);
    assert forall|i: int| 2 <= i < r.len() implies r[i] == b[i] by {
        assert(r[i] == b.skip(2)[i - 2]);
    }
    assert(r.skip(12) =~= b.skip(12));
    assert(header_from_bytes(r).flags == flags);
}

/// Once the oldest in-flight packet has waited the retransmit delay, a poll first
/// sends every in-flight packet again, in order, each flagged as a retransmission.
pub proof fn lemma_poll_retransmits_stale_window(m: EndpointModel, now: u64)
    requires
        m.in_flight.len() > 0,
        elapsed(now, m.in_flight[0].2) >= m.config.retransmit_after,
    ensures
        poll_spec(m, now).1.len() >= m.in_flight.len(),
        forall|i: int|
            0 <= i < m.in_flight.len() ==> #[trigger] poll_spec(m, now).1[i] == mark_retransmit(
                m.in_flight[i].1,
            ),
{
    let a = retransmit_phase(m, now);
    let b = send_phase(a.0, now);
    let c = ack_phase(b.0, now);
    let d = ping_phase(c.0, now);
    let out = poll_spec(m, now).1;
    assert(out == a.1 + b.1 + c.1 + d.1);
    assert forall|i: int| 0 <= i < m.in_flight.len() implies #[trigger] out[i] == mark_retransmit(
        m.in_flight[i].1,
    ) by {
        assert(out[i] == a.1[i]);
    }
}

/// How many queued payloads a poll sends: as many as the in-flight window has room
/// for, at most all of them.
pub open spec fn window_room(m: EndpointModel) -> int {
    let room = m.config.max_in_flight as int - m.in_flight.len();
    if room <= 0 {
        0
    } else if room < m.outbound.len() {
        room
    } else {
        m.outbound.len() as int
    }
}

/// A poll sends queued payloads while the in-flight window has room: right after
/// any retransmissions come that many new reliable packets, the `i`-th carrying the
/// `i`-th queued payload under packet id `next_send_id + i` (modulo 2^15) and the
/// endpoint's session id; they join the window and leave the queue.
pub proof fn lemma_poll_sends_queued(m: EndpointModel, now: u64)
    requires
        m.next_send_id < MAX_PACKET_ID,
    ensures
        ({
            let r = if m.in_flight.len() > 0 && elapsed(now, m.in_flight[0].2) >= m.config.retransmit_after {
                m.in_flight.len() as int
            } else {
                0
            };
            let out = poll_spec(m, now).1;
            &&& out.len() >= r + window_room(m)
            &&& forall|i: int|
                0 <= i < window_room(m) ==> {
                    let d = #[trigger] out[r + i];
                    &&& d.len() >= 12
                    &&& header_from_bytes(d).flags == PacketFlags::ACK_REQUEST
                    &&& header_from_bytes(d).packet_id == (m.next_send_id + i) % 32768
                    &&& header_from_bytes(d).session_id == m.session_id
                    &&& d.skip(12) == m.outbound[i]
                }
        }),
        poll_spec(m, now).0.outbound == m.outbound.skip(window_room(m)),
{
    let a = retransmit_phase(m, now);
    let b = send_phase(a.0, now);
    let c = ack_phase(b.0, now);
    let d = ping_phase(c.0, now);
    let out = poll_spec(m, now).1;
    assert(out == a.1 + b.1 + c.1 + d.1);
    assert(a.0.outbound == m.outbound && a.0.config == m.config && a.0.in_flight.len() == m.in_flight.len());
    assert(a.0.next_send_id == m.next_send_id && a.0.session_id == m.session_id);
    let k = send_count(a.0);
    assert(k == window_room(m));
    let r = a.1.len() as int;
    assert forall|i: int| 0 <= i < window_room(m) implies {
        let x = #[trigger] out[r + i];
        &&& x.len() >= 12
        &&& header_from_bytes(x).flags == PacketFlags::ACK_REQUEST
        &&& header_from_bytes(x).packet_id == (m.next_send_id + i) % 32768
        &&& header_from_bytes(x).session_id == m.session_id
        &&& x.skip(12) == m.outbound[i]
    } by {
        assert(out[r + i] == b.1[i]);
        let h = PacketHeader {
            flags: PacketFlags::ACK_REQUEST,
            length: (12 + m.outbound[i].len()) as u16,
            session_id: m.session_id,
            ack_id: 0,
            retransmit_request: 0,
            unknown: 0,
            packet_id: id_after(m.next_send_id, i),
        };
        let h2 = with_length(h, m.outbound[i].len() as int);
        lemma_header_fields_roundtrip(h2);
        let x = b.1[i];
        assert(x == header_bytes(h2) + m.outbound[i]);
        assert(header_from_bytes(x) == header_from_bytes(header_bytes(h2))) by {
            assert forall|j: int| 0 <= j < 12 implies x[j] == header_bytes(h2)[j] by {}
        }
        assert(x.skip(12) =~= m.outbound[i]);
        if i == 0 {
            vstd::arithmetic::div_mod::lemma_small_mod(m.next_send_id as nat, 32768);
        }
    }
}

/// On an open connection a poll sends a ping once the ping interval has passed:
/// its last datagram is an empty reliable packet under the endpoint's session id,
/// and the ping time becomes `now`.
pub proof fn lemma_poll_pings(m: EndpointModel, now: u64)
    requires
        m.opened,
        elapsed(now, m.last_ping_at) >= m.config.ping_interval,
    ensures
        poll_spec(m, now).1.len() >= 1,
        poll_spec(m, now).1.last().len() == 12,
        header_from_bytes(poll_spec(m, now).1.last()).flags == PacketFlags::ACK_REQUEST,
        header_from_bytes(poll_spec(m, now).1.last()).session_id == m.session_id,
        poll_spec(m, now).0.last_ping_at == now,
{
    let a = retransmit_phase(m, now);
    let b = send_phase(a.0, now);
    let c = ack_phase(b.0, now);
    let d = ping_phase(c.0, now);
    let out = poll_spec(m, now).1;
    assert(c.0.opened && c.0.last_ping_at == m.last_ping_at && c.0.config == m.config);
    assert(c.0.session_id == m.session_id);
    assert(out == a.1 + b.1 + c.1 + d.1);
    assert(out.last() == d.1[0]);
    let h = PacketHeader {
        flags: PacketFlags::ACK_REQUEST,
        length: 12,
        session_id: m.session_id,
        ack_id: 0,
        retransmit_request: 0,
        unknown: 0,
        packet_id: c.0.next_send_id,
    };
    lemma_header_roundtrip(with_length(h, 0));
    assert(ping_bytes(c.0) =~= header_bytes(with_length(h, 0)));
}

} // verus!
