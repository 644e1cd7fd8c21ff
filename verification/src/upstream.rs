//! The single upstream session to the switcher: handshake, reliable receive and
//! send, routing of upstream commands (state, audio levels, media transfer), the
//! ready signal on `InCm`, and the reconnect backoff.
//!
//! Socket I/O stays with the caller: it hands each datagram and clock tick in and
//! sends what comes back.

use vstd::prelude::*;
use vstd::slice::slice_to_vec;
use crate::cache::{
    cache_fits, empty_cache, ingest_spec, lemma_ingest_keeps_fits,
    CacheModel, StateCache,
};
use crate::command::{
    concat_frames, ephemeral_name, frame_name, init_complete_name, is_ephemeral_command,
    is_lock_status, is_transfer_command, lock_status_name, name_is, parse_commands, refs_match,
    split_frames, transfer_name, lemma_ascii_text, lemma_name_bytes_are, name_bytes_are,
};
use crate::endian::be16;
use crate::error::ProtocolError;
use crate::filter::{filter_wf, CommandFilter, FilterModel};
use crate::locks::lock_status_spec;
use crate::packet::{
    decode_packet, decode_packet_spec, has_flags, header_bytes, header_from_bytes, lemma_header_roundtrip,
    packet_bytes, with_length, FlagBits, PacketFlags, PacketHeader,
};
use crate::reliable::{
    accept_next, ack_packet_bytes, acked_count, acked_state, bytes_list, default_reliable_config,
    elapsed, endpoint_wf, fresh_ack_state, lemma_pack_fits, lemma_poll_keeps_wf,
    lemma_queue_keeps_wf, next_packet_id, pack_commands, payload_fits, poll_spec,
    retransmit_request_header, AckState, EndpointModel, ReliableConfig, ReliableEndpoint,
};
use crate::session::{
    build_init_complete_ack, init_ack_header, is_handshake_packet, parse_handshake_status,
    HANDSHAKE_OK_STATUS,
};

verus! {

/// What the upstream session tells the client side.
#[derive(Debug, Clone)]
pub enum UpstreamEvent {
    Connected,
    Disconnected,
    /// Framed command payload for all clients.
    StatePayload(Vec<u8>),
    /// High-rate audio levels for subscribers only.
    AudioLevels(Vec<u8>),
    /// Media transfer traffic, for the transfer owner only.
    TransferPayload(Vec<u8>),
}

/// Abstract form of an upstream event.
pub ghost enum EventView {
    Connected,
    Disconnected,
    StatePayload(Seq<u8>),
    AudioLevels(Seq<u8>),
    TransferPayload(Seq<u8>),
}

pub open spec fn event_view(e: UpstreamEvent) -> EventView {
    match e {
        UpstreamEvent::Connected => EventView::Connected,
        UpstreamEvent::Disconnected => EventView::Disconnected,
        UpstreamEvent::StatePayload(p) => EventView::StatePayload(p@),
        UpstreamEvent::AudioLevels(p) => EventView::AudioLevels(p@),
        UpstreamEvent::TransferPayload(p) => EventView::TransferPayload(p@),
    }
}

pub open spec fn events_view(v: Seq<UpstreamEvent>) -> Seq<EventView> {
    v.map_values(|e: UpstreamEvent| event_view(e))
}

/// Upstream media transfer commands (`InCm` excepted).
pub open spec fn transfer_route(n: Seq<u8>) -> bool {
    n != init_complete_name() && transfer_name(n)
}

/// Upstream commands every client gets: lock status and all non-high-rate state.
pub open spec fn state_route(n: Seq<u8>) -> bool {
    n != init_complete_name() && !transfer_name(n) && (lock_status_name(n) || !ephemeral_name(n))
}

/// Upstream high-rate commands, for audio-level subscribers only.
pub open spec fn audio_route(n: Seq<u8>) -> bool {
    n != init_complete_name() && !transfer_name(n) && !lock_status_name(n) && ephemeral_name(n)
}

/// Where an upstream command goes.
pub ghost enum Route {
    State,
    Audio,
    Transfer,
}

pub open spec fn routes_to(n: Seq<u8>, r: Route) -> bool {
    match r {
        Route::State => state_route(n),
        Route::Audio => audio_route(n),
        Route::Transfer => transfer_route(n),
    }
}

/// The frames of `fs` routed to `r`, back to back, in order.
pub open spec fn chunk_of(fs: Seq<Seq<u8>>, r: Route) -> Seq<u8>
    decreases fs.len(),
{
    if fs.len() == 0 {
        Seq::empty()
    } else {
        chunk_of(fs.drop_last(), r) + if routes_to(frame_name(fs.last()), r) {
            fs.last()
        } else {
            Seq::empty()
        }
    }
}

/// Whether `fs` holds an `InCm`.
pub open spec fn has_init_complete(fs: Seq<Seq<u8>>) -> bool {
    exists|i: int| 0 <= i < fs.len() && frame_name(#[trigger] fs[i]) == init_complete_name()
}

/// An upstream payload sorted by destination.
pub struct UpstreamSplit {
    /// The payload parsed as commands; when it did not, `state` is the raw payload.
    pub parsed: bool,
    pub state: Vec<u8>,
    pub audio: Vec<u8>,
    pub transfer: Vec<u8>,
    pub saw_init_complete: bool,
}

/// Abstract form of a split: `(parsed, state, audio, transfer, saw_init_complete)`.
pub open spec fn split_view(s: UpstreamSplit) -> (bool, Seq<u8>, Seq<u8>, Seq<u8>, bool) {
    (s.parsed, s.state@, s.audio@, s.transfer@, s.saw_init_complete)
}

/// How an upstream payload is routed: transfer commands to the transfer owner,
/// high-rate commands to audio subscribers, everything else to all clients, and
/// `InCm` kept back as the ready signal. A payload that does not parse goes to all
/// clients as it is.
pub open spec fn split_spec(p: Seq<u8>) -> (bool, Seq<u8>, Seq<u8>, Seq<u8>, bool) {
    match split_frames(p) {
        Ok(fs) => (
            true,
            chunk_of(fs, Route::State),
            chunk_of(fs, Route::Audio),
            chunk_of(fs, Route::Transfer),
            has_init_complete(fs),
        ),
        Err(_) => (false, p, Seq::empty(), Seq::empty(), false),
    }
}

/// Frames split from a payload, back to back, give the payload again.
proof fn lemma_split_frames_concat(p: Seq<u8>)
    ensures
        split_frames(p) matches Ok(fs) ==> concat_frames(fs) == p,
    decreases p.len(),
{
    if p.len() >= 8 {
        let len = be16(p[0], p[1]) as int;
        if 8 <= len && len <= p.len() {
            lemma_split_frames_concat(p.skip(len));
            if let Ok(fs) = split_frames(p) {
                let rest = split_frames(p.skip(len))->Ok_0;
                assert(fs == seq![p.take(len)] + rest);
                assert(fs.skip(1) =~= rest);
                assert(fs[0] == p.take(len));
                assert(p.take(len) + p.skip(len) =~= p);
            }
        }
    } else if p.len() == 0 {
        if let Ok(fs) = split_frames(p) {
            assert(fs.len() == 0);
        }
    }
}

/// Frames back to back end with the last frame.
pub proof fn lemma_concat_frames_last(fs: Seq<Seq<u8>>)
    requires
        fs.len() > 0,
    ensures
        concat_frames(fs) == concat_frames(fs.drop_last()) + fs.last(),
    decreases fs.len(),
{
    if fs.len() == 1 {
        assert(fs.skip(1) =~= Seq::<Seq<u8>>::empty());
        assert(fs.drop_last() =~= Seq::<Seq<u8>>::empty());
        assert(concat_frames(fs.skip(1)).len() == 0);
        assert(concat_frames(fs) =~= fs[0]);
        assert(concat_frames(fs.drop_last()) + fs.last() =~= fs[0]);
    } else {
        lemma_concat_frames_last(fs.skip(1));
        assert(fs.skip(1).drop_last() =~= fs.drop_last().skip(1));
        assert(fs.drop_last()[0] == fs[0]);
        assert(fs.skip(1).last() == fs.last());
        assert(concat_frames(fs) =~= concat_frames(fs.drop_last()) + fs.last());
    }
}

proof fn lemma_chunk_len(fs: Seq<Seq<u8>>, r: Route)
    ensures
        chunk_of(fs, r).len() <= concat_frames(fs).len(),
    decreases fs.len(),
{
    if fs.len() > 0 {
        lemma_chunk_len(fs.drop_last(), r);
        lemma_concat_frames_last(fs);
    }
}

/// Each destination's share of an upstream payload is no longer than the payload.
pub proof fn lemma_split_within(p: Seq<u8>)
    ensures
        split_spec(p).1.len() <= p.len(),
        split_spec(p).2.len() <= p.len(),
        split_spec(p).3.len() <= p.len(),
{
    lemma_split_frames_concat(p);
    if let Ok(fs) = split_frames(p) {
        lemma_chunk_len(fs, Route::State);
        lemma_chunk_len(fs, Route::Audio);
        lemma_chunk_len(fs, Route::Transfer);
    }
}

/// Sorts an upstream payload by destination.
pub fn split_upstream_payload(payload: &[u8]) -> (r: UpstreamSplit)
    ensures
        split_view(r) == split_spec(payload@),
{
    let cmds = match parse_commands(payload) {
        Ok(c) => c,
        Err(_) => {
            return UpstreamSplit {
                parsed: false,
                state: slice_to_vec(payload),
                audio: Vec::new(),
                transfer: Vec::new(),
                saw_init_complete: false,
            };
        },
    };
    let ghost fs = split_frames(payload@)->Ok_0;
    let mut state: Vec<u8> = Vec::new();
    let mut audio: Vec<u8> = Vec::new();
    let mut transfer: Vec<u8> = Vec::new();
    let mut saw = false;
    let mut i: usize = 0;
    assert(fs.take(0) =~= Seq::<Seq<u8>>::empty());
    while i < cmds.len()
        invariant
            i <= cmds@.len(),
            refs_match(cmds@, fs),
            state@ == chunk_of(fs.take(i as int), Route::State),
            audio@ == chunk_of(fs.take(i as int), Route::Audio),
            transfer@ == chunk_of(fs.take(i as int), Route::Transfer),
            saw == has_init_complete(fs.take(i as int)),
        decreases cmds@.len() - i,
    {
        let cmd = &cmds[i];
        let ghost f = fs[i as int];
        let ghost t = fs.take(i + 1);
        proof {
            assert(cmd.raw@ == f && cmd.name.0@ == frame_name(f));
            assert(t.drop_last() =~= fs.take(i as int));
            assert(t.last() == f);
        }
        let name = cmd.name;
        let is_incm = name_is(&name, 0x49, 0x6e, 0x43, 0x6d);
        let ghost s0 = state@;
        let ghost a0 = audio@;
        let ghost x0 = transfer@;
        let is_transfer = is_transfer_command(name);
        let is_status = is_lock_status(name);
        let is_ephemeral = is_ephemeral_command(name);
        if is_incm {
            saw = true;
        } else if is_transfer {
            transfer.extend_from_slice(cmd.raw);
        } else if is_status || !is_ephemeral {
            state.extend_from_slice(cmd.raw);
        } else {
            audio.extend_from_slice(cmd.raw);
        }
        proof {
            let n = frame_name(f);
            assert(is_incm == (n == init_complete_name()));
            if state_route(n) {
                assert(state@ =~= s0 + f);
            } else {
                assert(state@ =~= s0 + Seq::<u8>::empty());
            }
            if audio_route(n) {
                assert(audio@ =~= a0 + f);
            } else {
                assert(audio@ =~= a0 + Seq::<u8>::empty());
            }
            if transfer_route(n) {
                assert(transfer@ =~= x0 + f);
            } else {
                assert(transfer@ =~= x0 + Seq::<u8>::empty());
            }
            if is_incm {
                assert(frame_name(t[i as int]) == init_complete_name());
            }
            if has_init_complete(fs.take(i as int)) {
                let j = choose|j: int|
                    0 <= j < i && frame_name(#[trigger] fs.take(i as int)[j]) == init_complete_name();
                assert(t[j] == fs.take(i as int)[j]);
            }
            if has_init_complete(t) {
                let j = choose|j: int| 0 <= j < t.len() && frame_name(#[trigger] t[j]) == init_complete_name();
                if j < i {
                    assert(t[j] == fs.take(i as int)[j]);
                }
            }
        }
        i = i + 1;
    }
    assert(fs.take(cmds@.len() as int) =~= fs);
    UpstreamSplit { parsed: true, state, audio, transfer, saw_init_complete: saw }
}

/// Why the upstream session could not start, or ended.
#[derive(Debug, Clone, Copy, PartialEq, Eq, Structural)]
pub enum UpstreamError {
    /// The handshake reply is not a well-formed packet.
    Packet(ProtocolError),
    /// The reply to the HELLO is not a handshake packet.
    NotHandshake { flags: u8 },
    /// The switcher answered the HELLO with another status than OK.
    Rejected { status: Option<u8> },
    /// Nothing arrived from the switcher for longer than the idle timeout.
    IdleTimeout,
}

/// Reliable state and progress of one upstream session.
pub struct UpstreamLink {
    pub rel: ReliableEndpoint,
    /// A real `InCm` has arrived.
    pub init_complete: bool,
    /// Clients are being accepted (set on the first `InCm`).
    pub connected: bool,
    /// This session reached the ready state (resets the reconnect backoff).
    pub reached_ready: bool,
    /// Client commands waiting for the next tick.
    pub pending: Vec<Vec<u8>>,
}

pub ghost struct LinkModel {
    pub rel: EndpointModel,
    pub init_complete: bool,
    pub connected: bool,
    pub reached_ready: bool,
    pub pending: Seq<Seq<u8>>,
}

impl View for UpstreamLink {
    type V = LinkModel;

    open spec fn view(&self) -> LinkModel {
        LinkModel {
            rel: self.rel@,
            init_complete: self.init_complete,
            connected: self.connected,
            reached_ready: self.reached_ready,
            pending: bytes_list(self.pending@),
        }
    }
}

/// A session whose endpoint is well formed and whose waiting commands each fit a datagram.
pub open spec fn link_wf(l: LinkModel) -> bool {
    &&& endpoint_wf(l.rel)
    &&& forall|i: int| 0 <= i < l.pending.len() ==> payload_fits(#[trigger] l.pending[i])
}

/// The endpoint of a session the switcher accepted with HELLO header `h`: the HELLO
/// counts as received, the init dump is expected next, and our first packet is id 1.
pub open spec fn hello_endpoint(h: PacketHeader, now: u64) -> EndpointModel {
    EndpointModel {
        session_id: h.session_id,
        next_send_id: 1,
        config: default_reliable_config(),
        in_flight: Seq::empty(),
        outbound: Seq::empty(),
        ack: AckState {
            highest_recv: Some(h.packet_id),
            expected_recv: ((h.packet_id + 1) % 32768) as u16,
            ..fresh_ack_state()
        },
        last_recv_at: now,
        last_ping_at: now,
        opened: false,
    }
}

/// The session a HELLO reply opens, with the acknowledgement to send, or why it fails.
pub open spec fn handshake_spec(reply: Seq<u8>, now: u64) -> Result<(LinkModel, Seq<u8>), UpstreamError> {
    match decode_packet_spec(reply) {
        Err(e) => Err(UpstreamError::Packet(e)),
        Ok((h, p)) => {
            let status = if p.len() > 0 { Some(p[0]) } else { None::<u8> };
            if !has_flags(h.flags, PacketFlags::HANDSHAKE) {
                Err(UpstreamError::NotHandshake { flags: h.flags })
            } else if status != Some(HANDSHAKE_OK_STATUS) {
                Err(UpstreamError::Rejected { status })
            } else {
                let r = hello_endpoint(h, now);
                Ok(
                    (
                        LinkModel {
                            rel: acked_state(r, now),
                            init_complete: false,
                            connected: false,
                            reached_ready: false,
                            pending: Seq::empty(),
                        },
                        ack_packet_bytes(r),
                    ),
                )
            }
        },
    }
}

/// The endpoint once an arriving header is read: a non-zero session id is adopted,
/// and an acknowledgement drops the packets it covers.
pub open spec fn take_header(r: EndpointModel, h: PacketHeader) -> EndpointModel {
    let r1 = if h.session_id != 0 {
        EndpointModel { session_id: h.session_id, ..r }
    } else {
        r
    };
    if has_flags(h.flags, PacketFlags::ACK_REPLY) || h.ack_id != 0 {
        EndpointModel { in_flight: r1.in_flight.skip(acked_count(r1.in_flight, h.ack_id)), ..r1 }
    } else {
        r1
    }
}

/// The events for routed upstream shares, in order: state, audio levels, transfer.
pub open spec fn share_events(state: Seq<u8>, audio: Seq<u8>, transfer: Seq<u8>) -> Seq<EventView> {
    (if state.len() > 0 {
        seq![EventView::StatePayload(state)]
    } else {
        Seq::empty()
    }) + (if audio.len() > 0 {
        seq![EventView::AudioLevels(audio)]
    } else {
        Seq::empty()
    }) + (if transfer.len() > 0 {
        seq![EventView::TransferPayload(transfer)]
    } else {
        Seq::empty()
    })
}

/// Effect of an upstream payload: lock status and state reach the lock table and the
/// cache, the shares go out as events, and the first `InCm` marks the session ready,
/// opens it to clients and sends the post-init acknowledgement.
pub open spec fn payload_spec(l: LinkModel, c: CacheModel, f: FilterModel, p: Seq<u8>) -> (
    LinkModel,
    CacheModel,
    FilterModel,
    Seq<Seq<u8>>,
    Seq<EventView>,
) {
    let (parsed, state, audio, transfer, saw) = split_spec(p);
    let f1 = if parsed && state.len() > 0 {
        FilterModel { locks: lock_status_spec(f.locks, state), ..f }
    } else {
        f
    };
    let c1 = if state.len() > 0 {
        ingest_spec(c, state)
    } else {
        c
    };
    let ev = share_events(state, audio, transfer);
    if !saw {
        (l, c1, f1, Seq::empty(), ev)
    } else if l.connected {
        (
            LinkModel { init_complete: true, reached_ready: true, ..l },
            CacheModel { ready: true, ..c1 },
            f1,
            Seq::empty(),
            ev,
        )
    } else {
        let ack_id = match l.rel.ack.highest_recv {
            Some(a) => a,
            None => 0,
        };
        (
            LinkModel {
                init_complete: true,
                reached_ready: true,
                connected: true,
                rel: EndpointModel { opened: true, ..l.rel },
                ..l
            },
            CacheModel { ready: true, ..c1 },
            f1,
            seq![packet_bytes(init_ack_header(l.rel.session_id, ack_id), Seq::empty())],
            ev.push(EventView::Connected),
        )
    }
}

/// Effect of an upstream datagram: state of the session, the cache and the filter,
/// datagrams to send back, and events for the client side.
pub open spec fn datagram_spec(l: LinkModel, c: CacheModel, f: FilterModel, d: Seq<u8>, now: u64) -> (
    LinkModel,
    CacheModel,
    FilterModel,
    Seq<Seq<u8>>,
    Seq<EventView>,
) {
    let l0 = LinkModel { rel: EndpointModel { last_recv_at: now, ..l.rel }, ..l };
    match decode_packet_spec(d) {
        Err(_) => (l0, c, f, Seq::empty(), Seq::empty()),
        Ok((h, p)) => {
            let r = take_header(l0.rel, h);
            let l1 = LinkModel { rel: r, ..l0 };
            let reliable = has_flags(h.flags, PacketFlags::ACK_REQUEST);
            if has_flags(h.flags, PacketFlags::HANDSHAKE) {
                (l1, c, f, Seq::empty(), Seq::empty())
            } else if reliable && h.packet_id != r.ack.expected_recv {
                (l1, c, f, seq![packet_bytes(retransmit_request_header(r), Seq::empty())], Seq::empty())
            } else {
                let l2 = if reliable {
                    LinkModel { rel: accept_next(r, h.packet_id), ..l1 }
                } else {
                    l1
                };
                if p.len() == 0 {
                    (l2, c, f, Seq::empty(), Seq::empty())
                } else {
                    payload_spec(l2, c, f, p)
                }
            }
        },
    }
}

/// Effect of a clock tick: `None` when the switcher has been silent too long, else
/// the waiting commands are packed and queued and the endpoint is polled.
pub open spec fn tick_spec(l: LinkModel, now: u64) -> Option<(LinkModel, Seq<Seq<u8>>)> {
    if elapsed(now, l.rel.last_recv_at) > l.rel.config.idle_timeout {
        None
    } else {
        let r1 = if l.pending.len() > 0 {
            EndpointModel { outbound: l.rel.outbound + pack_commands(l.pending), ..l.rel }
        } else {
            l.rel
        };
        let (r2, out) = poll_spec(r1, now);
        Some((LinkModel { rel: r2, pending: Seq::empty(), ..l }, out))
    }
}

/// Datagrams to send and events to hand on after an upstream datagram.
pub struct UpstreamStep {
    pub send: Vec<Vec<u8>>,
    pub events: Vec<UpstreamEvent>,
}

/// The payload an event carries, if any, fits a datagram.
pub open spec fn event_fits(e: EventView) -> bool {
    match e {
        EventView::StatePayload(p) => payload_fits(p),
        EventView::AudioLevels(p) => payload_fits(p),
        EventView::TransferPayload(p) => payload_fits(p),
        _ => true,
    }
}

/// Every payload the events carry fits a datagram.
pub open spec fn events_fit(ev: Seq<EventView>) -> bool {
    forall|i: int| 0 <= i < ev.len() ==> event_fits(#[trigger] ev[i])
}

proof fn lemma_bytes_list_push(q: Seq<Vec<u8>>, v: Vec<u8>)
    ensures
        bytes_list(q.push(v)) == bytes_list(q).push(v@),
{
    assert(bytes_list(q.push(v)) =~= bytes_list(q).push(v@));
}

proof fn lemma_events_push(q: Seq<UpstreamEvent>, e: UpstreamEvent)
    ensures
        events_view(q.push(e)) == events_view(q).push(event_view(e)),
{
    assert(events_view(q.push(e)) =~= events_view(q).push(event_view(e)));
}

impl UpstreamLink {
    /// Opens a session from the switcher's reply to our HELLO; gives the session and
    /// the acknowledgement of the HELLO to send.
    pub fn open(reply: &[u8], now: u64) -> (r: Result<(UpstreamLink, Vec<u8>), UpstreamError>)
        requires
            decode_packet_spec(reply@) matches Ok((h, p)) ==> (has_flags(h.flags, PacketFlags::HANDSHAKE)
                && p.len() > 0 && p[0] == HANDSHAKE_OK_STATUS ==> h.packet_id < u16::MAX),
        ensures
            match r {
                Ok((l, ack)) => handshake_spec(reply@, now) == Ok::<(LinkModel, Seq<u8>), UpstreamError>(
                    (l@, ack@),
                ) && link_wf(l@),
                Err(e) => handshake_spec(reply@, now) == Err::<(LinkModel, Seq<u8>), UpstreamError>(e),
            },
    {
        let (hdr, payload) = match decode_packet(reply) {
            Ok(v) => v,
            Err(e) => return Err(UpstreamError::Packet(e)),
        };
        if !is_handshake_packet(hdr.flags) {
            return Err(UpstreamError::NotHandshake { flags: hdr.flags });
        }
        let status = parse_handshake_status(payload);
        let accepted = match status {
            Some(s) => s == HANDSHAKE_OK_STATUS,
            None => false,
        };
        if !accepted {
            return Err(UpstreamError::Rejected { status });
        }
        let mut rel = ReliableEndpoint::new(hdr.session_id, ReliableConfig::default(), now);
        rel.ack.highest_recv = Some(hdr.packet_id);
        rel.ack.expected_recv = next_packet_id(hdr.packet_id);
        rel.next_send_id = 1;
        let ghost r0 = rel@;
        assert(r0 == hello_endpoint(hdr, now));
        let ack = match rel.build_ack_packet(now) {
            Some(a) => a,
            None => {
                assert(false);
                Vec::new()
            },
        };
        let link = UpstreamLink {
            rel,
            init_complete: false,
            connected: false,
            reached_ready: false,
            pending: Vec::new(),
        };
        assert(bytes_list(link.pending@) =~= Seq::<Seq<u8>>::empty());
        Ok((link, ack))
    }

    /// Handles an upstream payload (non-empty, and from an accepted packet).
    fn apply_payload(&mut self, payload: &[u8], cache: &mut StateCache, filter: &mut CommandFilter) -> (r:
        UpstreamStep)
        requires
            link_wf(old(self)@),
            cache_fits(old(cache)@),
            filter_wf(old(filter)@),
            payload_fits(payload@),
        ensures
            link_wf(final(self)@),
            cache_fits(final(cache)@),
            filter_wf(final(filter)@),
            events_fit(events_view(r.events@)),
            (final(self)@, final(cache)@, final(filter)@, bytes_list(r.send@), events_view(r.events@))
                == payload_spec(old(self)@, old(cache)@, old(filter)@, payload@),
    {
        let split = split_upstream_payload(payload);
        proof {
            lemma_split_within(payload@);
        }
        let UpstreamSplit { parsed, state, audio, transfer, saw_init_complete } = split;
        let mut send: Vec<Vec<u8>> = Vec::new();
        let mut events: Vec<UpstreamEvent> = Vec::new();
        let ghost c0 = cache@;
        if state.len() > 0 {
            if parsed {
                filter.on_upstream_lock_status(state.as_slice());
            }
            proof {
                lemma_ingest_keeps_fits(c0, state@);
            }
            cache.ingest_payload(state.as_slice());
            events.push(UpstreamEvent::StatePayload(state));
        }
        if audio.len() > 0 {
            events.push(UpstreamEvent::AudioLevels(audio));
        }
        if transfer.len() > 0 {
            events.push(UpstreamEvent::TransferPayload(transfer));
        }
        let ghost shares = events@;
        proof {
            let sp = split_spec(payload@);
            assert(events_view(shares) =~= share_events(sp.1, sp.2, sp.3));
        }
        if saw_init_complete {
            self.init_complete = true;
            cache.set_ready(true);
            self.reached_ready = true;
            if !self.connected {
                self.connected = true;
                events.push(UpstreamEvent::Connected);
                self.rel.opened = true;
                let ack_id = match self.rel.ack.highest_recv {
                    Some(a) => a,
                    None => 0,
                };
                send.push(build_init_complete_ack(self.rel.session_id, ack_id));
                proof {
                    lemma_events_push(shares, UpstreamEvent::Connected);
                }
            }
        }
        proof {
            assert(bytes_list(send@) =~= payload_spec(old(self)@, c0, old(filter)@, payload@).3);
        }
        UpstreamStep { send, events }
    }

    /// Handles a datagram from the switcher at time `now`.
    pub fn on_datagram(
        &mut self,
        datagram: &[u8],
        now: u64,
        cache: &mut StateCache,
        filter: &mut CommandFilter,
    ) -> (r: UpstreamStep)
        requires
            link_wf(old(self)@),
            cache_fits(old(cache)@),
            filter_wf(old(filter)@),
        ensures
            link_wf(final(self)@),
            cache_fits(final(cache)@),
            filter_wf(final(filter)@),
            events_fit(events_view(r.events@)),
            (final(self)@, final(cache)@, final(filter)@, bytes_list(r.send@), events_view(r.events@))
                == datagram_spec(old(self)@, old(cache)@, old(filter)@, datagram@, now),
    {
        self.rel.note_recv(now);
        assert(self@.pending == old(self)@.pending);
        assert(self@.rel.outbound == old(self)@.rel.outbound);
        let empty = UpstreamStep { send: Vec::new(), events: Vec::new() };
        assert(bytes_list(empty.send@) =~= Seq::<Seq<u8>>::empty());
        assert(events_view(empty.events@) =~= Seq::<EventView>::empty());
        let (hdr, payload) = match decode_packet(datagram) {
            Ok(v) => v,
            Err(_) => return empty,
        };
        if hdr.session_id != 0 {
            self.rel.session_id = hdr.session_id;
        }
        if hdr.flags.contains(PacketFlags::ACK_REPLY) || hdr.ack_id != 0 {
            self.rel.on_ack_id(hdr.ack_id);
        }
        if is_handshake_packet(hdr.flags) {
            return empty;
        }
        let reliable = hdr.flags.contains(PacketFlags::ACK_REQUEST);
        if reliable {
            let ok = self.rel.accept_reliable(hdr.packet_id, hdr.flags.contains(PacketFlags::IS_RETRANSMIT));
            if !ok {
                let mut send: Vec<Vec<u8>> = Vec::new();
                send.push(self.rel.build_retransmit_request());
                assert(bytes_list(send@) =~= seq![send@[0]@]);
                return UpstreamStep { send, events: Vec::new() };
            }
        }
        if payload.len() == 0 {
            return empty;
        }
        self.apply_payload(payload, cache, filter)
    }

    /// Takes a client command for the switcher; commands shorter than a frame header are dropped.
    pub fn queue_command(&mut self, raw: Vec<u8>)
        requires
            link_wf(old(self)@),
            raw@.len() >= 8 ==> payload_fits(raw@),
        ensures
            link_wf(final(self)@),
            final(self)@ == (LinkModel {
                pending: if raw@.len() >= 8 {
                    old(self)@.pending.push(raw@)
                } else {
                    old(self)@.pending
                },
                ..old(self)@
            }),
    {
        if raw.len() >= 8 {
            let ghost before = self.pending@;
            self.pending.push(raw);
            proof {
                lemma_bytes_list_push(before, raw);
            }
        }
    }

    /// A clock tick: fails when the switcher has been silent too long; else queues the
    /// waiting client commands, packed, and gives the datagrams to send.
    pub fn on_tick(&mut self, now: u64) -> (r: Result<Vec<Vec<u8>>, UpstreamError>)
        requires
            link_wf(old(self)@),
        ensures
            link_wf(final(self)@),
            match r {
                Ok(out) => tick_spec(old(self)@, now) == Some((final(self)@, bytes_list(out@))),
                Err(e) => e == UpstreamError::IdleTimeout && tick_spec(old(self)@, now) is None
                    && final(self)@ == old(self)@,
            },
    {
        if self.rel.is_timed_out(now) {
            return Err(UpstreamError::IdleTimeout);
        }
        let ghost l = self@;
        if self.pending.len() > 0 {
            let mut batch: Vec<Vec<u8>> = Vec::new();
            std::mem::swap(&mut batch, &mut self.pending);
            proof {
                lemma_pack_fits(l.pending);
                lemma_queue_keeps_wf(l.rel, pack_commands(l.pending));
            }
            self.rel.queue_commands_packed(batch.as_slice());
        }
        assert(bytes_list(self.pending@) =~= Seq::<Seq<u8>>::empty());
        proof {
            lemma_poll_keeps_wf(self.rel@, now);
        }
        let out = self.rel.poll_outbound(now);
        Ok(out)
    }
}

/// The end of an upstream session: the cache and the lock table are emptied, and
/// clients are told the switcher is gone.
pub fn end_session(cache: &mut StateCache, filter: &mut CommandFilter) -> (r: UpstreamEvent)
    requires
        filter_wf(old(filter)@),
    ensures
        final(cache)@ == empty_cache(),
        filter_wf(final(filter)@),
        final(filter)@ == (FilterModel { locks: Seq::empty(), ..old(filter)@ }),
        event_view(r) == EventView::Disconnected,
{
    cache.clear();
    filter.clear_locks();
    UpstreamEvent::Disconnected
}

/// Wait between upstream sessions, in milliseconds.
pub struct ReconnectBackoff {
    pub base_ms: u64,
    pub current_ms: u64,
}

/// Longest wait between upstream sessions.
pub const MAX_BACKOFF_MS: u64 = 30000;

impl ReconnectBackoff {
    /// Starts at the configured delay, but never below 200 ms.
    pub fn new(reconnect_ms: u64) -> (r: Self)
        ensures
            r.base_ms == (if reconnect_ms < 200 { 200 } else { reconnect_ms }),
            r.current_ms == r.base_ms,
    {
        let base = if reconnect_ms < 200 { 200 } else { reconnect_ms };
        ReconnectBackoff { base_ms: base, current_ms: base }
    }

    /// The wait before the next session. A session that reached ready resets the
    /// wait to the base; one that did not doubles it afterwards, up to 30 s.
    pub fn next_delay(&mut self, reached_ready: bool) -> (d: u64)
        ensures
            d == (if reached_ready { old(self).base_ms } else { old(self).current_ms }),
            final(self).base_ms == old(self).base_ms,
            final(self).current_ms == (if reached_ready {
                old(self).base_ms
            } else if 2 * old(self).current_ms < MAX_BACKOFF_MS {
                (2 * old(self).current_ms) as u64
            } else {
                MAX_BACKOFF_MS
            }),
    {
        if reached_ready {
            self.current_ms = self.base_ms;
            self.current_ms
        } else {
            let d = self.current_ms;
            self.current_ms = if self.current_ms < MAX_BACKOFF_MS / 2 {
                self.current_ms * 2
            } else {
                MAX_BACKOFF_MS
            };
            d
        }
    }
}

/// Clients are let in only after a real `InCm`: a datagram opens the session to
/// clients only when it carries an accepted payload holding `InCm`, and then the
/// cache is ready and `Connected` is the last event. Once open, no datagram sends
/// `Connected` again.
pub proof fn lemma_connect_only_on_init_complete(l: LinkModel, c: CacheModel, f: FilterModel, d: Seq<u8>, now: u64)
    ensures
        ({
            let (l2, c2, f2, send, ev) = datagram_spec(l, c, f, d, now);
            &&& (!l.connected && l2.connected) ==> {
                &&& decode_packet_spec(d) matches Ok((h, p)) && split_spec(p).4
                &&& c2.ready
                &&& ev.len() > 0 && ev.last() == EventView::Connected
            }
            &&& l.connected ==> l2.connected && forall|i: int| 0 <= i < ev.len() ==> ev[i] != EventView::Connected
        }),
{
    let (l2, c2, f2, send, ev) = datagram_spec(l, c, f, d, now);
    if let Ok((h, p)) = decode_packet_spec(d) {
        let sp = split_spec(p);
        let shares = share_events(sp.1, sp.2, sp.3);
        assert forall|i: int| 0 <= i < shares.len() implies shares[i] != EventView::Connected by {
            let a = if sp.1.len() > 0 { seq![EventView::StatePayload(sp.1)] } else { Seq::<EventView>::empty() };
            let b = if sp.2.len() > 0 { seq![EventView::AudioLevels(sp.2)] } else { Seq::<EventView>::empty() };
            let x = if sp.3.len() > 0 { seq![EventView::TransferPayload(sp.3)] } else { Seq::<EventView>::empty() };
            assert(shares == a + b + x);
            if i < a.len() {
                assert(shares[i] == a[i]);
            } else if i < a.len() + b.len() {
                assert(shares[i] == b[i - a.len()]);
            } else {
                assert(shares[i] == x[i - a.len() - b.len()]);
            }
        }
    }
}

/// The switcher assigns the session id: after any upstream datagram that decodes and
/// whose header carries a non-zero session id, the link's endpoint uses that id (so
/// every later ACK, ping and forwarded command goes out under it); a header with
/// session id 0, or a datagram that does not decode, leaves the id as it was.
pub proof fn lemma_adopts_switcher_session_id(l: LinkModel, c: CacheModel, f: FilterModel, d: Seq<u8>, now: u64)
    ensures
        match decode_packet_spec(d) {
            Ok((h, _)) => datagram_spec(l, c, f, d, now).0.rel.session_id == if h.session_id != 0 {
                h.session_id
            } else {
                l.rel.session_id
            },
            Err(_) => datagram_spec(l, c, f, d, now).0.rel.session_id == l.rel.session_id,
        },
{
}

/// Every upstream command other than `InCm` goes to exactly one destination: every
/// client (state and lock status), the audio-level subscribers (high-rate
/// commands), or the client running a media transfer.
pub proof fn lemma_routes_partition(n: Seq<u8>)
    requires
        n != init_complete_name(),
    ensures
        state_route(n) || audio_route(n) || transfer_route(n),
        !(state_route(n) && audio_route(n)),
        !(state_route(n) && transfer_route(n)),
        !(audio_route(n) && transfer_route(n)),
{
}

/// The high-rate commands (`AMLv`, `AMmO`, `FASP`, `FMLv`, `FAtl`, `FAsp`, `Time`,
/// `TimC`, `TCCc`) go to audio-level subscribers only, and the lock status
/// notifications (`LKST`, `LKOB`) go to every client.
pub proof fn lemma_high_rate_and_lock_status_routes(n: Seq<u8>)
    ensures
        ({
            ||| name_bytes_are(n, 0x41, 0x4d, 0x4c, 0x76) || name_bytes_are(n, 0x41, 0x4d, 0x6d, 0x4f)
            ||| name_bytes_are(n, 0x46, 0x41, 0x53, 0x50) || name_bytes_are(n, 0x46, 0x4d, 0x4c, 0x76)
            ||| name_bytes_are(n, 0x46, 0x41, 0x74, 0x6c) || name_bytes_are(n, 0x46, 0x41, 0x73, 0x70)
            ||| name_bytes_are(n, 0x54, 0x69, 0x6d, 0x65) || name_bytes_are(n, 0x54, 0x69, 0x6d, 0x43)
            ||| name_bytes_are(n, 0x54, 0x43, 0x43, 0x63)
        }) ==> audio_route(n) && !state_route(n) && !transfer_route(n),
        (name_bytes_are(n, 0x4c, 0x4b, 0x53, 0x54) || name_bytes_are(n, 0x4c, 0x4b, 0x4f, 0x42))
            ==> state_route(n) && !audio_route(n) && !transfer_route(n),
{
    lemma_name_bytes_are(n, 0x49, 0x6e, 0x43, 0x6d);
    if name_bytes_are(n, 0x41, 0x4d, 0x4c, 0x76) {
        lemma_ascii_text(n, seq!['A', 'M', 'L', 'v']);
    } else if name_bytes_are(n, 0x41, 0x4d, 0x6d, 0x4f) {
        lemma_ascii_text(n, seq!['A', 'M', 'm', 'O']);
    } else if name_bytes_are(n, 0x46, 0x41, 0x53, 0x50) {
        lemma_ascii_text(n, seq!['F', 'A', 'S', 'P']);
    } else if name_bytes_are(n, 0x46, 0x4d, 0x4c, 0x76) {
        lemma_ascii_text(n, seq!['F', 'M', 'L', 'v']);
    } else if name_bytes_are(n, 0x46, 0x41, 0x74, 0x6c) {
        lemma_ascii_text(n, seq!['F', 'A', 't', 'l']);
    } else if name_bytes_are(n, 0x46, 0x41, 0x73, 0x70) {
        lemma_ascii_text(n, seq!['F', 'A', 's', 'p']);
    } else if name_bytes_are(n, 0x54, 0x69, 0x6d, 0x65) {
        lemma_ascii_text(n, seq!['T', 'i', 'm', 'e']);
    } else if name_bytes_are(n, 0x54, 0x69, 0x6d, 0x43) {
        lemma_ascii_text(n, seq!['T', 'i', 'm', 'C']);
    } else if name_bytes_are(n, 0x54, 0x43, 0x43, 0x63) {
        lemma_ascii_text(n, seq!['T', 'C', 'C', 'c']);
    } else if name_bytes_are(n, 0x4c, 0x4b, 0x53, 0x54) {
        lemma_ascii_text(n, seq!['L', 'K', 'S', 'T']);
    } else if name_bytes_are(n, 0x4c, 0x4b, 0x4f, 0x42) {
        lemma_ascii_text(n, seq!['L', 'K', 'O', 'B']);
    }
    lemma_name_bytes_are(n, 0x41, 0x4d, 0x4c, 0x76);
    lemma_name_bytes_are(n, 0x41, 0x4d, 0x6d, 0x4f);
    lemma_name_bytes_are(n, 0x46, 0x41, 0x53, 0x50);
    lemma_name_bytes_are(n, 0x46, 0x4d, 0x4c, 0x76);
    lemma_name_bytes_are(n, 0x46, 0x41, 0x74, 0x6c);
    lemma_name_bytes_are(n, 0x46, 0x41, 0x73, 0x70);
    lemma_name_bytes_are(n, 0x54, 0x69, 0x6d, 0x65);
    lemma_name_bytes_are(n, 0x54, 0x69, 0x6d, 0x43);
    lemma_name_bytes_are(n, 0x54, 0x43, 0x43, 0x63);
    lemma_name_bytes_are(n, 0x4c, 0x4b, 0x53, 0x54);
    lemma_name_bytes_are(n, 0x4c, 0x4b, 0x4f, 0x42);
}

/// Opening a session acknowledges the switcher's HELLO: an accepted reply (it decodes,
/// has the handshake flag and status 2) gives a 12-byte ACK whose ack id is the
/// reply's packet id under the reply's session id, and the session then expects the
/// packet after it and uses that session id.
pub proof fn lemma_open_acks_hello(reply: Seq<u8>, now: u64)
    ensures
        match decode_packet_spec(reply) {
            Ok((h, p)) => {
                &&& handshake_spec(reply, now) is Ok <==> (has_flags(h.flags, PacketFlags::HANDSHAKE) && p.len()
                    > 0 && p[0] == HANDSHAKE_OK_STATUS)
                &&& handshake_spec(reply, now) matches Ok((l, ack)) ==> {
                    &&& ack.len() == 12
                    &&& header_from_bytes(ack).flags == PacketFlags::ACK_REPLY
                    &&& header_from_bytes(ack).ack_id == h.packet_id
                    &&& header_from_bytes(ack).session_id == h.session_id
                    &&& l.rel.session_id == h.session_id
                    &&& l.rel.ack.expected_recv == (h.packet_id + 1) % 32768
                }
            },
            Err(_) => handshake_spec(reply, now) is Err,
        },
{
    if let Ok((h, p)) = decode_packet_spec(reply) {
        if let Ok((l, ack)) = handshake_spec(reply, now) {
            let r = hello_endpoint(h, now);
            let hd = with_length(crate::reliable::ack_packet_header(r), 0);
            lemma_header_roundtrip(hd);
            assert(ack =~= header_bytes(hd));
        }
    }
}

/// A reliable upstream packet that arrives out of order is not taken in: the switcher
/// is asked to retransmit from the packet id expected next (a 12-byte retransmit
/// request), and the cache, the filter and the expected id stay as they were.
pub proof fn lemma_upstream_out_of_order_asks_retransmit(
    l: LinkModel,
    c: CacheModel,
    f: FilterModel,
    d: Seq<u8>,
    now: u64,
)
    ensures
        decode_packet_spec(d) matches Ok((h, p)) ==> (has_flags(h.flags, PacketFlags::ACK_REQUEST)
            && !has_flags(h.flags, PacketFlags::HANDSHAKE) && h.packet_id != l.rel.ack.expected_recv ==> {
            let (l2, c2, f2, send, ev) = datagram_spec(l, c, f, d, now);
            &&& c2 == c
            &&& f2 == f
            &&& ev.len() == 0
            &&& l2.rel.ack == l.rel.ack
            &&& send.len() == 1
            &&& send[0].len() == 12
            &&& header_from_bytes(send[0]).flags == PacketFlags::RETRANSMIT_REQUEST
            &&& header_from_bytes(send[0]).retransmit_request == l.rel.ack.expected_recv
        }),
{
    if let Ok((h, p)) = decode_packet_spec(d) {
        let l0 = LinkModel { rel: EndpointModel { last_recv_at: now, ..l.rel }, ..l };
        let r = take_header(l0.rel, h);
        let hd = with_length(retransmit_request_header(r), 0);
        lemma_header_roundtrip(hd);
        assert(packet_bytes(retransmit_request_header(r), Seq::empty()) =~= header_bytes(hd));
    }
}

} // verus!
