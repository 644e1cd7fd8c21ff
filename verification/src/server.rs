//! The client side of the proxy: one reliable session per native client, the
//! handshake (only once the upstream is ready), the late-join dump when a client
//! first acknowledges, fan-out of upstream traffic, idle expiry and media pacing.
//!
//! Socket I/O stays with the caller: it hands each datagram, upstream event and
//! clock tick in and sends what comes back.

use vstd::prelude::*;
use crate::addr::ClientAddr;
use crate::cache::{cache_fits, cache_wf, dump_spec, lemma_dump_fits, lemma_dump_parses, CacheModel, StateCache};
use crate::command::{
    audio_subscribe_name, concat_frames, frame_body, frame_name, init_complete_name, is_frame,
    lemma_split_frame_then, lock_request_name, split_frames, transfer_name,
};
use crate::error::ProtocolError;
use crate::filter::{
    actions_view, audio_enable_of, disconnect_spec, filter_frame, filter_frames, filter_spec, filter_wf,
    lemma_audio_subscribe_then_disconnect, ActionView, CommandFilter, FilterAction, FilterModel,
};
use crate::packet::{
    decode_packet, decode_packet_spec, has_flags, header_bytes, header_from_bytes, lemma_header_roundtrip,
    packet_bytes, with_length, FlagBits, PacketFlags,
};
use crate::reliable::{
    accept_next, acked_count, bytes_list, flatten, lemma_pack_commands, default_reliable_config, elapsed, endpoint_wf,
    fresh_ack_state, lemma_pack_fits, lemma_poll_keeps_wf, lemma_queue_keeps_wf, pack_commands,
    payload_fits, poll_spec, retransmit_request_header, AckState, EndpointModel, ReliableConfig,
    ReliableEndpoint,
};
use crate::session::{
    build_server_handshake_reply, is_handshake_packet, server_hello_header, server_hello_payload,
    server_session_id, session_id_for,
};
use crate::locks::owns_any;
use crate::transfer::{fanout_spec, TransferModel};
use crate::upstream::{event_fits, event_view, EventView, UpstreamEvent};

verus! {

/// Reliable state of one client.
pub struct ClientSession {
    pub rel: ReliableEndpoint,
    /// The late-join dump has been queued.
    pub dump_sent: bool,
    /// The client has acknowledged our HELLO and receives upstream traffic.
    pub opened: bool,
    /// The client subscribed to audio levels.
    pub audio: bool,
}

pub ghost struct SessionModel {
    pub rel: EndpointModel,
    pub dump_sent: bool,
    pub opened: bool,
    pub audio: bool,
}

impl View for ClientSession {
    type V = SessionModel;

    open spec fn view(&self) -> SessionModel {
        SessionModel { rel: self.rel@, dump_sent: self.dump_sent, opened: self.opened, audio: self.audio }
    }
}

/// The sessions of all clients, each address once (a vector keyed by address), and
/// the next session index.
pub struct ClientTable {
    sessions: Vec<(ClientAddr, ClientSession)>,
    next_sid: u16,
}

pub ghost struct TableModel {
    pub sessions: Seq<(ClientAddr, SessionModel)>,
    pub next_sid: u16,
}

pub open spec fn sessions_view(v: Seq<(ClientAddr, ClientSession)>) -> Seq<(ClientAddr, SessionModel)> {
    v.map_values(|e: (ClientAddr, ClientSession)| (e.0, e.1@))
}

impl View for ClientTable {
    type V = TableModel;

    closed spec fn view(&self) -> TableModel {
        TableModel { sessions: sessions_view(self.sessions@), next_sid: self.next_sid }
    }
}

/// Each address has at most one session, and every session's endpoint is well formed.
pub open spec fn sessions_wf(s: Seq<(ClientAddr, SessionModel)>) -> bool {
    &&& forall|i: int, j: int|
        0 <= i < s.len() && 0 <= j < s.len() && i != j ==> #[trigger] s[i].0 != #[trigger] s[j].0
    &&& forall|i: int| 0 <= i < s.len() ==> endpoint_wf(#[trigger] s[i].1.rel)
}

pub open spec fn table_wf(t: TableModel) -> bool {
    sessions_wf(t.sessions)
}

pub open spec fn has_session(s: Seq<(ClientAddr, SessionModel)>, a: ClientAddr) -> bool {
    exists|i: int| 0 <= i < s.len() && s[i].0 == a
}

/// The position of `a`'s session.
pub open spec fn session_index(s: Seq<(ClientAddr, SessionModel)>, a: ClientAddr) -> int {
    choose|i: int| 0 <= i < s.len() && s[i].0 == a
}

/// `s` with `a`'s session set to `m`: replaced in place, or added at the end.
pub open spec fn table_put(s: Seq<(ClientAddr, SessionModel)>, a: ClientAddr, m: SessionModel) -> Seq<
    (ClientAddr, SessionModel),
> {
    if has_session(s, a) {
        s.update(session_index(s, a), (a, m))
    } else {
        s.push((a, m))
    }
}

/// Reliable settings of a client session: the defaults with a five-second idle timeout.
pub open spec fn client_config() -> ReliableConfig {
    ReliableConfig { idle_timeout: 5000, ..default_reliable_config() }
}

/// A fresh client session with id `sid`. Clients count the HELLO as packet 0, so
/// both directions start at id 1: our first packet, and the first one we expect.
pub open spec fn new_session(sid: u16, now: u64) -> SessionModel {
    SessionModel {
        rel: EndpointModel {
            session_id: sid,
            next_send_id: 1,
            config: client_config(),
            in_flight: Seq::empty(),
            outbound: Seq::empty(),
            ack: AckState { expected_recv: 1, ..fresh_ack_state() },
            last_recv_at: now,
            last_ping_at: now,
            opened: false,
        },
        dump_sent: false,
        opened: false,
        audio: false,
    }
}

/// The HELLO reply that gives a client session id `sid`.
pub open spec fn hello_reply(sid: u16) -> Seq<u8> {
    packet_bytes(server_hello_header(sid), server_hello_payload())
}

/// The commands a client's actions send upstream, in order.
pub open spec fn forwards_of(acts: Seq<ActionView>) -> Seq<Seq<u8>>
    decreases acts.len(),
{
    if acts.len() == 0 {
        Seq::empty()
    } else {
        let prev = forwards_of(acts.drop_last());
        match acts.last() {
            ActionView::Forward(b) => prev.push(b),
            ActionView::AudioSubscribe { forward: Some(b), .. } => prev.push(b),
            _ => prev,
        }
    }
}

/// A client's audio subscription after its actions: the last subscription action
/// decides, else it stays `prev`.
pub open spec fn audio_after(prev: bool, acts: Seq<ActionView>) -> bool
    decreases acts.len(),
{
    if acts.len() == 0 {
        prev
    } else {
        match acts.last() {
            ActionView::AudioSubscribe { enable, .. } => enable,
            _ => audio_after(prev, acts.drop_last()),
        }
    }
}

/// Effect of a non-handshake packet with header `h` and payload `p` on `from`'s session
/// `s`: the session, the filter, a reply to the client, and commands for the switcher.
/// The first acknowledgement opens the session and queues the late-join dump.
pub open spec fn session_packet_spec(
    s: SessionModel,
    c: CacheModel,
    f: FilterModel,
    h: crate::packet::PacketHeader,
    p: Seq<u8>,
    from: ClientAddr,
    now: u64,
) -> (SessionModel, FilterModel, Option<Seq<u8>>, Seq<Seq<u8>>) {
    let r0 = EndpointModel { last_recv_at: now, ..s.rel };
    let acking = has_flags(h.flags, PacketFlags::ACK_REPLY) || h.ack_id != 0;
    let r1 = if acking {
        EndpointModel { in_flight: r0.in_flight.skip(acked_count(r0.in_flight, h.ack_id)), ..r0 }
    } else {
        r0
    };
    let s1 = if acking && !s.opened {
        let ro = EndpointModel { opened: true, ..r1 };
        if !s.dump_sent {
            SessionModel {
                opened: true,
                dump_sent: true,
                rel: EndpointModel { outbound: ro.outbound + pack_commands(dump_spec(c)), ..ro },
                ..s
            }
        } else {
            SessionModel { opened: true, rel: ro, ..s }
        }
    } else {
        SessionModel { rel: r1, ..s }
    };
    if has_flags(h.flags, PacketFlags::ACK_REQUEST) {
        let ok = h.packet_id == s1.rel.ack.expected_recv;
        let s2 = if ok {
            SessionModel { rel: accept_next(s1.rel, h.packet_id), ..s1 }
        } else {
            s1
        };
        if !ok && p.len() > 0 {
            (s2, f, Some(packet_bytes(retransmit_request_header(s2.rel), Seq::empty())), Seq::empty())
        } else if p.len() > 0 {
            let (f2, acts) = filter_spec(f, from, p);
            (SessionModel { audio: audio_after(s2.audio, acts), ..s2 }, f2, None, forwards_of(acts))
        } else {
            (s2, f, None, Seq::empty())
        }
    } else {
        (s1, f, None, Seq::empty())
    }
}

/// Effect of a client datagram: the table, the filter, a reply to the client and
/// commands for the switcher, or the packet error. A HELLO is answered only while
/// the upstream is connected and the cache is ready; packets from unknown clients
/// are ignored.
pub open spec fn client_datagram_spec(
    t: TableModel,
    c: CacheModel,
    f: FilterModel,
    d: Seq<u8>,
    from: ClientAddr,
    now: u64,
    upstream_connected: bool,
) -> Result<(TableModel, FilterModel, Option<Seq<u8>>, Seq<Seq<u8>>), ProtocolError> {
    match decode_packet_spec(d) {
        Err(e) => Err(e),
        Ok((h, p)) => Ok(
            if has_flags(h.flags, PacketFlags::HANDSHAKE) {
                if !upstream_connected || !c.ready {
                    (t, f, None, Seq::empty())
                } else {
                    let sid = session_id_for(t.next_sid);
                    (
                        TableModel {
                            sessions: table_put(t.sessions, from, new_session(sid, now)),
                            next_sid: ((t.next_sid + 1) % 65536) as u16,
                        },
                        f,
                        Some(hello_reply(sid)),
                        Seq::empty(),
                    )
                }
            } else if !has_session(t.sessions, from) {
                (t, f, None, Seq::empty())
            } else {
                let i = session_index(t.sessions, from);
                let (s2, f2, reply, fwd) = session_packet_spec(t.sessions[i].1, c, f, h, p, from, now);
                (TableModel { sessions: t.sessions.update(i, (from, s2)), ..t }, f2, reply, fwd)
            },
        ),
    }
}

/// `m` with `p` queued for sending.
pub open spec fn queue_on(m: SessionModel, p: Seq<u8>) -> SessionModel {
    SessionModel { rel: EndpointModel { outbound: m.rel.outbound.push(p), ..m.rel }, ..m }
}

/// Whether a session gets an upstream share: it is open, and for audio levels subscribed.
pub open spec fn gets_share(m: SessionModel, audio_only: bool) -> bool {
    m.opened && (!audio_only || m.audio)
}

/// `p` queued on every session that gets the share.
pub open spec fn fan_out(s: Seq<(ClientAddr, SessionModel)>, p: Seq<u8>, audio_only: bool) -> Seq<
    (ClientAddr, SessionModel),
> {
    s.map_values(
        |e: (ClientAddr, SessionModel)|
            if gets_share(e.1, audio_only) {
                (e.0, queue_on(e.1, p))
            } else {
                e
            },
    )
}

/// Effect of an upstream event on the client side: state goes to every open client,
/// audio levels to open subscribers, media transfer traffic to the transfer owner's
/// open session only, and a lost upstream drops every client and the transfer.
pub open spec fn deliver_spec(t: TableModel, f: FilterModel, ev: EventView) -> (TableModel, FilterModel) {
    match ev {
        EventView::Connected => (t, f),
        EventView::Disconnected => (
            TableModel { sessions: Seq::empty(), ..t },
            FilterModel { transfer: TransferModel { active: None, ..f.transfer }, ..f },
        ),
        EventView::StatePayload(p) => (TableModel { sessions: fan_out(t.sessions, p, false), ..t }, f),
        EventView::AudioLevels(p) => (TableModel { sessions: fan_out(t.sessions, p, true), ..t }, f),
        EventView::TransferPayload(p) => match fanout_spec(f.transfer, f.locks) {
            Some(o) => if has_session(t.sessions, o) && t.sessions[session_index(t.sessions, o)].1.opened {
                let i = session_index(t.sessions, o);
                (TableModel { sessions: t.sessions.update(i, (o, queue_on(t.sessions[i].1, p))), ..t }, f)
            } else {
                (t, f)
            },
            None => (t, f),
        },
    }
}

/// Every open session gets the late-join dump again (after the client side fell behind).
pub open spec fn resync_spec(s: Seq<(ClientAddr, SessionModel)>, c: CacheModel) -> Seq<(ClientAddr, SessionModel)> {
    s.map_values(
        |e: (ClientAddr, SessionModel)|
            if e.1.opened {
                (
                    e.0,
                    SessionModel {
                        rel: EndpointModel {
                            outbound: e.1.rel.outbound + pack_commands(dump_spec(c)),
                            ..e.1.rel
                        },
                        ..e.1
                    },
                )
            } else {
                e
            },
    )
}

/// Idle limit for clients: the configured one, but never below 500 ms.
pub open spec fn idle_limit(client_idle_ms: u64) -> u64 {
    if client_idle_ms < 500 {
        500
    } else {
        client_idle_ms
    }
}

/// A tick over sessions: those silent for longer than `idle` are dropped (their
/// addresses listed in order), the others are polled; the datagrams, tagged with
/// their client, come in session order.
pub open spec fn tick_sessions(s: Seq<(ClientAddr, SessionModel)>, now: u64, idle: u64) -> (
    Seq<(ClientAddr, SessionModel)>,
    Seq<(ClientAddr, Seq<u8>)>,
    Seq<ClientAddr>,
)
    decreases s.len(),
{
    if s.len() == 0 {
        (Seq::empty(), Seq::empty(), Seq::empty())
    } else {
        let prev = tick_sessions(s.drop_last(), now, idle);
        let (a, m) = s.last();
        if elapsed(now, m.rel.last_recv_at) > idle {
            (prev.0, prev.1, prev.2.push(a))
        } else {
            let (r2, out) = poll_spec(m.rel, now);
            (
                prev.0.push((a, SessionModel { rel: r2, ..m })),
                prev.1 + out.map_values(|p: Seq<u8>| (a, p)),
                prev.2,
            )
        }
    }
}

/// The filter after clients `dead` went away, in order, and the commands their
/// departures send upstream.
pub open spec fn disconnect_all(f: FilterModel, dead: Seq<ClientAddr>) -> (FilterModel, Seq<Seq<u8>>)
    decreases dead.len(),
{
    if dead.len() == 0 {
        (f, Seq::empty())
    } else {
        let prev = disconnect_all(f, dead.drop_last());
        let d = disconnect_spec(prev.0, dead.last());
        (d.0, prev.1 + d.1)
    }
}

/// Media pacing: a datagram with a payload for the transfer owner waits the chunk
/// delay first, when one is set.
pub open spec fn paced(chunk_delay_ms: u64, owner: Option<ClientAddr>, to: ClientAddr, len: int) -> bool {
    chunk_delay_ms > 0 && owner == Some(to) && len > 12
}

/// The transfer owner after `f`.
pub open spec fn owner_of(f: FilterModel) -> Option<ClientAddr> {
    match f.transfer.active {
        Some(a) => Some(a.owner),
        None => None,
    }
}

/// A datagram for a client.
pub struct OutPacket {
    pub to: ClientAddr,
    pub bytes: Vec<u8>,
    /// Wait the media chunk delay before sending.
    pub pace: bool,
}

pub open spec fn out_view(o: OutPacket) -> (ClientAddr, Seq<u8>, bool) {
    (o.to, o.bytes@, o.pace)
}

/// What a tick gives back: datagrams for clients, the clients that timed out, and
/// the commands their departures send upstream.
pub struct TickOutput {
    pub packets: Vec<OutPacket>,
    pub dead: Vec<ClientAddr>,
    pub upstream: Vec<Vec<u8>>,
}

/// The tagged datagrams of a tick, each marked for pacing.
pub open spec fn paced_packets(pk: Seq<(ClientAddr, Seq<u8>)>, delay: u64, owner: Option<ClientAddr>) -> Seq<
    (ClientAddr, Seq<u8>, bool),
> {
    pk.map_values(|x: (ClientAddr, Seq<u8>)| (x.0, x.1, paced(delay, owner, x.0, x.1.len() as int)))
}

/// What a client datagram gives back: a reply for the client and commands for the switcher.
pub struct ClientStep {
    pub reply: Option<Vec<u8>>,
    pub forward: Vec<Vec<u8>>,
}

pub open spec fn opt_view(o: Option<Vec<u8>>) -> Option<Seq<u8>> {
    match o {
        Some(v) => Some(v@),
        None => None,
    }
}

/// Commands for the switcher and the audio subscription after a client's actions.
fn collect_actions(actions: Vec<FilterAction>, audio: bool) -> (r: (Vec<Vec<u8>>, bool))
    ensures
        bytes_list(r.0@) == forwards_of(actions_view(actions@)),
        r.1 == audio_after(audio, actions_view(actions@)),
{
    let ghost acts = actions_view(actions@);
    let mut forward: Vec<Vec<u8>> = Vec::new();
    let mut audio_now = audio;
    let mut i: usize = 0;
    let n = actions.len();
    assert(acts.take(0) =~= Seq::<ActionView>::empty());
    assert(bytes_list(forward@) =~= Seq::<Seq<u8>>::empty());
    while i < n
        invariant
            n == actions@.len(),
            acts == actions_view(actions@),
            i <= n,
            bytes_list(forward@) == forwards_of(acts.take(i as int)),
            audio_now == audio_after(audio, acts.take(i as int)),
        decreases n - i,
    {
        let ghost t = acts.take(i + 1);
        proof {
            assert(t.drop_last() =~= acts.take(i as int));
            assert(t.last() == acts[i as int]);
        }
        let ghost before = forward@;
        match &actions[i] {
            FilterAction::Forward(raw) => {
                forward.push(raw.clone());
                proof {
                    assert(bytes_list(forward@) =~= bytes_list(before).push(raw@));
                }
            },
            FilterAction::Dropped { .. } => {},
            FilterAction::AudioSubscribe { enable, forward: fwd } => {
                audio_now = *enable;
                match fwd {
                    Some(raw) => {
                        forward.push(raw.clone());
                        proof {
                            assert(bytes_list(forward@) =~= bytes_list(before).push(raw@));
                        }
                    },
                    None => {},
                }
            },
        }
        i = i + 1;
    }
    assert(acts.take(n as int) =~= acts);
    (forward, audio_now)
}

/// Handles a non-handshake packet on `from`'s session.
fn session_packet(
    sess: &mut ClientSession,
    hdr: &crate::packet::PacketHeader,
    payload: &[u8],
    now: u64,
    cache: &StateCache,
    filter: &mut CommandFilter,
    from: ClientAddr,
) -> (r: (Option<Vec<u8>>, Vec<Vec<u8>>))
    requires
        endpoint_wf(old(sess)@.rel),
        cache_fits(cache@),
        filter_wf(old(filter)@),
    ensures
        endpoint_wf(final(sess)@.rel),
        filter_wf(final(filter)@),
        (final(sess)@, final(filter)@, opt_view(r.0), bytes_list(r.1@)) == session_packet_spec(
            old(sess)@,
            cache@,
            old(filter)@,
            *hdr,
            payload@,
            from,
            now,
        ),
{
    let ghost s0 = sess@;
    sess.rel.note_recv(now);
    if hdr.flags.contains(PacketFlags::ACK_REPLY) || hdr.ack_id != 0 {
        sess.rel.on_ack_id(hdr.ack_id);
        if !sess.opened {
            sess.opened = true;
            sess.rel.opened = true;
            if !sess.dump_sent {
                let dump = cache.dump();
                proof {
                    lemma_dump_fits(cache@);
                    lemma_pack_fits(dump_spec(cache@));
                    lemma_queue_keeps_wf(sess.rel@, pack_commands(dump_spec(cache@)));
                }
                sess.rel.queue_commands_packed(dump.as_slice());
                sess.dump_sent = true;
            }
        }
    }
    let mut forward: Vec<Vec<u8>> = Vec::new();
    assert(bytes_list(forward@) =~= Seq::<Seq<u8>>::empty());
    if hdr.flags.contains(PacketFlags::ACK_REQUEST) {
        let ok = sess.rel.accept_reliable(hdr.packet_id, hdr.flags.contains(PacketFlags::IS_RETRANSMIT));
        if !ok && payload.len() > 0 {
            return (Some(sess.rel.build_retransmit_request()), forward);
        } else if payload.len() > 0 {
            let actions = filter.process_payload(from, payload);
            let (fwd, audio) = collect_actions(actions, sess.audio);
            sess.audio = audio;
            return (None, fwd);
        }
    }
    (None, forward)
}

pub open spec fn tagged_view(v: Seq<(ClientAddr, Vec<u8>)>) -> Seq<(ClientAddr, Seq<u8>)> {
    v.map_values(|x: (ClientAddr, Vec<u8>)| (x.0, x.1@))
}

/// A tick keeps sessions well formed; every kept session was there before.
proof fn lemma_tick_wf(s: Seq<(ClientAddr, SessionModel)>, now: u64, idle: u64)
    requires
        sessions_wf(s),
    ensures
        sessions_wf(tick_sessions(s, now, idle).0),
        forall|i: int|
            0 <= i < tick_sessions(s, now, idle).0.len() ==> has_session(s, #[trigger] tick_sessions(s, now, idle).0[i].0),
    decreases s.len(),
{
    if s.len() > 0 {
        let init = s.drop_last();
        assert forall|i: int, j: int|
            0 <= i < init.len() && 0 <= j < init.len() && i != j implies #[trigger] init[i].0 != #[trigger] init[j].0 by {
            assert(init[i] == s[i] && init[j] == s[j]);
        }
        assert forall|i: int| 0 <= i < init.len() implies endpoint_wf(#[trigger] init[i].1.rel) by {
            assert(init[i] == s[i]);
        }
        lemma_tick_wf(init, now, idle);
        let prev = tick_sessions(init, now, idle);
        let (a, m) = s.last();
        let kept = tick_sessions(s, now, idle).0;
        assert forall|i: int| 0 <= i < prev.0.len() implies has_session(s, #[trigger] prev.0[i].0) by {
            assert(has_session(init, prev.0[i].0));
            let j = choose|j: int| 0 <= j < init.len() && init[j].0 == prev.0[i].0;
            assert(s[j] == init[j]);
        }
        if !(elapsed(now, m.rel.last_recv_at) > idle) {
            lemma_poll_keeps_wf(m.rel, now);
            assert(endpoint_wf(s[s.len() - 1].1.rel));
            assert forall|i: int| 0 <= i < prev.0.len() implies #[trigger] prev.0[i].0 != a by {
                assert(has_session(init, prev.0[i].0));
                let j = choose|j: int| 0 <= j < init.len() && init[j].0 == prev.0[i].0;
                assert(s[j] == init[j]);
                assert(s[j].0 != s[s.len() - 1].0);
            }
            assert forall|i: int, j: int|
                0 <= i < kept.len() && 0 <= j < kept.len() && i != j implies #[trigger] kept[i].0 != #[trigger] kept[j].0 by {
                if i < prev.0.len() && j < prev.0.len() {
                    assert(kept[i] == prev.0[i] && kept[j] == prev.0[j]);
                } else if i < prev.0.len() {
                    assert(kept[i] == prev.0[i]);
                } else {
                    assert(kept[j] == prev.0[j]);
                }
            }
            assert forall|i: int| 0 <= i < kept.len() implies endpoint_wf(#[trigger] kept[i].1.rel) by {
                if i < prev.0.len() {
                    assert(kept[i] == prev.0[i]);
                }
            }
            assert forall|i: int| 0 <= i < kept.len() implies has_session(s, #[trigger] kept[i].0) by {
                if i < prev.0.len() {
                    assert(kept[i] == prev.0[i]);
                } else {
                    assert(s[s.len() - 1].0 == a);
                }
            }
        }
    }
}

/// Appends `out`, each tagged with `a`, to `tagged`.
fn tag_all(tagged: &mut Vec<(ClientAddr, Vec<u8>)>, a: ClientAddr, out: Vec<Vec<u8>>)
    ensures
        tagged_view(final(tagged)@) == tagged_view(old(tagged)@) + bytes_list(out@).map_values(
            |p: Seq<u8>| (a, p),
        ),
{
    let mut j: usize = 0;
    let ghost t0 = tagged_view(tagged@);
    let ghost o = bytes_list(out@).map_values(|p: Seq<u8>| (a, p));
    assert(o.take(0) =~= Seq::<(ClientAddr, Seq<u8>)>::empty());
    assert(t0 + o.take(0) =~= t0);
    while j < out.len()
        invariant
            j <= out@.len(),
            o == bytes_list(out@).map_values(|p: Seq<u8>| (a, p)),
            tagged_view(tagged@) == t0 + o.take(j as int),
        decreases out@.len() - j,
    {
        let ghost before = tagged@;
        tagged.push((a, out[j].clone()));
        proof {
            assert(tagged_view(tagged@) =~= tagged_view(before).push((a, out@[j as int]@)));
            assert(o.take(j + 1) =~= o.take(j as int).push(o[j as int]));
            assert(t0 + o.take(j + 1) =~= (t0 + o.take(j as int)).push(o[j as int]));
        }
        j = j + 1;
    }
    assert(o.take(out@.len() as int) =~= o);
}

impl ClientTable {
    pub fn new() -> (r: Self)
        ensures
            r@ == (TableModel { sessions: Seq::empty(), next_sid: 1 }),
            table_wf(r@),
    {
        let r = ClientTable { sessions: Vec::new(), next_sid: 1 };
        assert(sessions_view(r.sessions@) =~= Seq::<(ClientAddr, SessionModel)>::empty());
        r
    }

    pub fn len(&self) -> (r: usize)
        ensures
            r == self@.sessions.len(),
    {
        self.sessions.len()
    }

    /// The position of `a`'s session, if it has one.
    pub fn find(&self, a: ClientAddr) -> (r: Option<usize>)
        requires
            table_wf(self@),
        ensures
            r is Some <==> has_session(self@.sessions, a),
            r matches Some(i) ==> i == session_index(self@.sessions, a) && i < self@.sessions.len(),
    {
        let ghost s = self@.sessions;
        let mut i: usize = 0;
        while i < self.sessions.len()
            invariant
                s == sessions_view(self.sessions@),
                table_wf(self@),
                s == self@.sessions,
                i <= s.len(),
                forall|j: int| 0 <= j < i ==> s[j].0 != a,
            decreases s.len() - i,
        {
            if self.sessions[i].0 == a {
                proof {
                    assert(s[i as int].0 == a);
                    let k = session_index(s, a);
                    assert(s[k].0 == a);
                    assert(s[k].0 == s[i as int].0);
                }
                return Some(i);
            }
            i = i + 1;
        }
        None
    }

    /// Handles a datagram from client `from` at time `now`; `upstream_connected` tells
    /// whether the switcher session is up.
    pub fn on_datagram(
        &mut self,
        data: &[u8],
        from: ClientAddr,
        now: u64,
        upstream_connected: bool,
        cache: &StateCache,
        filter: &mut CommandFilter,
    ) -> (r: Result<ClientStep, ProtocolError>)
        requires
            table_wf(old(self)@),
            cache_fits(cache@),
            filter_wf(old(filter)@),
        ensures
            table_wf(final(self)@),
            filter_wf(final(filter)@),
            match r {
                Ok(step) => client_datagram_spec(old(self)@, cache@, old(filter)@, data@, from, now, upstream_connected)
                    == Ok::<(TableModel, FilterModel, Option<Seq<u8>>, Seq<Seq<u8>>), ProtocolError>(
                    (final(self)@, final(filter)@, opt_view(step.reply), bytes_list(step.forward@)),
                ),
                Err(e) => client_datagram_spec(old(self)@, cache@, old(filter)@, data@, from, now, upstream_connected)
                    == Err::<(TableModel, FilterModel, Option<Seq<u8>>, Seq<Seq<u8>>), ProtocolError>(e)
                    && final(self)@ == old(self)@ && final(filter)@ == old(filter)@,
            },
    {
        let (hdr, payload) = match decode_packet(data) {
            Ok(v) => v,
            Err(e) => return Err(e),
        };
        let none: Vec<Vec<u8>> = Vec::new();
        assert(bytes_list(none@) =~= Seq::<Seq<u8>>::empty());
        if is_handshake_packet(hdr.flags) {
            if !upstream_connected || !cache.is_ready() {
                return Ok(ClientStep { reply: None, forward: none });
            }
            let sid_index = self.next_sid;
            self.next_sid = self.next_sid.wrapping_add(1);
            let session_id = server_session_id(sid_index);
            let reply = build_server_handshake_reply(session_id);
            let cfg = ReliableConfig { idle_timeout: 5000, ..ReliableConfig::default() };
            let mut rel = ReliableEndpoint::new(session_id, cfg, now);
            rel.next_send_id = 1;
            rel.ack.expected_recv = 1;
            rel.note_recv(now);
            let sess = ClientSession { rel, dump_sent: false, opened: false, audio: false };
            self.put(from, sess);
            return Ok(ClientStep { reply: Some(reply), forward: none });
        }
        let i = match self.find(from) {
            Some(i) => i,
            None => return Ok(ClientStep { reply: None, forward: none }),
        };
        let ghost t0 = self@;
        let (reply, forward) = {
            let entry = &mut self.sessions[i];
            session_packet(&mut entry.1, &hdr, payload, now, cache, filter, from)
        };
        proof {
            assert(sessions_view(self.sessions@) =~= t0.sessions.update(i as int, (from, self.sessions@[i as int].1@)));
        }
        Ok(ClientStep { reply, forward })
    }

    /// Sets `a`'s session to `sess`, replacing an earlier one in place.
    fn put(&mut self, a: ClientAddr, sess: ClientSession)
        requires
            table_wf(old(self)@),
            endpoint_wf(sess@.rel),
        ensures
            table_wf(final(self)@),
            final(self)@ == (TableModel { sessions: table_put(old(self)@.sessions, a, sess@), ..old(self)@ }),
    {
        let ghost s0 = self@.sessions;
        let ghost m = sess@;
        match self.find(a) {
            Some(i) => {
                self.sessions.set(i, (a, sess));
                proof {
                    assert(sessions_view(self.sessions@) =~= s0.update(i as int, (a, m)));
                }
            },
            None => {
                self.sessions.push((a, sess));
                proof {
                    assert(sessions_view(self.sessions@) =~= s0.push((a, m)));
                }
            },
        }
        proof {
            let s1 = self@.sessions;
            assert forall|x: int, y: int|
                0 <= x < s1.len() && 0 <= y < s1.len() && x != y implies #[trigger] s1[x].0 != #[trigger] s1[y].0 by {
                if has_session(s0, a) {
                    let k = session_index(s0, a);
                    if x != k && y != k {
                        assert(s1[x] == s0[x] && s1[y] == s0[y]);
                    } else if x == k {
                        assert(s1[y] == s0[y]);
                        assert(s0[k].0 == a);
                    } else {
                        assert(s1[x] == s0[x]);
                        assert(s0[k].0 == a);
                    }
                } else {
                    if x < s0.len() && y < s0.len() {
                        assert(s1[x] == s0[x] && s1[y] == s0[y]);
                    } else if x < s0.len() {
                        assert(s1[x] == s0[x]);
                    } else {
                        assert(s1[y] == s0[y]);
                    }
                }
            }
            assert forall|x: int| 0 <= x < s1.len() implies endpoint_wf(#[trigger] s1[x].1.rel) by {
                if has_session(s0, a) {
                    let k = session_index(s0, a);
                    if x != k {
                        assert(s1[x] == s0[x]);
                    }
                } else if x < s0.len() {
                    assert(s1[x] == s0[x]);
                }
            }
        }
    }

    /// Queues `p` on every session that gets the share.
    fn fan_out(&mut self, p: &Vec<u8>, audio_only: bool)
        requires
            table_wf(old(self)@),
            payload_fits(p@),
        ensures
            table_wf(final(self)@),
            final(self)@ == (TableModel { sessions: fan_out(old(self)@.sessions, p@, audio_only), ..old(self)@ }),
    {
        let ghost s0 = self@.sessions;
        let n = self.sessions.len();
        let mut i: usize = 0;
        while i < n
            invariant
                n == s0.len(),
                i <= n,
                self.next_sid == old(self).next_sid,
                sessions_view(self.sessions@).len() == n,
                table_wf(old(self)@),
                s0 == old(self)@.sessions,
                payload_fits(p@),
                forall|j: int| 0 <= j < i ==> #[trigger] sessions_view(self.sessions@)[j] == fan_out(s0, p@, audio_only)[j],
                forall|j: int| i <= j < n ==> #[trigger] sessions_view(self.sessions@)[j] == s0[j],
            decreases n - i,
        {
            let ghost before = self.sessions@;
            assert(sessions_view(before)[i as int] == s0[i as int]);
            let share = self.sessions[i].1.opened && (!audio_only || self.sessions[i].1.audio);
            assert(share == gets_share(s0[i as int].1, audio_only));
            if share {
                let entry = &mut self.sessions[i];
                entry.1.rel.queue_payload(p.clone());
                assert(self.sessions@[i as int].0 == s0[i as int].0);
                assert(self.sessions@[i as int].1@ == queue_on(s0[i as int].1, p@));
            } else {
                assert(self.sessions@[i as int] == before[i as int]);
            }
            proof {
                assert forall|j: int| 0 <= j < n && j != i implies #[trigger] sessions_view(self.sessions@)[j]
                    == sessions_view(before)[j] by {
                    assert(self.sessions@[j] == before[j]);
                }
                assert(sessions_view(self.sessions@)[i as int] == fan_out(s0, p@, audio_only)[i as int]);
            }
            i = i + 1;
        }
        proof {
            let s1 = sessions_view(self.sessions@);
            assert(s1 =~= fan_out(s0, p@, audio_only));
            assert forall|x: int| 0 <= x < s1.len() implies endpoint_wf(#[trigger] s1[x].1.rel) by {
                assert(s1[x] == fan_out(s0, p@, audio_only)[x]);
                assert(endpoint_wf(s0[x].1.rel));
                if gets_share(s0[x].1, audio_only) {
                    lemma_queue_keeps_wf(s0[x].1.rel, seq![p@]);
                    assert(s0[x].1.rel.outbound.push(p@) == s0[x].1.rel.outbound + seq![p@]);
                }
            }
            assert forall|x: int, y: int|
                0 <= x < s1.len() && 0 <= y < s1.len() && x != y implies #[trigger] s1[x].0 != #[trigger] s1[y].0 by {
                assert(s1[x].0 == s0[x].0 && s1[y].0 == s0[y].0);
            }
        }
    }

    /// Hands an upstream event to the clients.
    pub fn deliver(&mut self, ev: UpstreamEvent, filter: &mut CommandFilter)
        requires
            table_wf(old(self)@),
            filter_wf(old(filter)@),
            event_fits(event_view(ev)),
        ensures
            table_wf(final(self)@),
            filter_wf(final(filter)@),
            (final(self)@, final(filter)@) == deliver_spec(old(self)@, old(filter)@, event_view(ev)),
    {
        match ev {
            UpstreamEvent::Connected => {},
            UpstreamEvent::Disconnected => {
                self.sessions.clear();
                filter.clear_transfer();
                assert(sessions_view(self.sessions@) =~= Seq::<(ClientAddr, SessionModel)>::empty());
            },
            UpstreamEvent::StatePayload(p) => {
                self.fan_out(&p, false);
            },
            UpstreamEvent::AudioLevels(p) => {
                self.fan_out(&p, true);
            },
            UpstreamEvent::TransferPayload(p) => {
                let owner = filter.policy().transfer.fanout_owner(&filter.policy().locks);
                match owner {
                    Some(o) => match self.find(o) {
                        Some(i) => {
                            if self.sessions[i].1.opened {
                                let ghost s0 = self@.sessions;
                                let entry = &mut self.sessions[i];
                                entry.1.rel.queue_payload(p);
                                proof {
                                    let s1 = sessions_view(self.sessions@);
                                    assert(s1 =~= s0.update(i as int, (o, queue_on(s0[i as int].1, p@))));
                                    lemma_queue_keeps_wf(s0[i as int].1.rel, seq![p@]);
                                    assert(s0[i as int].1.rel.outbound.push(p@) == s0[i as int].1.rel.outbound + seq![p@]);
                                    assert forall|x: int| 0 <= x < s1.len() implies endpoint_wf(#[trigger] s1[x].1.rel) by {
                                        if x != i {
                                            assert(s1[x] == s0[x]);
                                        }
                                    }
                                    assert forall|x: int, y: int|
                                        0 <= x < s1.len() && 0 <= y < s1.len() && x != y implies #[trigger] s1[x].0
                                            != #[trigger] s1[y].0 by {
                                        assert(s1[x].0 == s0[x].0 && s1[y].0 == s0[y].0);
                                    }
                                }
                            }
                        },
                        None => {},
                    },
                    None => {},
                }
            },
        }
    }

    /// Queues the late-join dump again on every open session.
    pub fn resync(&mut self, cache: &StateCache)
        requires
            table_wf(old(self)@),
            cache_fits(cache@),
        ensures
            table_wf(final(self)@),
            final(self)@ == (TableModel { sessions: resync_spec(old(self)@.sessions, cache@), ..old(self)@ }),
    {
        let dump = cache.dump();
        let ghost d = pack_commands(dump_spec(cache@));
        proof {
            lemma_dump_fits(cache@);
            lemma_pack_fits(dump_spec(cache@));
        }
        let ghost s0 = self@.sessions;
        let n = self.sessions.len();
        let mut i: usize = 0;
        while i < n
            invariant
                n == s0.len(),
                i <= n,
                self.next_sid == old(self).next_sid,
                sessions_view(self.sessions@).len() == n,
                table_wf(old(self)@),
                s0 == old(self)@.sessions,
                bytes_list(dump@) == dump_spec(cache@),
                d == pack_commands(dump_spec(cache@)),
                forall|j: int| 0 <= j < d.len() ==> payload_fits(#[trigger] d[j]),
                forall|j: int| 0 <= j < i ==> #[trigger] sessions_view(self.sessions@)[j] == resync_spec(s0, cache@)[j],
                forall|j: int| i <= j < n ==> #[trigger] sessions_view(self.sessions@)[j] == s0[j],
            decreases n - i,
        {
            let ghost before = self.sessions@;
            assert(sessions_view(before)[i as int] == s0[i as int]);
            if self.sessions[i].1.opened {
                let entry = &mut self.sessions[i];
                entry.1.rel.queue_commands_packed(dump.as_slice());
                assert(self.sessions@[i as int].0 == s0[i as int].0);
                assert(self.sessions@[i as int].1@ == resync_spec(s0, cache@)[i as int].1);
            } else {
                assert(self.sessions@[i as int] == before[i as int]);
            }
            proof {
                assert forall|j: int| 0 <= j < n && j != i implies #[trigger] sessions_view(self.sessions@)[j]
                    == sessions_view(before)[j] by {
                    assert(self.sessions@[j] == before[j]);
                }
            }
            i = i + 1;
        }
        proof {
            let s1 = sessions_view(self.sessions@);
            assert(s1 =~= resync_spec(s0, cache@));
            assert forall|x: int| 0 <= x < s1.len() implies endpoint_wf(#[trigger] s1[x].1.rel) by {
                assert(s1[x] == resync_spec(s0, cache@)[x]);
                assert(endpoint_wf(s0[x].1.rel));
                if s0[x].1.opened {
                    lemma_queue_keeps_wf(s0[x].1.rel, d);
                }
            }
            assert forall|x: int, y: int|
                0 <= x < s1.len() && 0 <= y < s1.len() && x != y implies #[trigger] s1[x].0 != #[trigger] s1[y].0 by {
                assert(s1[x].0 == s0[x].0 && s1[y].0 == s0[y].0);
            }
        }
    }

    /// A clock tick: expires clients silent for longer than the idle limit (their
    /// locks, transfer and audio subscription end), polls the others, and marks the
    /// datagrams for the transfer owner that wait the media chunk delay.
    pub fn on_tick(&mut self, now: u64, client_idle_ms: u64, filter: &mut CommandFilter) -> (r: TickOutput)
        requires
            table_wf(old(self)@),
            filter_wf(old(filter)@),
        ensures
            table_wf(final(self)@),
            filter_wf(final(filter)@),
            ({
                let (kept, pk, dead) = tick_sessions(old(self)@.sessions, now, idle_limit(client_idle_ms));
                let (f2, up) = disconnect_all(old(filter)@, dead);
                &&& final(self)@ == (TableModel { sessions: kept, ..old(self)@ })
                &&& r.dead@ == dead
                &&& final(filter)@ == f2
                &&& bytes_list(r.upstream@) == up
                &&& r.packets@.map_values(|o: OutPacket| out_view(o)) == paced_packets(
                    pk,
                    old(filter)@.transfer.cfg.chunk_delay_ms,
                    owner_of(f2),
                )
            }),
    {
        let idle = if client_idle_ms < 500 { 500 } else { client_idle_ms };
        let ghost s0 = self@.sessions;
        let ghost f0 = filter@;
        proof {
            lemma_tick_wf(s0, now, idle);
        }
        let mut rest: Vec<(ClientAddr, ClientSession)> = Vec::new();
        std::mem::swap(&mut rest, &mut self.sessions);
        let mut kept: Vec<(ClientAddr, ClientSession)> = Vec::new();
        let mut tagged: Vec<(ClientAddr, Vec<u8>)> = Vec::new();
        let mut dead: Vec<ClientAddr> = Vec::new();
        let ghost mut k: int = 0;
        assert(s0.skip(0) =~= s0);
        assert(s0.take(0) =~= Seq::<(ClientAddr, SessionModel)>::empty());
        assert(sessions_view(kept@) =~= Seq::<(ClientAddr, SessionModel)>::empty());
        assert(tagged_view(tagged@) =~= Seq::<(ClientAddr, Seq<u8>)>::empty());
        while rest.len() > 0
            invariant
                0 <= k <= s0.len(),
                idle == idle_limit(client_idle_ms),
                sessions_wf(s0),
                sessions_view(rest@) == s0.skip(k),
                sessions_view(kept@) == tick_sessions(s0.take(k), now, idle).0,
                tagged_view(tagged@) == tick_sessions(s0.take(k), now, idle).1,
                dead@ == tick_sessions(s0.take(k), now, idle).2,
            decreases rest@.len(),
        {
            let ghost rv = rest@;
            assert(sessions_view(rv).len() == rv.len());
            assert(k < s0.len());
            let (a, mut sess) = rest.remove(0);
            proof {
                assert(s0.take(k + 1).drop_last() =~= s0.take(k));
                assert(s0.take(k + 1).last() == s0[k]);
                assert(sessions_view(rv)[0] == s0.skip(k)[0]);
                assert(s0[k] == (a, sess@));
                assert forall|x: int| 0 <= x < rest@.len() implies #[trigger] sessions_view(rest@)[x]
                    == s0.skip(k + 1)[x] by {
                    assert(rest@[x] == rv[x + 1]);
                    assert(sessions_view(rv)[x + 1] == s0.skip(k)[x + 1]);
                }
                assert(sessions_view(rest@) =~= s0.skip(k + 1));
                assert(endpoint_wf(s0[k].1.rel));
            }
            if now.saturating_sub(sess.rel.last_recv_at) > idle {
                dead.push(a);
            } else {
                proof {
                    lemma_poll_keeps_wf(sess.rel@, now);
                }
                let out = sess.rel.poll_outbound(now);
                tag_all(&mut tagged, a, out);
                let ghost kv = kept@;
                kept.push((a, sess));
                proof {
                    assert(sessions_view(kept@) =~= sessions_view(kv).push((a, sess@)));
                }
            }
            proof {
                k = k + 1;
            }
        }
        assert(s0.take(k) =~= s0);
        self.sessions = kept;
        let mut upstream: Vec<Vec<u8>> = Vec::new();
        let mut j: usize = 0;
        assert(dead@.take(0) =~= Seq::<ClientAddr>::empty());
        assert(bytes_list(upstream@) =~= Seq::<Seq<u8>>::empty());
        while j < dead.len()
            invariant
                j <= dead@.len(),
                filter_wf(filter@),
                filter@.transfer.cfg == f0.transfer.cfg,
                (filter@, bytes_list(upstream@)) == disconnect_all(f0, dead@.take(j as int)),
            decreases dead@.len() - j,
        {
            let ghost u0 = bytes_list(upstream@);
            let mut cmds = filter.client_disconnected(dead[j]);
            let ghost cv = bytes_list(cmds@);
            let ghost uv = upstream@;
            upstream.append(&mut cmds);
            proof {
                assert(dead@.take(j + 1).drop_last() =~= dead@.take(j as int));
                assert(dead@.take(j + 1).last() == dead@[j as int]);
                assert(bytes_list(upstream@) =~= u0 + cv);
            }
            j = j + 1;
        }
        assert(dead@.take(dead@.len() as int) =~= dead@);
        let owner = filter.policy().transfer.current_owner();
        let delay = filter.policy().transfer.chunk_delay_ms();
        let ghost pk = tagged_view(tagged@);
        let mut packets: Vec<OutPacket> = Vec::new();
        let mut i: usize = 0;
        while i < tagged.len()
            invariant
                i <= tagged@.len(),
                pk == tagged_view(tagged@),
                packets@.map_values(|o: OutPacket| out_view(o)) == paced_packets(pk, delay, owner).take(i as int),
            decreases tagged@.len() - i,
        {
            let to = tagged[i].0;
            let bytes = tagged[i].1.clone();
            let pace = delay > 0 && owner == Some(to) && bytes.len() > 12;
            let ghost pv = packets@;
            packets.push(OutPacket { to, bytes, pace });
            proof {
                assert(packets@.map_values(|o: OutPacket| out_view(o)) =~= pv.map_values(|o: OutPacket| out_view(o)).push(
                    paced_packets(pk, delay, owner)[i as int],
                ));
                assert(paced_packets(pk, delay, owner).take(i + 1) =~= paced_packets(pk, delay, owner).take(
                    i as int,
                ).push(paced_packets(pk, delay, owner)[i as int]));
            }
            i = i + 1;
        }
        assert(paced_packets(pk, delay, owner).take(tagged@.len() as int) =~= paced_packets(pk, delay, owner));
        TickOutput { packets, dead, upstream }
    }

    /// The session of `a`, if it has one.
    pub fn session(&self, a: ClientAddr) -> (r: Option<&ClientSession>)
        requires
            table_wf(self@),
        ensures
            r is Some <==> has_session(self@.sessions, a),
            r matches Some(sess) ==> sess@ == self@.sessions[session_index(self@.sessions, a)].1,
    {
        match self.find(a) {
            Some(i) => Some(&self.sessions[i].1),
            None => None,
        }
    }
}

proof fn lemma_flatten_is_concat(fs: Seq<Seq<u8>>)
    ensures
        flatten(fs) == concat_frames(fs),
    decreases fs.len(),
{
    if fs.len() == 0 {
        assert(concat_frames(fs) =~= Seq::<u8>::empty());
    } else {
        lemma_flatten_is_concat(fs.drop_last());
        crate::upstream::lemma_concat_frames_last(fs);
    }
}

proof fn lemma_table_put(s: Seq<(ClientAddr, SessionModel)>, a: ClientAddr, m: SessionModel)
    requires
        sessions_wf(s),
    ensures
        has_session(table_put(s, a, m), a),
        table_put(s, a, m)[session_index(table_put(s, a, m), a)] == (a, m),
{
    let r = table_put(s, a, m);
    if has_session(s, a) {
        let k = session_index(s, a);
        assert(r[k] == (a, m));
        let j = session_index(r, a);
        if j != k {
            assert(r[j] == s[j]);
            assert(s[j].0 == s[k].0);
        }
    } else {
        assert(r[s.len() as int] == (a, m));
        let j = session_index(r, a);
        if j != s.len() {
            assert(r[j] == s[j]);
        }
    }
}

/// Clients are let in only while the switcher session is up and its state is ready.
/// Then the HELLO reply carries a fresh session id with the high bit set, and the
/// client's new session starts closed, expecting the client's packet 1 first.
pub proof fn lemma_hello_only_when_ready(
    t: TableModel,
    c: CacheModel,
    f: FilterModel,
    d: Seq<u8>,
    from: ClientAddr,
    now: u64,
    upstream_connected: bool,
)
    requires
        table_wf(t),
        decode_packet_spec(d) matches Ok((h, _)) && has_flags(h.flags, PacketFlags::HANDSHAKE),
    ensures
        client_datagram_spec(t, c, f, d, from, now, upstream_connected) matches Ok((t2, f2, reply, fwd)) && {
            &&& f2 == f
            &&& fwd.len() == 0
            &&& (!upstream_connected || !c.ready) ==> t2 == t && reply is None
            &&& (upstream_connected && c.ready) ==> {
                let sid = session_id_for(t.next_sid);
                &&& sid >= 0x8000
                &&& reply == Some(hello_reply(sid))
                &&& has_session(t2.sessions, from)
                &&& t2.sessions[session_index(t2.sessions, from)].1 == new_session(sid, now)
                &&& new_session(sid, now).rel.session_id == sid
                &&& new_session(sid, now).rel.ack.expected_recv == 1
                &&& !new_session(sid, now).opened
            }
        },
{
    lemma_table_put(t.sessions, from, new_session(session_id_for(t.next_sid), now));
}

/// A late joiner gets the coalesced state dump: the first acknowledgement on a fresh
/// session opens it and queues every cached command, back to back and packed into
/// datagrams, followed by a synthetic `InCm`.
pub proof fn lemma_first_ack_queues_dump(
    s: SessionModel,
    c: CacheModel,
    f: FilterModel,
    h: crate::packet::PacketHeader,
    p: Seq<u8>,
    from: ClientAddr,
    now: u64,
)
    requires
        cache_wf(c),
        !s.opened,
        !s.dump_sent,
        s.rel.outbound.len() == 0,
        has_flags(h.flags, PacketFlags::ACK_REPLY) || h.ack_id != 0,
    ensures
        ({
            let s2 = session_packet_spec(s, c, f, h, p, from, now).0;
            &&& s2.opened && s2.rel.opened && s2.dump_sent
            &&& s2.rel.outbound == pack_commands(dump_spec(c))
            &&& split_frames(flatten(s2.rel.outbound)) == Ok::<Seq<Seq<u8>>, int>(dump_spec(c))
            &&& frame_name(dump_spec(c).last()) == init_complete_name()
        }),
{
    let d = dump_spec(c);
    lemma_pack_commands(d);
    lemma_flatten_is_concat(d);
    lemma_dump_parses(c);
    assert(Seq::<Seq<u8>>::empty() + pack_commands(d) =~= pack_commands(d));
}

/// Upstream state reaches every open client and audio levels every open subscriber,
/// appended to what each already has queued; no other session changes.
pub proof fn lemma_shares_reach_open_clients(t: TableModel, f: FilterModel, p: Seq<u8>)
    ensures
        ({
            let st = deliver_spec(t, f, EventView::StatePayload(p)).0.sessions;
            let au = deliver_spec(t, f, EventView::AudioLevels(p)).0.sessions;
            &&& st.len() == t.sessions.len() && au.len() == t.sessions.len()
            &&& forall|i: int|
                0 <= i < t.sessions.len() ==> #[trigger] st[i] == (if t.sessions[i].1.opened {
                    (t.sessions[i].0, queue_on(t.sessions[i].1, p))
                } else {
                    t.sessions[i]
                })
            &&& forall|i: int|
                0 <= i < t.sessions.len() ==> #[trigger] au[i] == (if t.sessions[i].1.opened
                    && t.sessions[i].1.audio {
                    (t.sessions[i].0, queue_on(t.sessions[i].1, p))
                } else {
                    t.sessions[i]
                })
        }),
{
}

/// Media transfer traffic from the switcher reaches the transfer owner's open
/// session only; every other session stays as it was.
pub proof fn lemma_transfer_reaches_owner_only(t: TableModel, f: FilterModel, p: Seq<u8>)
    requires
        table_wf(t),
    ensures
        ({
            let t2 = deliver_spec(t, f, EventView::TransferPayload(p)).0;
            &&& t2.sessions.len() == t.sessions.len()
            &&& forall|i: int|
                0 <= i < t.sessions.len() && Some(t.sessions[i].0) != fanout_spec(f.transfer, f.locks)
                    ==> #[trigger] t2.sessions[i] == t.sessions[i]
            &&& forall|i: int|
                0 <= i < t.sessions.len() && Some(t.sessions[i].0) == fanout_spec(f.transfer, f.locks)
                    && t.sessions[i].1.opened ==> #[trigger] t2.sessions[i] == (
                    t.sessions[i].0,
                    queue_on(t.sessions[i].1, p),
                )
        }),
{
    let t2 = deliver_spec(t, f, EventView::TransferPayload(p)).0;
    if let Some(o) = fanout_spec(f.transfer, f.locks) {
        if has_session(t.sessions, o) {
            let k = session_index(t.sessions, o);
            assert forall|i: int|
                0 <= i < t.sessions.len() && Some(t.sessions[i].0) == fanout_spec(f.transfer, f.locks)
                    implies i == k by {
                assert(t.sessions[i].0 == t.sessions[k].0);
            }
        } else {
            assert forall|i: int|
                0 <= i < t.sessions.len() implies Some(t.sessions[i].0) != fanout_spec(f.transfer, f.locks) by {
                if t.sessions[i].0 == o {
                    assert(has_session(t.sessions, o));
                }
            }
        }
    }
}

/// When the switcher session is lost, every client is dropped and the media
/// transfer ends.
pub proof fn lemma_upstream_loss_drops_clients(t: TableModel, f: FilterModel)
    ensures
        deliver_spec(t, f, EventView::Disconnected).0.sessions.len() == 0,
        deliver_spec(t, f, EventView::Disconnected).1.transfer.active is None,
{
}

/// Every session a tick keeps was there before and had not gone silent.
proof fn lemma_tick_keeps_live(s: Seq<(ClientAddr, SessionModel)>, now: u64, idle: u64)
    ensures
        forall|j: int|
            0 <= j < tick_sessions(s, now, idle).0.len() ==> exists|k: int|
                0 <= k < s.len() && s[k].0 == (#[trigger] tick_sessions(s, now, idle).0[j]).0 && !(elapsed(
                    now,
                    s[k].1.rel.last_recv_at,
                ) > idle),
    decreases s.len(),
{
    if s.len() > 0 {
        let init = s.drop_last();
        lemma_tick_keeps_live(init, now, idle);
        let prev = tick_sessions(init, now, idle).0;
        let kept = tick_sessions(s, now, idle).0;
        assert forall|j: int| 0 <= j < kept.len() implies exists|k: int|
            0 <= k < s.len() && s[k].0 == (#[trigger] kept[j]).0 && !(elapsed(now, s[k].1.rel.last_recv_at)
                > idle) by {
            if j < prev.len() {
                assert(kept[j] == prev[j]);
                let k = choose|k: int|
                    0 <= k < init.len() && init[k].0 == prev[j].0 && !(elapsed(now, init[k].1.rel.last_recv_at)
                        > idle);
                assert(s[k] == init[k]);
            } else {
                assert(s[s.len() - 1].0 == kept[j].0);
            }
        }
    }
}

/// A session silent for longer than the limit is listed as gone.
proof fn lemma_tick_lists_silent(s: Seq<(ClientAddr, SessionModel)>, now: u64, idle: u64, i: int)
    requires
        0 <= i < s.len(),
        elapsed(now, s[i].1.rel.last_recv_at) > idle,
    ensures
        tick_sessions(s, now, idle).2.contains(s[i].0),
    decreases s.len(),
{
    let init = s.drop_last();
    let prev = tick_sessions(init, now, idle);
    if i == s.len() - 1 {
        let dead = tick_sessions(s, now, idle).2;
        assert(dead[dead.len() - 1] == s[i].0);
    } else {
        assert(init[i] == s[i]);
        lemma_tick_lists_silent(init, now, idle, i);
        let k = choose|k: int| 0 <= k < prev.2.len() && prev.2[k] == s[i].0;
        assert(tick_sessions(s, now, idle).2[k] == s[i].0);
    }
}

/// After clients `dead` leave, none of them owns a store lock.
proof fn lemma_disconnect_all_releases(f: FilterModel, dead: Seq<ClientAddr>)
    ensures
        forall|a: ClientAddr| dead.contains(a) ==> !owns_any(#[trigger] disconnect_all(f, dead).0.locks, a),
    decreases dead.len(),
{
    if dead.len() > 0 {
        let init = dead.drop_last();
        lemma_disconnect_all_releases(f, init);
        let prev = disconnect_all(f, init).0;
        let last = dead.last();
        let after = disconnect_all(f, dead).0.locks;
        assert forall|a: ClientAddr| dead.contains(a) implies !owns_any(#[trigger] disconnect_all(f, dead).0.locks, a) by {
            if a != last {
                let k = choose|k: int| 0 <= k < dead.len() && dead[k] == a;
                assert(init[k] == a);
                assert(init.contains(a));
                if owns_any(after, a) {
                    let j = choose|j: int| 0 <= j < after.len() && after[j].owner == Some(a);
                    assert(prev.locks[j].owner == Some(a));
                }
            }
        }
    }
}

/// A client silent for longer than the idle limit is dropped at the next tick,
/// reported as gone, and left owning no store lock (so a media upload it abandoned
/// does not keep the switcher locked).
pub proof fn lemma_silent_client_expires(t: TableModel, f: FilterModel, now: u64, client_idle_ms: u64, i: int)
    requires
        table_wf(t),
        0 <= i < t.sessions.len(),
        elapsed(now, t.sessions[i].1.rel.last_recv_at) > idle_limit(client_idle_ms),
    ensures
        ({
            let a = t.sessions[i].0;
            let (kept, pk, dead) = tick_sessions(t.sessions, now, idle_limit(client_idle_ms));
            &&& dead.contains(a)
            &&& !has_session(kept, a)
            &&& !owns_any(disconnect_all(f, dead).0.locks, a)
        }),
{
    let idle = idle_limit(client_idle_ms);
    let s = t.sessions;
    let a = s[i].0;
    lemma_tick_lists_silent(s, now, idle, i);
    lemma_tick_keeps_live(s, now, idle);
    lemma_disconnect_all_releases(f, tick_sessions(s, now, idle).2);
    let kept = tick_sessions(s, now, idle).0;
    if has_session(kept, a) {
        let j = choose|j: int| 0 <= j < kept.len() && kept[j].0 == a;
        let k = choose|k: int|
            0 <= k < s.len() && s[k].0 == kept[j].0 && !(elapsed(now, s[k].1.rel.last_recv_at) > idle);
        assert(s[k].0 == s[i].0);
    }
}

/// What a single action sends upstream: a forwarded command goes up as it is, an
/// audio subscription change passes on the enable or disable it carries, and a
/// dropped command or a subscription change that stays local sends nothing.
pub proof fn lemma_forwards_of_one(b: Seq<u8>, enable: bool, name: Seq<u8>, reason: Seq<char>)
    ensures
        forwards_of(seq![ActionView::Forward(b)]) == seq![b],
        forwards_of(seq![ActionView::AudioSubscribe { enable, forward: Some(b) }]) == seq![b],
        forwards_of(seq![ActionView::AudioSubscribe { enable, forward: None }]) == Seq::<Seq<u8>>::empty(),
        forwards_of(seq![ActionView::Dropped { name, reason }]) == Seq::<Seq<u8>>::empty(),
{
    let e = Seq::<ActionView>::empty();
    assert(forwards_of(e) == Seq::<Seq<u8>>::empty());
    assert(Seq::<Seq<u8>>::empty().push(b) =~= seq![b]);
    let s1 = seq![ActionView::Forward(b)];
    assert(s1.drop_last() =~= e && s1.last() == ActionView::Forward(b));
    let s2 = seq![ActionView::AudioSubscribe { enable, forward: Some(b) }];
    assert(s2.drop_last() =~= e && s2.last() == ActionView::AudioSubscribe { enable, forward: Some(b) });
    let s3 = seq![ActionView::AudioSubscribe { enable, forward: None }];
    assert(s3.drop_last() =~= e && s3.last() == ActionView::AudioSubscribe { enable, forward: None });
    let s4 = seq![ActionView::Dropped { name, reason }];
    assert(s4.drop_last() =~= e && s4.last() == ActionView::Dropped { name, reason });
}

/// The commands sent upstream for a run of actions are those of its parts, in order.
pub proof fn lemma_forwards_of_concat(a: Seq<ActionView>, b: Seq<ActionView>)
    ensures
        forwards_of(a + b) == forwards_of(a) + forwards_of(b),
    decreases b.len(),
{
    if b.len() == 0 {
        assert(a + b =~= a);
        assert(forwards_of(a) + forwards_of(b) =~= forwards_of(a));
    } else {
        lemma_forwards_of_concat(a, b.drop_last());
        assert((a + b).drop_last() =~= a + b.drop_last());
        assert((a + b).last() == b.last());
        let fa = forwards_of(a);
        let fb = forwards_of(b.drop_last());
        match b.last() {
            ActionView::Forward(x) => {
                assert(fa + fb.push(x) =~= (fa + fb).push(x));
            },
            ActionView::AudioSubscribe { forward: Some(x), .. } => {
                assert(fa + fb.push(x) =~= (fa + fb).push(x));
            },
            _ => {},
        }
    }
}

/// A client's first audio-level enable reaches the switcher: when no client is
/// subscribed, the expected reliable packet carrying one enabling subscription
/// command sends exactly that command upstream, and the client's session is then
/// subscribed to audio levels.
pub proof fn lemma_first_audio_enable_forwarded(
    s: SessionModel,
    c: CacheModel,
    f: FilterModel,
    h: crate::packet::PacketHeader,
    p: Seq<u8>,
    from: ClientAddr,
    now: u64,
)
    requires
        filter_wf(f),
        f.audio_clients.len() == 0,
        has_flags(h.flags, PacketFlags::ACK_REQUEST),
        h.packet_id == s.rel.ack.expected_recv,
        is_frame(p),
        audio_subscribe_name(frame_name(p)),
        !lock_request_name(frame_name(p)),
        !transfer_name(frame_name(p)),
        audio_enable_of(frame_body(p)),
    ensures
        session_packet_spec(s, c, f, h, p, from, now).3 == seq![p],
        session_packet_spec(s, c, f, h, p, from, now).0.audio,
{
    lemma_split_frame_then(p, Seq::empty());
    assert(p + Seq::<u8>::empty() =~= p);
    assert(split_frames(Seq::<u8>::empty()) == Ok::<Seq<Seq<u8>>, int>(Seq::empty()));
    assert(seq![p] + Seq::<Seq<u8>>::empty() =~= seq![p]);
    assert(split_frames(p) == Ok::<Seq<Seq<u8>>, int>(seq![p]));
    lemma_audio_subscribe_then_disconnect(f, from, p);
    let fs = seq![p];
    assert(fs.drop_last() =~= Seq::<Seq<u8>>::empty() && fs.last() == p);
    assert(filter_frames(f, from, Seq::<Seq<u8>>::empty()) == (f, Seq::<ActionView>::empty()));
    let acts = filter_frames(f, from, fs).1;
    assert(acts == Seq::<ActionView>::empty().push(filter_frame(f, from, p).1));
    assert(acts =~= seq![ActionView::AudioSubscribe { enable: true, forward: Some(p) }]);
    lemma_forwards_of_one(p, true, Seq::empty(), Seq::empty());
    assert(acts.last() == ActionView::AudioSubscribe { enable: true, forward: Some(p) });
}

/// A reliable client packet that arrives out of order is not passed on: when it
/// carries commands, the client is asked to retransmit from the packet id expected
/// next (a 12-byte retransmit request under the client's session id), nothing goes
/// upstream and the filter is untouched.
pub proof fn lemma_out_of_order_asks_retransmit(
    s: SessionModel,
    c: CacheModel,
    f: FilterModel,
    h: crate::packet::PacketHeader,
    p: Seq<u8>,
    from: ClientAddr,
    now: u64,
)
    requires
        has_flags(h.flags, PacketFlags::ACK_REQUEST),
        h.packet_id != s.rel.ack.expected_recv,
        p.len() > 0,
    ensures
        ({
            let (s2, f2, reply, fwd) = session_packet_spec(s, c, f, h, p, from, now);
            &&& f2 == f
            &&& fwd.len() == 0
            &&& reply is Some
            &&& reply.unwrap().len() == 12
            &&& header_from_bytes(reply.unwrap()).flags == PacketFlags::RETRANSMIT_REQUEST
            &&& header_from_bytes(reply.unwrap()).retransmit_request == s.rel.ack.expected_recv
            &&& header_from_bytes(reply.unwrap()).session_id == s.rel.session_id
            &&& s2.rel.ack == s.rel.ack
        }),
{
    let (s2, f2, reply, fwd) = session_packet_spec(s, c, f, h, p, from, now);
    let hd = with_length(retransmit_request_header(s2.rel), 0);
    lemma_header_roundtrip(hd);
    assert(reply.unwrap() =~= header_bytes(hd));
}

} // verus!
