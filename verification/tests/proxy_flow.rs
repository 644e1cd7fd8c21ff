//! The upstream session, the client side, discovery texts and settings, driven
//! with hand-built datagrams.

use atem_proxy::addr::ClientAddr;
use atem_proxy::cache::{framed, StateCache};
use atem_proxy::config::{
    atem_target, env_flag, layered, CompatConfig, DiscoveryConfig, LockMode, LocksConfig,
    MediaConfig, Profile,
};
use atem_proxy::filter::{CommandFilter, FilterPolicy};
use atem_proxy::locks::LockBroker;
use atem_proxy::mdns::{
    announce_info_known, announced_product_name, mdns_host_name, release_version_text,
    sanitize_instance_name, txt_properties,
};
use atem_proxy::server::ClientTable;
use atem_proxy::transfer::TransferLane;
use atem_proxy::upstream::{
    end_session, split_upstream_payload, ReconnectBackoff, UpstreamError, UpstreamEvent,
    UpstreamLink,
};
use atem_proxy::{
    build_ack_reply, build_client_handshake, build_server_handshake_reply, decode_packet,
    encode_packet, parse_commands, serialize_command, CommandName, FlagBits, PacketFlags,
    PacketHeader, ProtocolError, INIT_COMPLETE,
};

fn local(port: u16) -> ClientAddr {
    ClientAddr::new(false, 0x7f00_0001, port)
}

fn filter(softatem: bool) -> CommandFilter {
    let media = MediaConfig { enabled: softatem, chunk_delay_ms: 3, max_upload_mb: 0 };
    CommandFilter::new(FilterPolicy {
        lock_mode: if softatem { LockMode::SingleOwner } else { LockMode::Deny },
        locks: LockBroker::new(),
        transfer: TransferLane::new(media),
    })
}

fn reliable(session: u16, packet_id: u16, payload: &[u8]) -> Vec<u8> {
    let mut h = PacketHeader::new(PacketFlags::ACK_REQUEST, session, 0);
    h.packet_id = packet_id;
    encode_packet(&h, payload)
}

fn names(payload: &[u8]) -> Vec<[u8; 4]> {
    parse_commands(payload).unwrap().iter().map(|c| c.name.0).collect()
}

fn opened_link() -> UpstreamLink {
    let reply = build_server_handshake_reply(0x8001);
    let (link, _) = UpstreamLink::open(&reply, 0).unwrap();
    link
}

#[test]
fn upstream_handshake_acks_hello_and_expects_next_id() {
    let reply = build_server_handshake_reply(0x8001);
    let (link, ack) = UpstreamLink::open(&reply, 10).unwrap();
    let (h, payload) = decode_packet(&ack).unwrap();
    assert!(h.flags.contains(PacketFlags::ACK_REPLY));
    assert_eq!((h.session_id, h.ack_id), (0x8001, 0));
    assert!(payload.is_empty());
    assert_eq!(link.rel.ack.expected_recv, 1);
    assert_eq!(link.rel.next_send_id, 1);
    assert!(!link.connected && !link.init_complete);
}

#[test]
fn upstream_handshake_errors() {
    assert_eq!(
        UpstreamLink::open(&[0u8; 4], 0).err(),
        Some(UpstreamError::Packet(ProtocolError::TooShort(4)))
    );
    let not_hello = build_ack_reply(0x8001, 0, 0);
    assert_eq!(
        UpstreamLink::open(&not_hello, 0).err(),
        Some(UpstreamError::NotHandshake { flags: PacketFlags::ACK_REPLY })
    );
    let h = PacketHeader::new(PacketFlags::HANDSHAKE, 0x8001, 0);
    let restart = encode_packet(&h, &[4, 0, 0, 0, 0, 0, 0, 0]);
    assert_eq!(
        UpstreamLink::open(&restart, 0).err(),
        Some(UpstreamError::Rejected { status: Some(4) })
    );
    let empty = encode_packet(&h, &[]);
    assert_eq!(UpstreamLink::open(&empty, 0).err(), Some(UpstreamError::Rejected { status: None }));
}

#[test]
fn upstream_payload_is_routed_by_destination() {
    let state = serialize_command(CommandName(*b"PrgI"), &[0, 0, 0, 1]);
    let audio = serialize_command(CommandName(*b"AMLv"), &[1, 2]);
    let transfer = serialize_command(CommandName(*b"FTDa"), &[0, 1, 2]);
    let status = serialize_command(CommandName(*b"LKST"), &[0, 0, 1, 0]);
    let incm = serialize_command(CommandName(INIT_COMPLETE), &[1, 0, 0, 0]);
    let payload = [state.clone(), audio.clone(), transfer.clone(), status.clone(), incm].concat();
    let split = split_upstream_payload(&payload);
    assert!(split.parsed && split.saw_init_complete);
    assert_eq!(split.state, [state, status].concat());
    assert_eq!(split.audio, audio);
    assert_eq!(split.transfer, transfer);
    let junk = split_upstream_payload(&[0, 2, 0]);
    assert!(!junk.parsed && !junk.saw_init_complete);
    assert_eq!(junk.state, vec![0, 2, 0]);
}

#[test]
fn init_complete_opens_the_session_once() {
    let mut link = opened_link();
    let mut cache = StateCache::new();
    let mut f = filter(false);
    let dump = [
        serialize_command(CommandName(*b"_ver"), &[0, 2, 0, 30]),
        serialize_command(CommandName(*b"AMLv"), &[7]),
        serialize_command(CommandName(INIT_COMPLETE), &[1, 0, 0, 0]),
    ]
    .concat();
    let step = link.on_datagram(&reliable(0x8001, 1, &dump), 5, &mut cache, &mut f);
    assert!(link.connected && link.reached_ready && link.init_complete && link.rel.opened);
    assert!(cache.is_ready());
    assert_eq!(cache.version(), Some((2, 30)));
    assert_eq!(step.events.len(), 3);
    assert!(matches!(&step.events[0], UpstreamEvent::StatePayload(p) if names(p) == vec![*b"_ver"]));
    assert!(matches!(&step.events[1], UpstreamEvent::AudioLevels(p) if names(p) == vec![*b"AMLv"]));
    assert!(matches!(step.events[2], UpstreamEvent::Connected));
    assert_eq!(step.send.len(), 1);
    let (h, _) = decode_packet(&step.send[0]).unwrap();
    assert_eq!((h.ack_id, h.unknown), (1, 0x61));
    // A later InCm does not announce the session again.
    let again = serialize_command(CommandName(INIT_COMPLETE), &[1, 0, 0, 0]);
    let step2 = link.on_datagram(&reliable(0x8001, 2, &again), 6, &mut cache, &mut f);
    assert!(step2.events.is_empty() && step2.send.is_empty());
}

#[test]
fn out_of_order_upstream_packet_asks_for_retransmit() {
    let mut link = opened_link();
    let mut cache = StateCache::new();
    let mut f = filter(false);
    let cmd = serialize_command(CommandName(*b"PrgI"), &[0, 0, 0, 1]);
    let step = link.on_datagram(&reliable(0x8001, 5, &cmd), 1, &mut cache, &mut f);
    assert!(step.events.is_empty());
    let (h, _) = decode_packet(&step.send[0]).unwrap();
    assert!(h.flags.contains(PacketFlags::RETRANSMIT_REQUEST));
    assert_eq!(h.retransmit_request, 1);
    assert_eq!(cache.len(), 0);
    // Garbage is ignored but still counts as traffic.
    let none = link.on_datagram(&[1, 2, 3], 7, &mut cache, &mut f);
    assert!(none.send.is_empty() && none.events.is_empty());
    assert_eq!(link.rel.last_recv_at, 7);
}

#[test]
fn upstream_lock_status_reaches_the_filter() {
    let mut link = opened_link();
    let mut cache = StateCache::new();
    let mut f = filter(true);
    let lock = serialize_command(CommandName(*b"LOCK"), &[0, 0, 1, 0]);
    let _ = f.process_payload(local(1), &lock);
    let lkst = serialize_command(CommandName(*b"LKST"), &[0, 0, 1, 0]);
    let _ = link.on_datagram(&reliable(0x8001, 1, &lkst), 1, &mut cache, &mut f);
    // The store is now locked upstream, so a disconnect sends an unlock.
    assert_eq!(f.client_disconnected(local(1)).len(), 1);
}

#[test]
fn queued_commands_go_out_on_tick_and_silence_times_out() {
    let mut link = opened_link();
    let cut = serialize_command(CommandName(*b"DCut"), &[0, 0]);
    link.queue_command(cut.clone());
    link.queue_command(vec![1, 2, 3]);
    assert_eq!(link.pending.len(), 1);
    let out = link.on_tick(10).unwrap();
    let data: Vec<_> = out
        .iter()
        .map(|p| decode_packet(p).unwrap())
        .filter(|(h, p)| h.flags.contains(PacketFlags::ACK_REQUEST) && !p.is_empty())
        .collect();
    assert_eq!(data.len(), 1);
    assert_eq!(data[0].0.packet_id, 1);
    assert_eq!(data[0].1, &cut[..]);
    assert!(link.pending.is_empty());
    assert_eq!(link.on_tick(1011).err(), Some(UpstreamError::IdleTimeout));
}

#[test]
fn session_end_clears_cache_and_locks() {
    let mut cache = StateCache::new();
    cache.ingest_payload(&framed(*b"PrgI", &[0, 0, 0, 1]));
    let mut f = filter(true);
    let lock = serialize_command(CommandName(*b"LOCK"), &[0, 0, 1, 0]);
    let _ = f.process_payload(local(1), &lock);
    assert!(matches!(end_session(&mut cache, &mut f), UpstreamEvent::Disconnected));
    assert_eq!(cache.len(), 0);
    assert_eq!(f.policy().locks.owner_of(0), None);
}

#[test]
fn reconnect_backoff_doubles_to_thirty_seconds_and_resets() {
    let mut b = ReconnectBackoff::new(50);
    assert_eq!(b.base_ms, 200);
    assert_eq!(b.next_delay(false), 200);
    assert_eq!(b.next_delay(false), 400);
    assert_eq!(b.next_delay(false), 800);
    for _ in 0..10 {
        b.next_delay(false);
    }
    assert_eq!(b.next_delay(false), 30_000);
    assert_eq!(b.next_delay(true), 200);
    assert_eq!(b.next_delay(false), 200);
    let mut slow = ReconnectBackoff::new(45_000);
    assert_eq!(slow.next_delay(false), 45_000);
    assert_eq!(slow.next_delay(false), 30_000);
}

fn ready_cache() -> StateCache {
    let mut cache = StateCache::new();
    let mut payload = framed(*b"PrgI", &[0, 0, 0, 4]);
    payload.extend(framed(*b"InCm", &[1, 0, 0, 0]));
    cache.ingest_payload(&payload);
    cache
}

#[test]
fn clients_are_refused_until_upstream_is_ready() {
    let mut table = ClientTable::new();
    let mut f = filter(false);
    let hello = build_client_handshake(0x1111);
    let cold = StateCache::new();
    let step = table.on_datagram(&hello, local(1), 0, true, &cold, &mut f).unwrap();
    assert!(step.reply.is_none());
    let cache = ready_cache();
    let step = table.on_datagram(&hello, local(1), 0, false, &cache, &mut f).unwrap();
    assert!(step.reply.is_none());
    assert_eq!(table.len(), 0);
    assert_eq!(
        table.on_datagram(&[0, 1], local(1), 0, true, &cache, &mut f).err(),
        Some(ProtocolError::TooShort(2))
    );
}

#[test]
fn late_joiner_gets_dump_and_companion_style_cut_is_forwarded() {
    let mut table = ClientTable::new();
    let mut f = filter(false);
    let cache = ready_cache();
    let hello = build_client_handshake(0x1111);
    let step = table.on_datagram(&hello, local(1), 0, true, &cache, &mut f).unwrap();
    let reply = step.reply.unwrap();
    let (h, payload) = decode_packet(&reply).unwrap();
    assert!(h.flags.contains(PacketFlags::HANDSHAKE));
    assert_eq!(h.session_id, 0x8001);
    assert_eq!(payload[0], 0x02);
    // The client acks the HELLO: the dump is queued.
    let ack = build_ack_reply(0x8001, 0, 0);
    table.on_datagram(&ack, local(1), 1, true, &cache, &mut f).unwrap();
    assert!(table.session(local(1)).unwrap().opened);
    let out = table.on_tick(2, 5000, &mut f);
    let dumped: Vec<[u8; 4]> = out
        .packets
        .iter()
        .map(|p| decode_packet(&p.bytes).unwrap())
        .filter(|(h, p)| h.flags.contains(PacketFlags::ACK_REQUEST) && !p.is_empty())
        .flat_map(|(_, p)| names(p))
        .collect();
    assert_eq!(dumped, vec![*b"PrgI", INIT_COMPLETE]);
    // The client's first reliable packet is id 1.
    let cut = serialize_command(CommandName(*b"DCut"), &[0, 0]);
    let step = table.on_datagram(&reliable(0x8001, 1, &cut), local(1), 3, true, &cache, &mut f).unwrap();
    assert!(step.reply.is_none());
    assert_eq!(step.forward, vec![cut]);
    // A second HELLO gets the next session id.
    let step = table.on_datagram(&hello, local(2), 4, true, &cache, &mut f).unwrap();
    assert_eq!(decode_packet(&step.reply.unwrap()).unwrap().0.session_id, 0x8002);
    // Packets from unknown clients are ignored.
    let step = table.on_datagram(&reliable(0x8009, 1, &[]), local(9), 4, true, &cache, &mut f).unwrap();
    assert!(step.reply.is_none() && step.forward.is_empty());
}

#[test]
fn gap_in_client_packets_asks_for_retransmit() {
    let mut table = ClientTable::new();
    let mut f = filter(false);
    let cache = ready_cache();
    table.on_datagram(&build_client_handshake(1), local(1), 0, true, &cache, &mut f).unwrap();
    let cut = serialize_command(CommandName(*b"DCut"), &[0, 0]);
    let step = table.on_datagram(&reliable(0x8001, 3, &cut), local(1), 1, true, &cache, &mut f).unwrap();
    assert!(step.forward.is_empty());
    let (h, _) = decode_packet(&step.reply.unwrap()).unwrap();
    assert!(h.flags.contains(PacketFlags::RETRANSMIT_REQUEST));
    assert_eq!(h.retransmit_request, 1);
}

fn open_client(table: &mut ClientTable, f: &mut CommandFilter, cache: &StateCache, port: u16, sid: u16) {
    table.on_datagram(&build_client_handshake(1), local(port), 0, true, cache, f).unwrap();
    table.on_datagram(&build_ack_reply(sid, 0, 0), local(port), 0, true, cache, f).unwrap();
}

fn payload_names_for(out: &atem_proxy::server::TickOutput, to: ClientAddr) -> Vec<[u8; 4]> {
    out.packets
        .iter()
        .filter(|p| p.to == to)
        .map(|p| decode_packet(&p.bytes).unwrap())
        .filter(|(h, p)| h.flags.contains(PacketFlags::ACK_REQUEST) && !p.is_empty())
        .flat_map(|(_, p)| names(p))
        .collect()
}

#[test]
fn upstream_traffic_fans_out_by_kind() {
    let mut table = ClientTable::new();
    let mut f = filter(true);
    let cache = ready_cache();
    open_client(&mut table, &mut f, &cache, 1, 0x8001);
    open_client(&mut table, &mut f, &cache, 2, 0x8002);
    // Client 2 subscribes to audio levels; client 1 takes the media lock.
    let sub = serialize_command(CommandName(*b"SALN"), &[1]);
    table.on_datagram(&reliable(0x8002, 1, &sub), local(2), 1, true, &cache, &mut f).unwrap();
    let lock = serialize_command(CommandName(*b"LOCK"), &[0, 0, 1, 0]);
    table.on_datagram(&reliable(0x8001, 1, &lock), local(1), 1, true, &cache, &mut f).unwrap();
    // Drain the dumps.
    let _ = table.on_tick(1, 5000, &mut f);
    table.deliver(UpstreamEvent::StatePayload(serialize_command(CommandName(*b"PrvI"), &[0, 0, 0, 2])), &mut f);
    table.deliver(UpstreamEvent::AudioLevels(serialize_command(CommandName(*b"AMLv"), &[1])), &mut f);
    table.deliver(UpstreamEvent::TransferPayload(serialize_command(CommandName(*b"FTDa"), &[0, 0])), &mut f);
    let out = table.on_tick(2, 5000, &mut f);
    assert_eq!(payload_names_for(&out, local(1)), vec![*b"PrvI", *b"FTDa"]);
    assert_eq!(payload_names_for(&out, local(2)), vec![*b"PrvI", *b"AMLv"]);
    // No transfer is active, so nothing is paced.
    assert!(out.packets.iter().all(|p| !p.pace));
    table.deliver(UpstreamEvent::Disconnected, &mut f);
    assert_eq!(table.len(), 0);
}

#[test]
fn transfer_owner_packets_are_paced() {
    let mut table = ClientTable::new();
    let mut f = filter(true);
    let cache = ready_cache();
    open_client(&mut table, &mut f, &cache, 1, 0x8001);
    let lock = serialize_command(CommandName(*b"LOCK"), &[0, 0, 1, 0]);
    table.on_datagram(&reliable(0x8001, 1, &lock), local(1), 1, true, &cache, &mut f).unwrap();
    let ftsd = serialize_command(CommandName(*b"FTSD"), &[0, 0, 0, 1]);
    let step = table.on_datagram(&reliable(0x8001, 2, &ftsd), local(1), 1, true, &cache, &mut f).unwrap();
    assert_eq!(step.forward, vec![ftsd]);
    let out = table.on_tick(2, 5000, &mut f);
    assert!(out.packets.iter().any(|p| p.pace && p.bytes.len() > 12));
    assert!(out.packets.iter().all(|p| p.pace == (p.bytes.len() > 12)));
}

#[test]
fn silent_clients_expire_and_release_their_locks() {
    let mut table = ClientTable::new();
    let mut f = filter(true);
    let cache = ready_cache();
    open_client(&mut table, &mut f, &cache, 1, 0x8001);
    let lock = serialize_command(CommandName(*b"LOCK"), &[0, 0, 1, 0]);
    table.on_datagram(&reliable(0x8001, 1, &lock), local(1), 10, true, &cache, &mut f).unwrap();
    f.on_upstream_lock_status(&serialize_command(CommandName(*b"LKST"), &[0, 0, 1, 0]));
    // A configured idle below 500 ms counts as 500 ms.
    let out = table.on_tick(400, 100, &mut f);
    assert!(out.dead.is_empty());
    let out = table.on_tick(511, 100, &mut f);
    assert_eq!(out.dead, vec![local(1)]);
    assert_eq!(table.len(), 0);
    assert_eq!(out.upstream.len(), 1);
    assert_eq!(names(&out.upstream[0]), vec![*b"LOCK"]);
}

#[test]
fn resync_queues_the_dump_again_for_open_clients() {
    let mut table = ClientTable::new();
    let mut f = filter(false);
    let cache = ready_cache();
    open_client(&mut table, &mut f, &cache, 1, 0x8001);
    let _ = table.on_tick(1, 5000, &mut f);
    table.resync(&cache);
    let out = table.on_tick(2, 5000, &mut f);
    assert_eq!(payload_names_for(&out, local(1)), vec![*b"PrgI", INIT_COMPLETE]);
}

#[test]
fn discovery_texts() {
    assert_eq!(sanitize_instance_name("ATEM Mini Pro"), "ATEM Mini Pro (Proxy)");
    assert_eq!(sanitize_instance_name("  ATEM 2 M/E  "), "ATEM 2 M-E (Proxy)");
    assert_eq!(sanitize_instance_name("   "), "ATEM-Proxy");
    assert_eq!(sanitize_instance_name(""), "ATEM-Proxy");
    assert_eq!(mdns_host_name(Some("studio".to_string())), "studio.local.");
    assert_eq!(mdns_host_name(Some("studio.local".to_string())), "studio.local.");
    assert_eq!(mdns_host_name(Some("studio.local.".to_string())), "studio.local.");
    assert_eq!(mdns_host_name(None), "atem-proxy.local.");
    assert_eq!(release_version_text(Some((8, 1))), "8.1");
    assert_eq!(release_version_text(Some((10, 205))), "10.205");
    assert_eq!(release_version_text(Some((0, 0))), "0.0");
    assert_eq!(release_version_text(None), "0.0");
    assert_eq!(announced_product_name(Some("ATEM Mini".to_string())), "ATEM Mini");
    assert_eq!(announced_product_name(Some(String::new())), "ATEM Proxy");
    assert_eq!(announced_product_name(None), "ATEM Proxy");
    let props = txt_properties("ATEM Mini", "8.1", "10.0.0.2");
    assert_eq!(props.len(), 8);
    assert!(props.contains(&("class".to_string(), "AtemSwitcher".to_string())));
    assert!(props.contains(&("unique id".to_string(), "atem-proxy-10.0.0.2".to_string())));
    assert!(props.contains(&("release version".to_string(), "8.1".to_string())));
    let mut cache = StateCache::new();
    assert!(!announce_info_known(&cache));
    cache.ingest_payload(&framed(*b"_ver", &[0, 8, 0, 1]));
    assert!(!announce_info_known(&cache));
    cache.set_ready(true);
    assert!(announce_info_known(&cache));
}

#[test]
fn settings_rules() {
    assert!(env_flag("1") && env_flag("TRUE") && env_flag("Yes"));
    assert!(!env_flag("0") && !env_flag("on") && !env_flag(""));
    assert_eq!(atem_target("192.168.1.50"), "192.168.1.50:9910");
    assert_eq!(atem_target("192.168.1.50:9911"), "192.168.1.50:9911");
    assert_eq!(layered(1, Some(2), Some(3)), 3);
    assert_eq!(layered(1, Some(2), None), 2);
    assert_eq!(layered(1, None, None), 1);
    let mut p = Profile::default();
    assert_eq!(p.locks.mode, LockMode::Deny);
    assert!(!p.media.enabled && !p.discovery.mdns);
    p.normalize();
    assert_eq!(p.locks.mode, LockMode::Deny);
    p.compat = CompatConfig { softatem: true };
    p.normalize();
    assert_eq!(p.locks, LocksConfig { mode: LockMode::SingleOwner });
    assert!(p.media.enabled);
    assert_eq!(p.discovery, DiscoveryConfig { mdns: true });
}

/// Commands a client receives in its reliable datagrams (acknowledged as it goes).
fn client_commands(out: &atem_proxy::server::TickOutput, to: ClientAddr) -> Vec<[u8; 4]> {
    payload_names_for(out, to)
}

#[test]
fn two_clients_receive_init_dump_from_proxy() {
    // Mock switcher: accepts the HELLO, then sends its init dump as packet 1.
    let mut link = opened_link();
    let mut cache = StateCache::new();
    let mut f = filter(false);
    let mut table = ClientTable::new();
    let mut body = serialize_command(CommandName(*b"_ver"), &[0, 2, 0, 30]);
    body.extend(serialize_command(CommandName(*b"PrgI"), &[0, 0, 0, 1]));
    body.extend(serialize_command(CommandName(*b"InCm"), &[0x01, 0x00, 0x00, 0x00]));
    let step = link.on_datagram(&reliable(0x8001, 1, &body), 1, &mut cache, &mut f);
    for ev in step.events {
        table.deliver(ev, &mut f);
    }
    assert!(link.connected);

    let mut counts = Vec::new();
    for (port, sid) in [(1u16, 0x8001u16), (2, 0x8002)] {
        let hello = build_client_handshake(0x1111);
        let step = table.on_datagram(&hello, local(port), 2, link.connected, &cache, &mut f).unwrap();
        let reply = step.reply.unwrap();
        let (h, payload) = decode_packet(&reply).unwrap();
        assert_eq!(payload.first().copied(), Some(0x02));
        assert!(h.session_id & 0x8000 != 0, "session {:#06x}", h.session_id);
        assert_eq!(h.session_id, sid);
        table.on_datagram(&build_ack_reply(sid, 0, 0), local(port), 3, true, &cache, &mut f).unwrap();
        let out = table.on_tick(4, 5000, &mut f);
        let cmds = client_commands(&out, local(port));
        assert!(cmds.contains(&INIT_COMPLETE));
        counts.push(cmds.len());
    }
    assert!(counts[0] >= 1, "client1 expected init commands, got {}", counts[0]);
    assert!(counts[1] >= 1, "client2 expected init commands, got {}", counts[1]);

    // Companion-style: first client reliable packet id is 1, not 0.
    let cut = serialize_command(CommandName(*b"DCut"), &[0, 0]);
    let step = table.on_datagram(&reliable(0x8001, 1, &cut), local(1), 5, true, &cache, &mut f).unwrap();
    for raw in step.forward {
        link.queue_command(raw);
    }
    let to_switcher = link.on_tick(6).unwrap();
    let cuts = to_switcher
        .iter()
        .map(|p| decode_packet(p).unwrap())
        .filter(|(h, p)| h.flags.contains(PacketFlags::ACK_REQUEST) && !p.is_empty())
        .flat_map(|(_, p)| names(p))
        .filter(|n| n == b"DCut")
        .count();
    assert!(cuts >= 1, "Companion-style packet_id=1 cut was not forwarded upstream");
}
