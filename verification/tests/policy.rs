//! Lock arbitration, the media transfer lane and the client command filter.

use atem_proxy::addr::ClientAddr;
use atem_proxy::config::{LockMode, MediaConfig};
use atem_proxy::filter::{CommandFilter, FilterAction, FilterPolicy};
use atem_proxy::locks::{LockBroker, LockDecision};
use atem_proxy::transfer::{TransferClientDecision, TransferLane};
use atem_proxy::{parse_commands, serialize_command, CommandName};

/// 127.0.0.1 and a port.
fn local(port: u16) -> ClientAddr {
    ClientAddr::new(false, 0x7f00_0001, port)
}

fn lock_cmd(store: u16, enabled: bool) -> (CommandName, Vec<u8>) {
    let mut body = store.to_be_bytes().to_vec();
    body.push(u8::from(enabled));
    body.push(0);
    (CommandName(*b"LOCK"), body)
}

fn deny_filter() -> CommandFilter {
    let locks = LockBroker::new();
    let transfer = TransferLane::new(MediaConfig::default());
    CommandFilter::new(FilterPolicy { lock_mode: LockMode::Deny, locks, transfer })
}

fn softatem_filter() -> CommandFilter {
    let locks = LockBroker::new();
    let transfer = TransferLane::new(MediaConfig { enabled: true, ..Default::default() });
    CommandFilter::new(FilterPolicy { lock_mode: LockMode::SingleOwner, locks, transfer })
}

#[test]
fn drops_lock_and_forwards_cut_when_denied() {
    let mut f = deny_filter();
    let addr = local(1);
    let mut payload = serialize_command(CommandName(*b"LOCK"), &[0, 0, 1, 0]);
    payload.extend(serialize_command(CommandName(*b"DCut"), &[0, 0]));
    let actions = f.process_payload(addr, &payload);
    assert!(matches!(actions[0], FilterAction::Dropped { .. }));
    assert!(matches!(actions[1], FilterAction::Forward(_)));
}

#[test]
fn softatem_allows_lock_for_owner() {
    let mut f = softatem_filter();
    let addr = local(1);
    let payload = serialize_command(CommandName(*b"LOCK"), &[0, 0, 1, 0]);
    let actions = f.process_payload(addr, &payload);
    assert!(matches!(actions[0], FilterAction::Forward(_)));
}

#[test]
fn last_audio_client_disconnect_returns_disable() {
    let mut f = deny_filter();
    let addr = local(1);
    let sub = serialize_command(CommandName(*b"SALN"), &[1]);
    let actions = f.process_payload(addr, &sub);
    assert!(matches!(
        &actions[0],
        FilterAction::AudioSubscribe {
            enable: true,
            forward: Some(_)
        }
    ));
    let cmds = f.client_disconnected(addr);
    assert_eq!(*cmds[0].last().unwrap(), 0);
}

#[test]
fn single_owner_exclusive() {
    let mut b = LockBroker::new();
    let a = local(1);
    let c = local(2);
    let (name, body) = lock_cmd(0, true);
    assert_eq!(b.client_lock_request(a, name, &body), LockDecision::Forward);
    assert_eq!(b.client_lock_request(c, name, &body), LockDecision::Drop);
    let (uname, ubody) = lock_cmd(0, false);
    assert_eq!(b.client_lock_request(a, uname, &ubody), LockDecision::Forward);
    assert_eq!(b.client_lock_request(c, name, &body), LockDecision::Forward);
}

#[test]
fn disconnect_emits_unlock_when_upstream_locked() {
    let mut b = LockBroker::new();
    let a = local(1);
    let (name, body) = lock_cmd(0, true);
    assert_eq!(b.client_lock_request(a, name, &body), LockDecision::Forward);
    // Simulate upstream LKST locked
    let lkst = serialize_command(CommandName(*b"LKST"), &[0, 0, 1, 0]);
    b.on_upstream_lock_status(&lkst);
    let unlocks = b.client_disconnected(a);
    assert_eq!(unlocks.len(), 1);
}

#[test]
fn non_owner_cannot_transfer() {
    let locks = LockBroker::new();
    let mut lane = TransferLane::new(MediaConfig { enabled: true, ..Default::default() });
    let a = local(1);
    let body = [0, 0, 0, 1];
    assert_eq!(
        lane.client_transfer(&locks, a, CommandName(*b"FTSD"), &body),
        TransferClientDecision::Drop
    );
}

#[test]
fn owner_can_transfer() {
    let mut locks = LockBroker::new();
    let a = local(1);
    let lock_body = [0, 0, 1, 0];
    assert_eq!(
        locks.client_lock_request(a, CommandName(*b"LOCK"), &lock_body),
        LockDecision::Forward
    );
    let mut lane = TransferLane::new(MediaConfig { enabled: true, ..Default::default() });
    assert_eq!(
        lane.client_transfer(&locks, a, CommandName(*b"FTSD"), &[0, 0]),
        TransferClientDecision::Forward
    );
}

#[test]
fn softatem_second_client_denied_media_lock() {
    let mut f = softatem_filter();
    let a = local(1001);
    let b = local(1002);
    let lock = serialize_command(CommandName(*b"LOCK"), &[0, 0, 1, 0]);
    assert!(matches!(f.process_payload(a, &lock)[0], FilterAction::Forward(_)));
    assert!(matches!(f.process_payload(b, &lock)[0], FilterAction::Dropped { .. }));
}

#[test]
fn softatem_owner_can_send_ftsd() {
    let mut f = softatem_filter();
    let a = local(1001);
    let lock = serialize_command(CommandName(*b"LOCK"), &[0, 0, 1, 0]);
    let ftsd = serialize_command(CommandName(*b"FTSD"), &[0, 0, 0, 1]);
    assert!(matches!(f.process_payload(a, &lock)[0], FilterAction::Forward(_)));
    assert!(matches!(f.process_payload(a, &ftsd)[0], FilterAction::Forward(_)));
}

#[test]
fn deny_mode_still_blocks_lock() {
    let mut f = deny_filter();
    let a = local(1);
    let lock = serialize_command(CommandName(*b"LOCK"), &[0, 0, 1, 0]);
    assert!(matches!(f.process_payload(a, &lock)[0], FilterAction::Dropped { .. }));
}

#[test]
fn disconnect_releases_lock_with_unlock_cmd() {
    let mut f = softatem_filter();
    let a = local(1001);
    let lock = serialize_command(CommandName(*b"LOCK"), &[0, 0, 1, 0]);
    let _ = f.process_payload(a, &lock);
    // Mark upstream locked so disconnect emits unlock
    let lkst = serialize_command(CommandName(*b"LKST"), &[0, 0, 1, 0]);
    f.on_upstream_lock_status(&lkst);
    let cmds = f.client_disconnected(a);
    assert!(
        cmds.iter().any(|c| c.windows(4).any(|w| w == b"LOCK")),
        "expected unlock LOCK command"
    );
}

// Further cases.

#[test]
fn denied_lock_reason_and_verbatim_forward() {
    let mut f = deny_filter();
    let cut = serialize_command(CommandName(*b"DCut"), &[0, 0]);
    let mut payload = serialize_command(CommandName(*b"PLCK"), &[0, 1, 1, 0]);
    payload.extend(cut.clone());
    payload.extend(serialize_command(CommandName(*b"FTSD"), &[0, 0, 0, 1]));
    let actions = f.process_payload(local(7), &payload);
    assert_eq!(actions.len(), 3);
    assert_eq!(
        actions[0],
        FilterAction::Dropped {
            name: CommandName(*b"PLCK"),
            reason: "lock commands denied (enable compat.softatem or locks.mode=single_owner)",
        }
    );
    assert_eq!(actions[1], FilterAction::Forward(cut));
    assert_eq!(
        actions[2],
        FilterAction::Dropped {
            name: CommandName(*b"FTSD"),
            reason: "media transfer disabled (enable compat.softatem or media.enabled)",
        }
    );
}

#[test]
fn unparsable_client_payload_is_forwarded_whole() {
    let mut f = deny_filter();
    let junk = vec![0u8, 3, 0, 0, 1];
    assert_eq!(f.process_payload(local(1), &junk), vec![FilterAction::Forward(junk.clone())]);
}

#[test]
fn busy_store_gives_busy_reason() {
    let mut f = softatem_filter();
    let lock = serialize_command(CommandName(*b"LOCK"), &[0, 0, 1, 0]);
    let _ = f.process_payload(local(1), &lock);
    assert_eq!(
        f.process_payload(local(2), &lock)[0],
        FilterAction::Dropped {
            name: CommandName(*b"LOCK"),
            reason: "lock store busy or not owned by this client",
        }
    );
    // Without a lock the second client cannot move media either.
    let ftsd = serialize_command(CommandName(*b"FTSD"), &[0, 0, 0, 1]);
    assert_eq!(
        f.process_payload(local(2), &ftsd)[0],
        FilterAction::Dropped {
            name: CommandName(*b"FTSD"),
            reason: "transfer not allowed for this client (need lock ownership)",
        }
    );
}

#[test]
fn audio_subscription_edges() {
    let mut f = deny_filter();
    let on = serialize_command(CommandName(*b"SALN"), &[1]);
    let off = serialize_command(CommandName(*b"SALN"), &[0]);
    // First subscriber: the enable goes upstream.
    assert_eq!(
        f.process_payload(local(1), &on),
        vec![FilterAction::AudioSubscribe { enable: true, forward: Some(on.clone()) }]
    );
    // Second subscriber: nothing upstream.
    assert_eq!(
        f.process_payload(local(2), &on),
        vec![FilterAction::AudioSubscribe { enable: true, forward: None }]
    );
    assert_eq!(f.audio_subscriber_count(), 2);
    // One leaves: still subscribed upstream.
    assert_eq!(
        f.process_payload(local(1), &off),
        vec![FilterAction::AudioSubscribe { enable: false, forward: None }]
    );
    // Last leaves: the disable (the command with its last byte cleared) goes upstream.
    assert_eq!(
        f.process_payload(local(2), &off),
        vec![FilterAction::AudioSubscribe { enable: false, forward: Some(off.clone()) }]
    );
    assert_eq!(f.audio_subscriber_count(), 0);
    // A disconnect of a non-subscriber sends nothing.
    assert!(f.client_disconnected(local(3)).is_empty());
}

#[test]
fn lock_owner_queries_and_release() {
    let mut b = LockBroker::new();
    let (name, body) = lock_cmd(3, true);
    assert_eq!(b.client_lock_request(local(1), name, &body), LockDecision::Forward);
    assert_eq!(b.owner_of(3), Some(local(1)));
    assert_eq!(b.stores_owned_by(local(1)), vec![3]);
    assert!(b.is_owner(local(1)));
    // Not locked upstream: a disconnect releases without an unlock command.
    assert!(b.client_disconnected(local(1)).is_empty());
    assert_eq!(b.owner_of(3), None);
    // An upstream unlock clears an owner.
    assert_eq!(b.client_lock_request(local(2), name, &body), LockDecision::Forward);
    let unlocked = serialize_command(CommandName(*b"LKST"), &[0, 3, 0, 0]);
    b.on_upstream_lock_status(&unlocked);
    assert_eq!(b.owner_of(3), None);
    b.clear();
    assert!(!b.is_owner(local(2)));
}

#[test]
fn unlock_command_wire_shape() {
    let mut b = LockBroker::new();
    let (name, body) = lock_cmd(0, true);
    let _ = b.client_lock_request(local(1), name, &body);
    b.on_upstream_lock_status(&serialize_command(CommandName(*b"LKST"), &[0, 0, 1, 0]));
    let unlocks = b.client_disconnected(local(1));
    let cmds = parse_commands(&unlocks[0]).unwrap();
    assert_eq!(cmds[0].name, CommandName(*b"LOCK"));
    assert_eq!(cmds[0].body, &[0, 0, 0, 0]);
}

#[test]
fn transfer_fanout_and_disconnect() {
    let mut locks = LockBroker::new();
    let lock_body = [0, 0, 1, 0];
    let _ = locks.client_lock_request(local(1), CommandName(*b"LOCK"), &lock_body);
    let mut lane = TransferLane::new(MediaConfig { enabled: true, chunk_delay_ms: 4, max_upload_mb: 0 });
    // With no active transfer the store-0 lock owner gets upstream transfer traffic.
    assert_eq!(lane.fanout_owner(&locks), Some(local(1)));
    assert_eq!(lane.client_transfer(&locks, local(1), CommandName(*b"FTSD"), &[0, 0]), TransferClientDecision::Forward);
    assert_eq!(lane.current_owner(), Some(local(1)));
    assert_eq!(lane.chunk_delay_ms(), 4);
    lane.client_disconnected(local(1));
    assert_eq!(lane.current_owner(), None);
    let disabled = TransferLane::new(MediaConfig::default());
    assert!(!disabled.enabled());
    assert_eq!(disabled.fanout_owner(&locks), None);
}
