//! Fan-in filter for client commands: policy-gated locks and media transfers,
//! audio-level subscription edges, everything else forwarded upstream.

use vstd::prelude::*;
use vstd::slice::slice_to_vec;
use crate::addr::ClientAddr;
use crate::command::{
    audio_subscribe_name, frame_body, frame_name, is_audio_levels_subscribe, is_lock_request,
    is_transfer_command, lock_request_name, parse_commands, split_frames, transfer_name,
    CommandName,
};
use crate::config::LockMode;
use crate::locks::{
    lock_request_spec, locks_wf, owns_any, release_owner, release_unlocks, LockBroker, LockDecision,
    StoreLock,
};
use crate::reliable::bytes_list;
use crate::transfer::{transfer_spec, TransferClientDecision, TransferLane, TransferModel};

verus! {

#[derive(Debug, Clone, PartialEq, Eq)]
pub enum FilterAction {
    Forward(Vec<u8>),
    Dropped { name: CommandName, reason: &'static str },
    AudioSubscribe { enable: bool, forward: Option<Vec<u8>> },
}

/// Abstract form of a filter action.
pub ghost enum ActionView {
    Forward(Seq<u8>),
    Dropped { name: Seq<u8>, reason: Seq<char> },
    AudioSubscribe { enable: bool, forward: Option<Seq<u8>> },
}

pub open spec fn opt_bytes(o: Option<Vec<u8>>) -> Option<Seq<u8>> {
    match o {
        Some(v) => Some(v@),
        None => None,
    }
}

pub open spec fn action_view(a: FilterAction) -> ActionView {
    match a {
        FilterAction::Forward(v) => ActionView::Forward(v@),
        FilterAction::Dropped { name, reason } => ActionView::Dropped { name: name.0@, reason: reason@ },
        FilterAction::AudioSubscribe { enable, forward } => ActionView::AudioSubscribe {
            enable,
            forward: opt_bytes(forward),
        },
    }
}

pub open spec fn actions_view(v: Seq<FilterAction>) -> Seq<ActionView> {
    v.map_values(|a: FilterAction| action_view(a))
}

/// Policy the filter applies, with the lock and transfer state it keeps.
pub struct FilterPolicy {
    pub lock_mode: LockMode,
    pub locks: LockBroker,
    pub transfer: TransferLane,
}

/// Audio-level subscribers, each address once, and the latest enable command.
struct AudioSubs {
    clients: Vec<ClientAddr>,
    last_enable: Option<Vec<u8>>,
}

/// Fan-in filter: policy-gated lock/transfer, audio subscribe edge, forward the rest.
pub struct CommandFilter {
    audio: AudioSubs,
    policy: FilterPolicy,
}

pub ghost struct FilterModel {
    pub lock_mode: LockMode,
    pub locks: Seq<StoreLock>,
    pub transfer: TransferModel,
    /// Clients subscribed to audio levels, each once.
    pub audio_clients: Seq<ClientAddr>,
    /// The latest audio enable command seen.
    pub last_enable: Option<Seq<u8>>,
}

impl View for CommandFilter {
    type V = FilterModel;

    closed spec fn view(&self) -> FilterModel {
        FilterModel {
            lock_mode: self.policy.lock_mode,
            locks: self.policy.locks@,
            transfer: self.policy.transfer@,
            audio_clients: self.audio.clients@,
            last_enable: opt_bytes(self.audio.last_enable),
        }
    }
}

pub open spec fn no_dups(s: Seq<ClientAddr>) -> bool {
    forall|i: int, j: int| 0 <= i < s.len() && 0 <= j < s.len() && i != j ==> #[trigger] s[i] != #[trigger] s[j]
}

pub open spec fn filter_wf(m: FilterModel) -> bool {
    locks_wf(m.locks) && no_dups(m.audio_clients)
}

/// `s` with `a` added when missing.
pub open spec fn add_client(s: Seq<ClientAddr>, a: ClientAddr) -> Seq<ClientAddr> {
    if s.contains(a) {
        s
    } else {
        s.push(a)
    }
}

/// `s` without `a`.
pub open spec fn remove_client(s: Seq<ClientAddr>, a: ClientAddr) -> Seq<ClientAddr> {
    if s.contains(a) {
        s.remove(s.index_of(a))
    } else {
        s
    }
}

/// An audio command turned into its disable form: the last byte cleared.
pub open spec fn audio_disable(cmd: Seq<u8>) -> Seq<u8> {
    if cmd.len() > 0 {
        cmd.update(cmd.len() - 1, 0u8)
    } else {
        cmd
    }
}

/// Whether an audio subscription body enables levels: its last byte, or `true` when empty.
pub open spec fn audio_enable_of(body: Seq<u8>) -> bool {
    if body.len() > 0 {
        body.last() != 0
    } else {
        true
    }
}

pub open spec fn lock_denied_reason() -> Seq<char> {
    "lock commands denied (enable compat.softatem or locks.mode=single_owner)"@
}

pub open spec fn lock_busy_reason() -> Seq<char> {
    "lock store busy or not owned by this client"@
}

pub open spec fn transfer_disabled_reason() -> Seq<char> {
    "media transfer disabled (enable compat.softatem or media.enabled)"@
}

pub open spec fn transfer_denied_reason() -> Seq<char> {
    "transfer not allowed for this client (need lock ownership)"@
}

/// Effect and action of one client frame.
pub open spec fn filter_frame(m: FilterModel, from: ClientAddr, f: Seq<u8>) -> (FilterModel, ActionView) {
    let n = frame_name(f);
    let body = frame_body(f);
    if lock_request_name(n) {
        match m.lock_mode {
            LockMode::Deny => (m, ActionView::Dropped { name: n, reason: lock_denied_reason() }),
            LockMode::SingleOwner => {
                let (s2, d) = lock_request_spec(m.locks, from, n, body);
                (
                    FilterModel { locks: s2, ..m },
                    if d == LockDecision::Forward {
                        ActionView::Forward(f)
                    } else {
                        ActionView::Dropped { name: n, reason: lock_busy_reason() }
                    },
                )
            },
        }
    } else if transfer_name(n) {
        if !m.transfer.cfg.enabled {
            (m, ActionView::Dropped { name: n, reason: transfer_disabled_reason() })
        } else {
            let (a, d) = transfer_spec(m.transfer, owns_any(m.locks, from), from, n, body);
            (
                FilterModel { transfer: TransferModel { active: a, ..m.transfer }, ..m },
                if d == TransferClientDecision::Forward {
                    ActionView::Forward(f)
                } else {
                    ActionView::Dropped { name: n, reason: transfer_denied_reason() }
                },
            )
        }
    } else if audio_subscribe_name(n) {
        let enable = audio_enable_of(body);
        let clients = if enable {
            add_client(m.audio_clients, from)
        } else {
            remove_client(m.audio_clients, from)
        };
        let before = m.audio_clients.len();
        let after = clients.len();
        let m2 = FilterModel {
            audio_clients: clients,
            last_enable: if enable { Some(f) } else { m.last_enable },
            ..m
        };
        if before == 0 && after > 0 {
            (m2, ActionView::AudioSubscribe { enable: true, forward: Some(f) })
        } else if before > 0 && after == 0 {
            (m2, ActionView::AudioSubscribe { enable: false, forward: Some(audio_disable(f)) })
        } else {
            (m2, ActionView::AudioSubscribe { enable, forward: None })
        }
    } else {
        (m, ActionView::Forward(f))
    }
}

/// Effect and actions of client frames, in order.
pub open spec fn filter_frames(m: FilterModel, from: ClientAddr, fs: Seq<Seq<u8>>) -> (FilterModel, Seq<ActionView>)
    decreases fs.len(),
{
    if fs.len() == 0 {
        (m, Seq::empty())
    } else {
        let prev = filter_frames(m, from, fs.drop_last());
        let step = filter_frame(prev.0, from, fs.last());
        (step.0, prev.1.push(step.1))
    }
}

/// Effect and actions of a client payload; a payload that does not parse is forwarded whole.
pub open spec fn filter_spec(m: FilterModel, from: ClientAddr, payload: Seq<u8>) -> (FilterModel, Seq<ActionView>) {
    match split_frames(payload) {
        Ok(fs) => filter_frames(m, from, fs),
        Err(_) => (m, seq![ActionView::Forward(payload)]),
    }
}

/// Effect and upstream commands of a client going away: its audio subscription
/// ends (a disable goes out when it was the last subscriber), its transfer ends,
/// and its store locks are released.
pub open spec fn disconnect_spec(m: FilterModel, addr: ClientAddr) -> (FilterModel, Seq<Seq<u8>>) {
    let removed = m.audio_clients.contains(addr);
    let clients = remove_client(m.audio_clients, addr);
    let audio_out: Seq<Seq<u8>> = if removed && clients.len() == 0 && m.last_enable is Some {
        seq![audio_disable(m.last_enable->Some_0)]
    } else {
        Seq::empty()
    };
    (
        FilterModel {
            audio_clients: clients,
            locks: release_owner(m.locks, addr),
            transfer: TransferModel {
                active: match m.transfer.active {
                    Some(a) => if a.owner == addr {
                        None
                    } else {
                        Some(a)
                    },
                    None => None,
                },
                ..m.transfer
            },
            ..m
        },
        audio_out + release_unlocks(m.locks, addr),
    )
}

/// A command the filter passes through untouched: no lock, transfer or audio subscription.
pub open spec fn plain_name(n: Seq<u8>) -> bool {
    !lock_request_name(n) && !transfer_name(n) && !audio_subscribe_name(n)
}

/// Every client frame yields exactly one action, in frame order, and a frame that is
/// not a lock, transfer or audio-subscription command is forwarded byte for byte.
pub proof fn lemma_one_action_per_frame(m: FilterModel, from: ClientAddr, fs: Seq<Seq<u8>>)
    ensures
        filter_frames(m, from, fs).1.len() == fs.len(),
        forall|i: int|
            0 <= i < fs.len() && plain_name(frame_name(#[trigger] fs[i])) ==> filter_frames(m, from, fs).1[i]
                == ActionView::Forward(fs[i]),
    decreases fs.len(),
{
    if fs.len() > 0 {
        let init = fs.drop_last();
        lemma_one_action_per_frame(m, from, init);
        let prev = filter_frames(m, from, init);
        let step = filter_frame(prev.0, from, fs.last());
        assert(filter_frames(m, from, fs).1 == prev.1.push(step.1));
        assert forall|i: int|
            0 <= i < fs.len() && plain_name(frame_name(#[trigger] fs[i])) implies filter_frames(m, from, fs).1[i]
                == ActionView::Forward(fs[i]) by {
            if i < fs.len() - 1 {
                assert(init[i] == fs[i]);
            }
        }
    }
}

/// With locks denied and media disabled (the default profile), no client command
/// changes the lock or transfer state, and every lock or transfer command is dropped.
pub proof fn lemma_safe_mode_drops_locks_and_media(m: FilterModel, from: ClientAddr, fs: Seq<Seq<u8>>)
    requires
        m.lock_mode == LockMode::Deny,
        !m.transfer.cfg.enabled,
    ensures
        filter_frames(m, from, fs).0.lock_mode == m.lock_mode,
        filter_frames(m, from, fs).0.locks == m.locks,
        filter_frames(m, from, fs).0.transfer == m.transfer,
        forall|i: int|
            0 <= i < fs.len() && (lock_request_name(frame_name(#[trigger] fs[i])) || transfer_name(
                frame_name(fs[i]),
            )) ==> filter_frames(m, from, fs).1[i] is Dropped,
    decreases fs.len(),
{
    lemma_one_action_per_frame(m, from, fs);
    if fs.len() > 0 {
        let init = fs.drop_last();
        lemma_safe_mode_drops_locks_and_media(m, from, init);
        lemma_one_action_per_frame(m, from, init);
        let prev = filter_frames(m, from, init);
        let step = filter_frame(prev.0, from, fs.last());
        assert(filter_frames(m, from, fs).1 == prev.1.push(step.1));
        assert forall|i: int|
            0 <= i < fs.len() && (lock_request_name(frame_name(#[trigger] fs[i])) || transfer_name(
                frame_name(fs[i]),
            )) implies filter_frames(m, from, fs).1[i] is Dropped by {
            if i < fs.len() - 1 {
                assert(init[i] == fs[i]);
            }
        }
    }
}

/// The same for a whole client payload: in the default profile the lock and
/// transfer state never changes, whatever a client sends.
pub proof fn lemma_safe_mode_payload_keeps_state(m: FilterModel, from: ClientAddr, payload: Seq<u8>)
    requires
        m.lock_mode == LockMode::Deny,
        !m.transfer.cfg.enabled,
    ensures
        filter_spec(m, from, payload).0.locks == m.locks,
        filter_spec(m, from, payload).0.transfer == m.transfer,
{
    if let Ok(fs) = split_frames(payload) {
        lemma_safe_mode_drops_locks_and_media(m, from, fs);
    }
}

/// The first audio-level subscriber's enable goes upstream, and when that client
/// leaves as the last subscriber, its disable (the same command with the last byte
/// cleared) goes upstream first.
pub proof fn lemma_audio_subscribe_then_disconnect(m: FilterModel, addr: ClientAddr, f: Seq<u8>)
    requires
        filter_wf(m),
        m.audio_clients.len() == 0,
        audio_subscribe_name(frame_name(f)),
        audio_enable_of(frame_body(f)),
        !lock_request_name(frame_name(f)),
        !transfer_name(frame_name(f)),
    ensures
        filter_frame(m, addr, f).1 == (ActionView::AudioSubscribe { enable: true, forward: Some(f) }),
        disconnect_spec(filter_frame(m, addr, f).0, addr).1.len() >= 1,
        disconnect_spec(filter_frame(m, addr, f).0, addr).1[0] == audio_disable(f),
        disconnect_spec(filter_frame(m, addr, f).0, addr).0.audio_clients.len() == 0,
{
    lemma_remove_client(m.audio_clients, addr);
    let m2 = filter_frame(m, addr, f).0;
    assert(m2.audio_clients == seq![addr]);
    assert(m2.audio_clients.contains(addr)) by {
        assert(m2.audio_clients[0] == addr);
    }
    lemma_remove_client(m2.audio_clients, addr);
}

/// `enable_cmd` with its last byte cleared.
fn synthesize_audio_disable(enable_cmd: &[u8]) -> (r: Vec<u8>)
    ensures
        r@ == audio_disable(enable_cmd@),
{
    let mut out = slice_to_vec(enable_cmd);
    let n = out.len();
    if n > 0 {
        out.set(n - 1, 0);
    }
    out
}

fn parse_enable_flag(body: &[u8]) -> (r: Option<bool>)
    ensures
        r == (if body@.len() > 0 { Some(body@.last() != 0) } else { None::<bool> }),
{
    if body.len() > 0 {
        Some(body[body.len() - 1] != 0)
    } else {
        None
    }
}


fn client_position(v: &Vec<ClientAddr>, a: ClientAddr) -> (r: Option<usize>)
    requires
        no_dups(v@),
    ensures
        r is None <==> !v@.contains(a),
        r matches Some(i) ==> i < v@.len() && v@[i as int] == a && i == v@.index_of(a),
{
    let mut i: usize = 0;
    while i < v.len()
        invariant
            i <= v@.len(),
            no_dups(v@),
            forall|j: int| 0 <= j < i ==> v@[j] != a,
        decreases v@.len() - i,
    {
        if v[i] == a {
            proof {
                assert(v@.contains(a));
                let k = v@.index_of(a);
                assert(v@[k] == a);
                assert(v@[k] == v@[i as int]);
                assert(k == i);
            }
            return Some(i);
        }
        i = i + 1;
    }
    None
}

proof fn lemma_remove_client(s: Seq<ClientAddr>, a: ClientAddr)
    requires
        no_dups(s),
    ensures
        no_dups(remove_client(s, a)),
        no_dups(add_client(s, a)),
        remove_client(s, a).len() == if s.contains(a) { s.len() - 1 } else { s.len() as int },
        add_client(s, a).len() == if s.contains(a) { s.len() as int } else { s.len() + 1int },
        !remove_client(s, a).contains(a),
        add_client(s, a).contains(a),
{
    if s.contains(a) {
        let i = s.index_of(a);
        let r = s.remove(i);
        assert forall|x: int, y: int| 0 <= x < r.len() && 0 <= y < r.len() && x != y implies #[trigger] r[x]
            != #[trigger] r[y] by {
            let x2 = if x < i { x } else { x + 1 };
            let y2 = if y < i { y } else { y + 1 };
            assert(r[x] == s[x2] && r[y] == s[y2]);
        }
        if r.contains(a) {
            let j = choose|j: int| 0 <= j < r.len() && r[j] == a;
            let j2 = if j < i { j } else { j + 1 };
            assert(s[j2] == a && j2 != i);
        }
    } else {
        let p = s.push(a);
        assert(p[s.len() as int] == a);
        assert forall|x: int, y: int| 0 <= x < p.len() && 0 <= y < p.len() && x != y implies #[trigger] p[x]
            != #[trigger] p[y] by {
            if x < s.len() && y < s.len() {
            } else if x < s.len() {
                assert(p[x] == s[x]);
            } else {
                assert(p[y] == s[y]);
            }
        }
    }
}

impl CommandFilter {
    pub fn new(policy: FilterPolicy) -> (r: Self)
        ensures
            r@ == (FilterModel {
                lock_mode: policy.lock_mode,
                locks: policy.locks@,
                transfer: policy.transfer@,
                audio_clients: Seq::empty(),
                last_enable: None,
            }),
    {
        let r = CommandFilter { audio: AudioSubs { clients: Vec::new(), last_enable: None }, policy };
        r
    }

    pub fn policy(&self) -> (r: &FilterPolicy)
        ensures
            r.lock_mode == self@.lock_mode,
            r.locks@ == self@.locks,
            r.transfer@ == self@.transfer,
    {
        &self.policy
    }

    /// Applies upstream lock status to the lock state the filter consults.
    pub fn on_upstream_lock_status(&mut self, payload: &[u8])
        requires
            filter_wf(old(self)@),
        ensures
            filter_wf(final(self)@),
            final(self)@ == (FilterModel {
                locks: crate::locks::lock_status_spec(old(self)@.locks, payload@),
                ..old(self)@
            }),
    {
        self.policy.locks.on_upstream_lock_status(payload);
    }

    /// Forgets every store lock, as when the upstream session ends.
    pub fn clear_locks(&mut self)
        requires
            filter_wf(old(self)@),
        ensures
            filter_wf(final(self)@),
            final(self)@ == (FilterModel { locks: Seq::empty(), ..old(self)@ }),
    {
        self.policy.locks.clear();
    }

    /// Ends the active media transfer, as when clients are dropped after an upstream disconnect.
    pub fn clear_transfer(&mut self)
        requires
            filter_wf(old(self)@),
        ensures
            filter_wf(final(self)@),
            final(self)@ == (FilterModel {
                transfer: TransferModel { active: None, ..old(self)@.transfer },
                ..old(self)@
            }),
    {
        self.policy.transfer.clear();
    }

    pub fn audio_subscriber_count(&self) -> (r: usize)
        ensures
            r == self@.audio_clients.len(),
    {
        self.audio.clients.len()
    }

    /// Commands to forward upstream on client disconnect (audio disable + lock unlocks).
    pub fn client_disconnected(&mut self, addr: ClientAddr) -> (r: Vec<Vec<u8>>)
        requires
            filter_wf(old(self)@),
        ensures
            filter_wf(final(self)@),
            (final(self)@, bytes_list(r@)) == disconnect_spec(old(self)@, addr),
    {
        let ghost m = self@;
        proof {
            lemma_remove_client(m.audio_clients, addr);
        }
        let mut out: Vec<Vec<u8>> = Vec::new();
        let removed = match client_position(&self.audio.clients, addr) {
            Some(i) => {
                self.audio.clients.remove(i);
                true
            },
            None => false,
        };
        assert(self.audio.clients@ == remove_client(m.audio_clients, addr));
        if removed && self.audio.clients.len() == 0 {
            match &self.audio.last_enable {
                Some(enable_cmd) => {
                    out.push(synthesize_audio_disable(enable_cmd.as_slice()));
                },
                None => {},
            }
        }
        let ghost audio_out = bytes_list(out@);
        self.policy.transfer.client_disconnected(addr);
        let mut unlocks = self.policy.locks.client_disconnected(addr);
        out.append(&mut unlocks);
        proof {
            assert(bytes_list(out@) =~= disconnect_spec(m, addr).1);
            assert(self@ =~= disconnect_spec(m, addr).0);
        }
        out
    }

    /// Classifies the commands of a client payload.
    pub fn process_payload(&mut self, from: ClientAddr, payload: &[u8]) -> (r: Vec<FilterAction>)
        requires
            filter_wf(old(self)@),
        ensures
            filter_wf(final(self)@),
            (final(self)@, actions_view(r@)) == filter_spec(old(self)@, from, payload@),
    {
        let cmds = match parse_commands(payload) {
            Ok(c) => c,
            Err(_) => {
                let mut v = Vec::new();
                v.push(FilterAction::Forward(slice_to_vec(payload)));
                assert(actions_view(v@) =~= seq![ActionView::Forward(payload@)]);
                return v;
            },
        };
        let ghost fs = split_frames(payload@)->Ok_0;
        let ghost start = self@;
        let mut actions: Vec<FilterAction> = Vec::new();
        let mut i: usize = 0;
        assert(fs.take(0) =~= Seq::<Seq<u8>>::empty());
        assert(actions_view(actions@) =~= Seq::<ActionView>::empty());
        while i < cmds.len()
            invariant
                i <= cmds@.len(),
                crate::command::refs_match(cmds@, fs),
                filter_wf(self@),
                (self@, actions_view(actions@)) == filter_frames(start, from, fs.take(i as int)),
            decreases cmds@.len() - i,
        {
            let cmd = &cmds[i];
            let ghost f = fs[i as int];
            let ghost before = self@;
            let ghost acts = actions@;
            proof {
                assert(cmd.raw@ == f && cmd.body@ == frame_body(f) && cmd.name.0@ == frame_name(f));
                assert(fs.take(i + 1).drop_last() =~= fs.take(i as int));
                assert(fs.take(i + 1).last() == f);
                lemma_remove_client(before.audio_clients, from);
            }
            let name = cmd.name;
            let action = if is_lock_request(name) {
                match self.policy.lock_mode {
                    LockMode::Deny => FilterAction::Dropped {
                        name,
                        reason: "lock commands denied (enable compat.softatem or locks.mode=single_owner)",
                    },
                    LockMode::SingleOwner => {
                        match self.policy.locks.client_lock_request(from, name, cmd.body) {
                            LockDecision::Forward => FilterAction::Forward(slice_to_vec(cmd.raw)),
                            LockDecision::Drop => FilterAction::Dropped {
                                name,
                                reason: "lock store busy or not owned by this client",
                            },
                        }
                    },
                }
            } else if is_transfer_command(name) {
                if !self.policy.transfer.enabled() {
                    FilterAction::Dropped {
                        name,
                        reason: "media transfer disabled (enable compat.softatem or media.enabled)",
                    }
                } else {
                    match self.policy.transfer.client_transfer(&self.policy.locks, from, name, cmd.body) {
                        TransferClientDecision::Forward => FilterAction::Forward(slice_to_vec(cmd.raw)),
                        TransferClientDecision::Drop => FilterAction::Dropped {
                            name,
                            reason: "transfer not allowed for this client (need lock ownership)",
                        },
                    }
                }
            } else if is_audio_levels_subscribe(name) {
                let enable = match parse_enable_flag(cmd.body) {
                    Some(b) => b,
                    None => true,
                };
                let before_len = self.audio.clients.len();
                if enable {
                    if client_position(&self.audio.clients, from).is_none() {
                        self.audio.clients.push(from);
                    }
                    self.audio.last_enable = Some(slice_to_vec(cmd.raw));
                } else {
                    match client_position(&self.audio.clients, from) {
                        Some(p) => {
                            self.audio.clients.remove(p);
                        },
                        None => {},
                    }
                }
                assert(self.audio.clients@ == (if enable {
                    add_client(before.audio_clients, from)
                } else {
                    remove_client(before.audio_clients, from)
                }));
                let after_len = self.audio.clients.len();
                if before_len == 0 && after_len > 0 {
                    FilterAction::AudioSubscribe { enable: true, forward: Some(slice_to_vec(cmd.raw)) }
                } else if before_len > 0 && after_len == 0 {
                    FilterAction::AudioSubscribe {
                        enable: false,
                        forward: Some(synthesize_audio_disable(cmd.raw)),
                    }
                } else {
                    FilterAction::AudioSubscribe { enable, forward: None }
                }
            } else {
                FilterAction::Forward(slice_to_vec(cmd.raw))
            };
            actions.push(action);
            proof {
                let step = filter_frame(before, from, f);
                assert(self@ == step.0);
                assert(action_view(action) == step.1);
                assert(actions_view(actions@) =~= actions_view(acts).push(step.1));
            }
            i = i + 1;
        }
        assert(fs.take(cmds@.len() as int) =~= fs);
        actions
    }
}

} // verus!
