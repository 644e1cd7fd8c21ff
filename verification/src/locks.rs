//! Single-owner lock arbitration for SoftAtem media/macro stores.

use vstd::prelude::*;
use crate::addr::ClientAddr;
use crate::command::{
    command_bytes, frame_body, frame_name, is_lock_request, is_lock_status, lock_enabled_of,
    lock_name_bytes, lock_request_enabled, lock_request_name, lock_status_name, lock_store_id,
    parse_commands, split_frames, store_id_of, synthesize_unlock, unlock_body, CommandName,
};
use crate::reliable::bytes_list;

verus! {

#[derive(Debug, Clone, Copy, PartialEq, Eq, Structural)]
pub enum LockDecision {
    /// Forward framed command upstream.
    Forward,
    /// Drop (busy / denied).
    Drop,
}

/// Lock state of one store.
#[derive(Debug, Clone, Copy, PartialEq, Eq, Structural)]
pub struct StoreLock {
    pub store: u16,
    pub owner: Option<ClientAddr>,
    /// Upstream reported locked.
    pub upstream_locked: bool,
}

/// Lock states of the stores seen so far, one per store, in order of first use.
/// A vector rather than a hash map: a disconnect walks every store and updates it in
/// place, and a vector gives that walk (and the order of the unlock commands) an
/// exact specification.
#[derive(Debug)]
pub struct LockBroker {
    stores: Vec<StoreLock>,
}

impl View for LockBroker {
    type V = Seq<StoreLock>;

    closed spec fn view(&self) -> Seq<StoreLock> {
        self.stores@
    }
}

/// At most one entry per store.
pub open spec fn locks_wf(s: Seq<StoreLock>) -> bool {
    forall|i: int, j: int|
        0 <= i < s.len() && 0 <= j < s.len() && i != j ==> #[trigger] s[i].store != #[trigger] s[j].store
}

pub open spec fn has_store(s: Seq<StoreLock>, store: u16) -> bool {
    exists|i: int| 0 <= i < s.len() && s[i].store == store
}

/// The position of `store`, when it has an entry.
pub open spec fn store_pos(s: Seq<StoreLock>, store: u16) -> int {
    choose|i: int| 0 <= i < s.len() && s[i].store == store
}

pub open spec fn unlocked_store(store: u16) -> StoreLock {
    StoreLock { store, owner: None, upstream_locked: false }
}

/// The state of `store`: its entry, or unowned and unlocked.
pub open spec fn store_state(s: Seq<StoreLock>, store: u16) -> StoreLock {
    if has_store(s, store) {
        s[store_pos(s, store)]
    } else {
        unlocked_store(store)
    }
}

/// `s` with an entry for `store` (a default one appended when missing).
pub open spec fn with_store(s: Seq<StoreLock>, store: u16) -> Seq<StoreLock> {
    if has_store(s, store) {
        s
    } else {
        s.push(unlocked_store(store))
    }
}

/// `s` with the entry of `store` replaced by `e`.
pub open spec fn put_store(s: Seq<StoreLock>, store: u16, e: StoreLock) -> Seq<StoreLock> {
    let s1 = with_store(s, store);
    s1.update(store_pos(s1, store), e)
}

/// Decision and new state for a client lock request.
pub open spec fn lock_request_spec(s: Seq<StoreLock>, from: ClientAddr, name: Seq<u8>, body: Seq<u8>) -> (
    Seq<StoreLock>,
    LockDecision,
) {
    if !lock_request_name(name) {
        (s, LockDecision::Forward)
    } else {
        match store_id_of(body) {
            None => (s, LockDecision::Drop),
            Some(store) => {
                let e = store_state(s, store);
                if lock_enabled_of(body) {
                    match e.owner {
                        None => (
                            put_store(s, store, StoreLock { owner: Some(from), ..e }),
                            LockDecision::Forward,
                        ),
                        Some(owner) => if owner == from {
                            (with_store(s, store), LockDecision::Forward)
                        } else {
                            (with_store(s, store), LockDecision::Drop)
                        },
                    }
                } else if e.owner == Some(from) || e.owner is None {
                    (put_store(s, store, StoreLock { owner: None, ..e }), LockDecision::Forward)
                } else {
                    (with_store(s, store), LockDecision::Drop)
                }
            },
        }
    }
}

/// Effect of one upstream frame on the lock states.
pub open spec fn lock_status_frame(s: Seq<StoreLock>, f: Seq<u8>) -> Seq<StoreLock> {
    if !lock_status_name(frame_name(f)) {
        s
    } else {
        match store_id_of(frame_body(f)) {
            None => s,
            Some(store) => {
                let locked = lock_enabled_of(frame_body(f));
                let e = store_state(s, store);
                put_store(
                    s,
                    store,
                    StoreLock {
                        upstream_locked: locked,
                        owner: if locked { e.owner } else { None },
                        ..e
                    },
                )
            },
        }
    }
}

pub open spec fn lock_status_frames(s: Seq<StoreLock>, fs: Seq<Seq<u8>>) -> Seq<StoreLock>
    decreases fs.len(),
{
    if fs.len() == 0 {
        s
    } else {
        lock_status_frames(lock_status_frame(s, fs[0]), fs.skip(1))
    }
}

/// Effect of an upstream payload on the lock states.
pub open spec fn lock_status_spec(s: Seq<StoreLock>, payload: Seq<u8>) -> Seq<StoreLock> {
    match split_frames(payload) {
        Ok(fs) => lock_status_frames(s, fs),
        Err(_) => s,
    }
}

/// Lock states once `addr` has gone: it owns nothing.
pub open spec fn release_owner(s: Seq<StoreLock>, addr: ClientAddr) -> Seq<StoreLock> {
    s.map_values(
        |e: StoreLock|
            if e.owner == Some(addr) {
                StoreLock { owner: None, ..e }
            } else {
                e
            },
    )
}

/// Unlock commands for the stores `addr` owned that the switcher reports locked, in order.
pub open spec fn release_unlocks(s: Seq<StoreLock>, addr: ClientAddr) -> Seq<Seq<u8>>
    decreases s.len(),
{
    if s.len() == 0 {
        Seq::empty()
    } else {
        let e = s.last();
        let rest = release_unlocks(s.drop_last(), addr);
        if e.owner == Some(addr) && e.upstream_locked {
            rest.push(command_bytes(lock_name_bytes(), unlock_body(e.store)))
        } else {
            rest
        }
    }
}

/// Stores owned by `addr`, in order.
pub open spec fn owned_stores(s: Seq<StoreLock>, addr: ClientAddr) -> Seq<u16>
    decreases s.len(),
{
    if s.len() == 0 {
        Seq::empty()
    } else {
        let rest = owned_stores(s.drop_last(), addr);
        if s.last().owner == Some(addr) {
            rest.push(s.last().store)
        } else {
            rest
        }
    }
}

pub open spec fn owns_any(s: Seq<StoreLock>, addr: ClientAddr) -> bool {
    exists|i: int| 0 <= i < s.len() && s[i].owner == Some(addr)
}

proof fn lemma_store_pos(s: Seq<StoreLock>, store: u16)
    requires
        has_store(s, store),
    ensures
        0 <= store_pos(s, store) < s.len(),
        s[store_pos(s, store)].store == store,
{
}

proof fn lemma_pos_unique(s: Seq<StoreLock>, store: u16, i: int)
    requires
        locks_wf(s),
        0 <= i < s.len(),
        s[i].store == store,
    ensures
        has_store(s, store),
        store_pos(s, store) == i,
{
    lemma_store_pos(s, store);
}

/// `with_store` and `put_store` keep one entry per store.
proof fn lemma_put_store(s: Seq<StoreLock>, store: u16, e: StoreLock)
    requires
        locks_wf(s),
        e.store == store,
    ensures
        locks_wf(with_store(s, store)),
        has_store(with_store(s, store), store),
        locks_wf(put_store(s, store, e)),
        store_state(put_store(s, store, e), store) == e,
        put_store(s, store, e).len() == with_store(s, store).len(),
        forall|x: u16| x != store ==> store_state(#[trigger] put_store(s, store, e), x) == store_state(s, x),
        forall|x: u16| #[trigger] store_state(with_store(s, store), x) == store_state(s, x),
{
    let s1 = with_store(s, store);
    if !has_store(s, store) {
        assert(s1[s.len() as int].store == store);
        assert(locks_wf(s1)) by {
            assert forall|i: int, j: int|
                0 <= i < s1.len() && 0 <= j < s1.len() && i != j implies #[trigger] s1[i].store
                != #[trigger] s1[j].store by {
                if i < s.len() && j < s.len() {
                    assert(s1[i] == s[i] && s1[j] == s[j]);
                } else if i < s.len() {
                    assert(s1[i] == s[i]);
                    assert(!(s[i].store == store));
                } else {
                    assert(s1[j] == s[j]);
                    assert(!(s[j].store == store));
                }
            }
        }
        assert(has_store(s1, store));
    }
    lemma_store_pos(s1, store);
    let p = store_pos(s1, store);
    let s2 = s1.update(p, e);
    assert(locks_wf(s2)) by {
        assert forall|i: int, j: int|
            0 <= i < s2.len() && 0 <= j < s2.len() && i != j implies #[trigger] s2[i].store
            != #[trigger] s2[j].store by {
            if i != p && j != p {
                assert(s2[i] == s1[i] && s2[j] == s1[j]);
            } else if i == p {
                assert(s2[j] == s1[j]);
            } else {
                assert(s2[i] == s1[i]);
            }
        }
    }
    assert(s2[p].store == store);
    lemma_pos_unique(s2, store, p);
    assert forall|x: u16| x != store implies store_state(#[trigger] put_store(s, store, e), x) == store_state(s, x) by {
        if has_store(s, x) {
            lemma_store_pos(s, x);
            let q = store_pos(s, x);
            assert(s1[q] == s[q]);
            assert(q != p);
            assert(s2[q] == s[q]);
            lemma_pos_unique(s2, x, q);
        } else if has_store(s2, x) {
            lemma_store_pos(s2, x);
            let q = store_pos(s2, x);
            assert(q != p);
            if q < s.len() {
                assert(s2[q] == s[q]);
            } else {
                assert(s2[q] == s1[q]);
            }
        }
    }
    assert forall|x: u16| #[trigger] store_state(with_store(s, store), x) == store_state(s, x) by {
        if !has_store(s, store) {
            if has_store(s, x) {
                lemma_store_pos(s, x);
                let q = store_pos(s, x);
                assert(s1[q] == s[q]);
                lemma_pos_unique(s1, x, q);
            } else if has_store(s1, x) {
                lemma_store_pos(s1, x);
                let q = store_pos(s1, x);
                if q < s.len() {
                    assert(s1[q] == s[q]);
                } else {
                    assert(x == store);
                }
            }
        }
    }
}


impl LockBroker {
    pub fn new() -> (r: Self)
        ensures
            r@ == Seq::<StoreLock>::empty(),
            locks_wf(r@),
    {
        LockBroker { stores: Vec::new() }
    }

    pub fn clear(&mut self)
        ensures
            final(self)@ == Seq::<StoreLock>::empty(),
            locks_wf(final(self)@),
    {
        self.stores.clear();
    }

    /// The position of `store`'s entry.
    fn find(&self, store: u16) -> (r: Option<usize>)
        requires
            locks_wf(self@),
        ensures
            r is None <==> !has_store(self@, store),
            r matches Some(i) ==> i == store_pos(self@, store) && i < self@.len(),
    {
        let mut i: usize = 0;
        while i < self.stores.len()
            invariant
                i <= self.stores@.len(),
                locks_wf(self@),
                forall|j: int| 0 <= j < i ==> self.stores@[j].store != store,
            decreases self.stores@.len() - i,
        {
            if self.stores[i].store == store {
                proof {
                    lemma_pos_unique(self@, store, i as int);
                }
                return Some(i);
            }
            i = i + 1;
        }
        None
    }

    /// Makes sure `store` has an entry and returns its position.
    fn entry_index(&mut self, store: u16) -> (i: usize)
        requires
            locks_wf(old(self)@),
        ensures
            final(self)@ == with_store(old(self)@, store),
            locks_wf(final(self)@),
            i < final(self)@.len(),
            i == store_pos(final(self)@, store),
            final(self)@[i as int] == store_state(old(self)@, store),
    {
        let ghost s0 = self@;
        proof {
            lemma_put_store(self@, store, unlocked_store(store));
        }
        match self.find(store) {
            Some(i) => i,
            None => {
                self.stores.push(StoreLock { store, owner: None, upstream_locked: false });
                let i = self.stores.len() - 1;
                proof {
                    assert(self@ =~= with_store(s0, store));
                    lemma_pos_unique(self@, store, i as int);
                }
                i
            },
        }
    }

    fn set_entry(&mut self, i: usize, e: StoreLock)
        requires
            i < old(self)@.len(),
            old(self)@[i as int].store == e.store,
        ensures
            final(self)@ == old(self)@.update(i as int, e),
    {
        self.stores.set(i, e);
    }

    pub fn owner_of(&self, store: u16) -> (r: Option<ClientAddr>)
        requires
            locks_wf(self@),
        ensures
            r == store_state(self@, store).owner,
    {
        match self.find(store) {
            Some(i) => self.stores[i].owner,
            None => None,
        }
    }

    /// Any store currently owned by this client.
    pub fn stores_owned_by(&self, addr: ClientAddr) -> (r: Vec<u16>)
        ensures
            r@ == owned_stores(self@, addr),
    {
        let mut out = Vec::new();
        let mut i: usize = 0;
        while i < self.stores.len()
            invariant
                i <= self@.len(),
                out@ == owned_stores(self@.take(i as int), addr),
            decreases self@.len() - i,
        {
            proof {
                assert(self@.take(i + 1).drop_last() =~= self@.take(i as int));
            }
            if self.stores[i].owner == Some(addr) {
                out.push(self.stores[i].store);
            }
            i = i + 1;
        }
        assert(self@.take(self@.len() as int) =~= self@);
        out
    }

    /// Decide whether a client lock request may be forwarded.
    pub fn client_lock_request(&mut self, from: ClientAddr, name: CommandName, body: &[u8]) -> (r:
        LockDecision)
        requires
            locks_wf(old(self)@),
        ensures
            locks_wf(final(self)@),
            (final(self)@, r) == lock_request_spec(old(self)@, from, name.0@, body@),
    {
        if !is_lock_request(name) {
            return LockDecision::Forward;
        }
        let store = match lock_store_id(body) {
            Some(s) => s,
            None => {
                return LockDecision::Drop;
            },
        };
        let want_lock = lock_request_enabled(body);
        let ghost s0 = self@;
        let i = self.entry_index(store);
        let entry = self.stores[i];
        proof {
            lemma_put_store(s0, store, StoreLock { owner: Some(from), ..entry });
            lemma_put_store(s0, store, StoreLock { owner: None, ..entry });
        }
        if want_lock {
            match entry.owner {
                None => {
                    self.set_entry(i, StoreLock { owner: Some(from), ..entry });
                    LockDecision::Forward
                },
                Some(owner) => {
                    if owner == from {
                        LockDecision::Forward
                    } else {
                        LockDecision::Drop
                    }
                },
            }
        } else {
            if entry.owner == Some(from) || entry.owner.is_none() {
                self.set_entry(i, StoreLock { owner: None, ..entry });
                LockDecision::Forward
            } else {
                LockDecision::Drop
            }
        }
    }

    /// Ingest upstream lock status (broadcast to all clients).
    pub fn on_upstream_lock_status(&mut self, payload: &[u8])
        requires
            locks_wf(old(self)@),
        ensures
            locks_wf(final(self)@),
            final(self)@ == lock_status_spec(old(self)@, payload@),
    {
        let cmds = match parse_commands(payload) {
            Ok(c) => c,
            Err(_) => {
                return ;
            },
        };
        let ghost fs = split_frames(payload@)->Ok_0;
        let ghost start = self@;
        let mut i: usize = 0;
        assert(fs.skip(0) =~= fs);
        while i < cmds.len()
            invariant
                i <= cmds@.len(),
                crate::command::refs_match(cmds@, fs),
                locks_wf(self@),
                lock_status_frames(start, fs) == lock_status_frames(self@, fs.skip(i as int)),
            decreases cmds@.len() - i,
        {
            let cmd = &cmds[i];
            let ghost f = fs[i as int];
            let ghost before = self@;
            proof {
                assert(cmd.body@ == frame_body(f) && cmd.name.0@ == frame_name(f));
                assert(fs.skip(i as int)[0] == f);
                assert(fs.skip(i as int).skip(1) =~= fs.skip(i + 1));
            }
            if is_lock_status(cmd.name) {
                match lock_store_id(cmd.body) {
                    Some(store) => {
                        let locked = lock_request_enabled(cmd.body);
                        let idx = self.entry_index(store);
                        let entry = self.stores[idx];
                        let ne = StoreLock {
                            upstream_locked: locked,
                            owner: if locked { entry.owner } else { None },
                            ..entry
                        };
                        proof {
                            lemma_put_store(before, store, ne);
                        }
                        self.set_entry(idx, ne);
                    },
                    None => {},
                }
            }
            proof {
                assert(self@ == lock_status_frame(before, f));
            }
            i = i + 1;
        }
    }

    /// Client disconnected: return unlock commands to forward upstream for stores it owned.
    pub fn client_disconnected(&mut self, addr: ClientAddr) -> (r: Vec<Vec<u8>>)
        requires
            locks_wf(old(self)@),
        ensures
            locks_wf(final(self)@),
            final(self)@ == release_owner(old(self)@, addr),
            bytes_list(r@) == release_unlocks(old(self)@, addr),
    {
        let ghost s0 = self@;
        let mut unlocks: Vec<Vec<u8>> = Vec::new();
        let mut i: usize = 0;
        while i < self.stores.len()
            invariant
                i <= self@.len(),
                self@.len() == s0.len(),
                forall|j: int| 0 <= j < i ==> self@[j] == release_owner(s0, addr)[j],
                forall|j: int| i <= j < s0.len() ==> self@[j] == s0[j],
                bytes_list(unlocks@) == release_unlocks(s0.take(i as int), addr),
            decreases self@.len() - i,
        {
            let entry = self.stores[i];
            let ghost ub = unlocks@;
            proof {
                assert(s0.take(i + 1).drop_last() =~= s0.take(i as int));
                assert(s0.take(i + 1).last() == s0[i as int]);
            }
            if entry.owner == Some(addr) {
                self.set_entry(i, StoreLock { owner: None, ..entry });
                if entry.upstream_locked {
                    let u = synthesize_unlock(entry.store);
                    unlocks.push(u);
                    proof {
                        assert(bytes_list(unlocks@) =~= bytes_list(ub).push(u@));
                    }
                }
            }
            i = i + 1;
        }
        proof {
            assert(self@ =~= release_owner(s0, addr));
            assert(s0.take(s0.len() as int) =~= s0);
            assert forall|a: int, b: int|
                0 <= a < self@.len() && 0 <= b < self@.len() && a != b implies #[trigger] self@[a].store
                != #[trigger] self@[b].store by {
                assert(self@[a].store == s0[a].store && self@[b].store == s0[b].store);
            }
        }
        unlocks
    }

    /// True if addr currently owns any store (used by transfer lane).
    pub fn is_owner(&self, addr: ClientAddr) -> (r: bool)
        ensures
            r == owns_any(self@, addr),
    {
        let mut i: usize = 0;
        while i < self.stores.len()
            invariant
                i <= self@.len(),
                forall|j: int| 0 <= j < i ==> self@[j].owner != Some(addr),
            decreases self@.len() - i,
        {
            if self.stores[i].owner == Some(addr) {
                return true;
            }
            i = i + 1;
        }
        false
    }
}


/// Exclusivity: while one client owns a store, another client's lock request for
/// it is dropped and no store's state changes.
pub proof fn lemma_lock_exclusive(
    s: Seq<StoreLock>,
    owner: ClientAddr,
    other: ClientAddr,
    name: Seq<u8>,
    body: Seq<u8>,
)
    requires
        locks_wf(s),
        lock_request_name(name),
        lock_enabled_of(body),
        store_id_of(body) matches Some(st) && store_state(s, st).owner == Some(owner),
        owner != other,
    ensures
        lock_request_spec(s, other, name, body).1 == LockDecision::Drop,
        forall|x: u16| #[trigger] store_state(lock_request_spec(s, other, name, body).0, x) == store_state(s, x),
{
    let st = store_id_of(body)->Some_0;
    lemma_put_store(s, st, store_state(s, st));
}

/// A forwarded lock request leaves the requester owning the store.
pub proof fn lemma_lock_grant(s: Seq<StoreLock>, from: ClientAddr, name: Seq<u8>, body: Seq<u8>)
    requires
        locks_wf(s),
        lock_request_name(name),
        lock_enabled_of(body),
        store_id_of(body) is Some,
        lock_request_spec(s, from, name, body).1 == LockDecision::Forward,
    ensures
        store_state(lock_request_spec(s, from, name, body).0, store_id_of(body)->Some_0).owner
            == Some(from),
{
    let st = store_id_of(body)->Some_0;
    let e = store_state(s, st);
    if has_store(s, st) {
        lemma_store_pos(s, st);
    }
    lemma_put_store(s, st, StoreLock { owner: Some(from), ..e });
}

/// A forwarded unlock request leaves the store without an owner; an unlock from a
/// client that does not own the store is dropped.
pub proof fn lemma_unlock(s: Seq<StoreLock>, from: ClientAddr, name: Seq<u8>, body: Seq<u8>)
    requires
        locks_wf(s),
        lock_request_name(name),
        !lock_enabled_of(body),
        store_id_of(body) is Some,
    ensures
        ({
            let st = store_id_of(body)->Some_0;
            let (s2, d) = lock_request_spec(s, from, name, body);
            &&& d == LockDecision::Forward ==> store_state(s2, st).owner is None
            &&& d == LockDecision::Drop <==> (store_state(s, st).owner is Some
                && store_state(s, st).owner != Some(from))
        }),
{
    let st = store_id_of(body)->Some_0;
    let e = store_state(s, st);
    if has_store(s, st) {
        lemma_store_pos(s, st);
    }
    lemma_put_store(s, st, StoreLock { owner: None, ..e });
}

/// Release on disconnect: afterwards the client owns nothing, and every other
/// client keeps exactly the stores it owned.
pub proof fn lemma_release_on_disconnect(s: Seq<StoreLock>, addr: ClientAddr, other: ClientAddr)
    requires
        other != addr,
    ensures
        !owns_any(release_owner(s, addr), addr),
        release_owner(s, addr).len() == s.len(),
        forall|i: int|
            0 <= i < s.len() ==> ((#[trigger] release_owner(s, addr)[i]).owner == Some(other)
                <==> s[i].owner == Some(other)),
{
}

/// Upstream reporting a store unlocked clears its proxy owner.
pub proof fn lemma_upstream_unlock_clears_owner(s: Seq<StoreLock>, f: Seq<u8>)
    requires
        locks_wf(s),
        lock_status_name(frame_name(f)),
        store_id_of(frame_body(f)) is Some,
        !lock_enabled_of(frame_body(f)),
    ensures
        store_state(lock_status_frame(s, f), store_id_of(frame_body(f))->Some_0).owner is None,
        !store_state(lock_status_frame(s, f), store_id_of(frame_body(f))->Some_0).upstream_locked,
{
    let st = store_id_of(frame_body(f))->Some_0;
    let e = store_state(s, st);
    if has_store(s, st) {
        lemma_store_pos(s, st);
    }
    lemma_put_store(s, st, StoreLock { upstream_locked: false, owner: None, ..e });
}

} // verus!
