//! Exclusive SoftAtem↔ATEM media transfer lane.

use vstd::prelude::*;
use crate::addr::ClientAddr;
use crate::command::{is_transfer_command, lock_store_id, name_is, store_id_of, tag, transfer_name, CommandName};
use crate::config::MediaConfig;
use crate::locks::{locks_wf, owns_any, store_state, LockBroker};

verus! {

#[derive(Debug, Clone, Copy, PartialEq, Eq, Structural)]
pub enum TransferClientDecision {
    Forward,
    Drop,
}

/// The transfer in progress: its owner, store and bytes forwarded so far.
#[derive(Debug, Clone, Copy, PartialEq, Eq, Structural)]
pub struct ActiveTransfer {
    pub owner: ClientAddr,
    pub store: Option<u16>,
    pub bytes_forwarded: u64,
}

#[derive(Debug)]
pub struct TransferLane {
    cfg: MediaConfig,
    active: Option<ActiveTransfer>,
}

pub ghost struct TransferModel {
    pub cfg: MediaConfig,
    pub active: Option<ActiveTransfer>,
}

impl View for TransferLane {
    type V = TransferModel;

    closed spec fn view(&self) -> TransferModel {
        TransferModel { cfg: self.cfg, active: self.active }
    }
}

/// `FTSD` / `FTSU`: a transfer (re)starts.
pub open spec fn transfer_start_name(n: Seq<u8>) -> bool {
    n == tag(0x46, 0x54, 0x53, 0x44) || n == tag(0x46, 0x54, 0x53, 0x55)
}

/// `FTDa`: a data chunk.
pub open spec fn transfer_data_name(n: Seq<u8>) -> bool {
    n == tag(0x46, 0x54, 0x44, 0x61)
}

/// `FTDC` / `FTDE`: the transfer is finished.
pub open spec fn transfer_end_name(n: Seq<u8>) -> bool {
    n == tag(0x46, 0x54, 0x44, 0x43) || n == tag(0x46, 0x54, 0x44, 0x45)
}

pub open spec fn sat_add_u64(a: u64, b: int) -> u64 {
    if a + b > u64::MAX {
        u64::MAX
    } else {
        (a + b) as u64
    }
}

/// Effect of a transfer command from the current owner on its transfer.
pub open spec fn owner_step(a: ActiveTransfer, name: Seq<u8>, body: Seq<u8>) -> Option<ActiveTransfer> {
    let a1 = if transfer_start_name(name) {
        ActiveTransfer {
            store: match store_id_of(body) {
                Some(s) => Some(s),
                None => a.store,
            },
            bytes_forwarded: 0,
            ..a
        }
    } else {
        a
    };
    let a2 = if transfer_data_name(name) {
        ActiveTransfer { bytes_forwarded: sat_add_u64(a1.bytes_forwarded, body.len() as int), ..a1 }
    } else {
        a1
    };
    if transfer_end_name(name) {
        None
    } else {
        Some(a2)
    }
}

/// Decision and new transfer for a client command; `lock_owner` tells whether the
/// client owns any store lock.
pub open spec fn transfer_spec(
    t: TransferModel,
    lock_owner: bool,
    from: ClientAddr,
    name: Seq<u8>,
    body: Seq<u8>,
) -> (Option<ActiveTransfer>, TransferClientDecision) {
    if !t.cfg.enabled {
        (t.active, TransferClientDecision::Drop)
    } else if !transfer_name(name) {
        (t.active, TransferClientDecision::Forward)
    } else if !lock_owner {
        (t.active, TransferClientDecision::Drop)
    } else {
        match t.active {
            None => (
                Some(ActiveTransfer { owner: from, store: store_id_of(body), bytes_forwarded: 0 }),
                TransferClientDecision::Forward,
            ),
            Some(a) => if a.owner == from {
                (owner_step(a, name, body), TransferClientDecision::Forward)
            } else {
                (t.active, TransferClientDecision::Drop)
            },
        }
    }
}

impl TransferLane {
    pub fn new(cfg: MediaConfig) -> (r: Self)
        ensures
            r@ == (TransferModel { cfg, active: None }),
    {
        TransferLane { cfg, active: None }
    }

    pub fn enabled(&self) -> (r: bool)
        ensures
            r == self@.cfg.enabled,
    {
        self.cfg.enabled
    }

    pub fn chunk_delay_ms(&self) -> (r: u64)
        ensures
            r == self@.cfg.chunk_delay_ms,
    {
        self.cfg.chunk_delay_ms
    }

    pub fn clear(&mut self)
        ensures
            final(self)@ == (TransferModel { active: None, ..old(self)@ }),
    {
        self.active = None;
    }

    /// Current transfer owner (receives upstream FT* fan-out).
    pub fn current_owner(&self) -> (r: Option<ClientAddr>)
        ensures
            r == (match self@.active {
                Some(a) => Some(a.owner),
                None => None::<ClientAddr>,
            }),
    {
        match self.active {
            Some(a) => Some(a.owner),
            None => None,
        }
    }

    /// Decide if client may send a transfer command upstream.
    pub fn client_transfer(
        &mut self,
        locks: &LockBroker,
        from: ClientAddr,
        name: CommandName,
        body: &[u8],
    ) -> (r: TransferClientDecision)
        ensures
            final(self)@.cfg == old(self)@.cfg,
            (final(self)@.active, r) == transfer_spec(
                old(self)@,
                owns_any(locks@, from),
                from,
                name.0@,
                body@,
            ),
    {
        if !self.cfg.enabled {
            return TransferClientDecision::Drop;
        }
        if !is_transfer_command(name) {
            return TransferClientDecision::Forward;
        }
        // Must own a lock (typically store 0 / 255).
        if !locks.is_owner(from) {
            return TransferClientDecision::Drop;
        }
        let store = lock_store_id(body);
        match self.active {
            None => {
                self.active = Some(ActiveTransfer { owner: from, store, bytes_forwarded: 0 });
                TransferClientDecision::Forward
            },
            Some(active) => {
                if active.owner == from {
                    let mut a = active;
                    if name_is(&name, 0x46, 0x54, 0x53, 0x44) || name_is(&name, 0x46, 0x54, 0x53, 0x55) {
                        a.store = match store {
                            Some(s) => Some(s),
                            None => a.store,
                        };
                        a.bytes_forwarded = 0;
                    }
                    if name_is(&name, 0x46, 0x54, 0x44, 0x61) {
                        a.bytes_forwarded = a.bytes_forwarded.saturating_add(body.len() as u64);
                    }
                    if name_is(&name, 0x46, 0x54, 0x44, 0x43) || name_is(&name, 0x46, 0x54, 0x44, 0x45) {
                        self.active = None;
                    } else {
                        self.active = Some(a);
                    }
                    TransferClientDecision::Forward
                } else {
                    TransferClientDecision::Drop
                }
            },
        }
    }

    /// Owner that should receive upstream FT* traffic.
    pub fn fanout_owner(&self, locks: &LockBroker) -> (r: Option<ClientAddr>)
        requires
            locks_wf(locks@),
        ensures
            r == fanout_spec(self@, locks@),
    {
        if !self.cfg.enabled {
            return None;
        }
        match self.current_owner() {
            Some(o) => Some(o),
            None => match locks.owner_of(0) {
                Some(o) => Some(o),
                None => locks.owner_of(255),
            },
        }
    }

    pub fn client_disconnected(&mut self, addr: ClientAddr)
        ensures
            final(self)@ == (TransferModel {
                active: match old(self)@.active {
                    Some(a) => if a.owner == addr {
                        None
                    } else {
                        Some(a)
                    },
                    None => None,
                },
                ..old(self)@
            }),
    {
        match self.active {
            Some(a) => {
                if a.owner == addr {
                    self.active = None;
                }
            },
            None => {},
        }
    }
}

/// Who receives upstream transfer traffic: the transfer owner, else the owner of
/// store 0, else the owner of store 255; nobody while the lane is disabled.
pub open spec fn fanout_spec(t: TransferModel, locks: Seq<crate::locks::StoreLock>) -> Option<ClientAddr> {
    if !t.cfg.enabled {
        None
    } else {
        match t.active {
            Some(a) => Some(a.owner),
            None => match store_state(locks, 0).owner {
                Some(o) => Some(o),
                None => store_state(locks, 255).owner,
            },
        }
    }
}

/// Only lock owners move media: a forwarded transfer command comes from a client
/// that owns a store lock, and a disabled lane forwards none.
pub proof fn lemma_transfer_needs_lock(t: TransferModel, lock_owner: bool, from: ClientAddr, name: Seq<u8>, body: Seq<u8>)
    requires
        transfer_name(name),
        transfer_spec(t, lock_owner, from, name, body).1 == TransferClientDecision::Forward,
    ensures
        lock_owner,
        t.cfg.enabled,
{
}

/// Transfer exclusivity: while one client's transfer is active, transfer commands
/// from another client are dropped and the transfer is unchanged.
pub proof fn lemma_transfer_exclusive(t: TransferModel, lock_owner: bool, other: ClientAddr, name: Seq<u8>, body: Seq<u8>)
    requires
        transfer_name(name),
        t.active matches Some(a) && a.owner != other,
    ensures
        transfer_spec(t, lock_owner, other, name, body) == (t.active, TransferClientDecision::Drop),
{
}

} // verus!
