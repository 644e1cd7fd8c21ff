//! Coalescing, ordered state cache for late-join init dumps.
//!
//! Upstream state commands are kept by `(command name, identity)`: a newer command
//! with the same key replaces the older one in place, so the dump stays bounded
//! however long the proxy runs. The dump always ends with a synthetic `InCm`.

use vstd::prelude::*;
use vstd::slice::slice_to_vec;
use vstd::string::*;
use vstd::utf8::*;
use indexmap::IndexMap;
use crate::command::{
    command_bytes, command_identity, frame_body, frame_name, identity_of, init_complete_body,
    init_complete_name, is_ephemeral_command, is_lock_command, is_transfer_command, name_is,
    parse_commands, parse_version, product_text, product_text_of, serialize_command, split_frames, synthetic_init_complete, tag,
    CommandName, ephemeral_name, lock_name, transfer_name, is_frame, concat_frames, lemma_name_bytes_are,
    name_bytes_are,
};
use crate::endian::be16;
use crate::ordered_map::{
    entries_insert, has_key, index_map_entries, index_map_insert, index_map_len,
    index_map_new, index_map_values, StateKey,
};
use crate::reliable::{bytes_list, payload_fits};
use crate::text::utf8_str;


verus! {

broadcast use encode_utf8_decode_utf8;

/// Coalescing ordered state cache for late-join init dumps.
pub struct StateCache {
    map: IndexMap<(u32, u8, u32), Vec<u8>>,
    version: Option<(u16, u16)>,
    product: Option<String>,
    ready: bool,
}

/// Abstract state of the cache.
pub ghost struct CacheModel {
    /// Latest framed command per key, in the order keys were first seen.
    pub entries: Seq<(StateKey, Seq<u8>)>,
    pub version: Option<(u16, u16)>,
    pub product: Option<Seq<char>>,
    pub ready: bool,
}

pub open spec fn product_view(p: Option<String>) -> Option<Seq<char>> {
    match p {
        Some(s) => Some(s@),
        None => None,
    }
}

impl View for StateCache {
    type V = CacheModel;

    closed spec fn view(&self) -> CacheModel {
        CacheModel {
            entries: index_map_entries(self.map),
            version: self.version,
            product: product_view(self.product),
            ready: self.ready,
        }
    }
}

/// The four name bytes as one big-endian number.
pub open spec fn name_code(n: Seq<u8>) -> u32 {
    (n[0] as int * 16777216 + n[1] as int * 65536 + n[2] as int * 256 + n[3] as int) as u32
}

/// Up to four identity bytes as one big-endian number.
pub open spec fn ident_code(id: Seq<u8>) -> u32
    decreases id.len(),
{
    if id.len() == 0 {
        0
    } else {
        (ident_code(id.drop_last()) as int * 256 + id.last() as int) as u32
    }
}

/// The cache key of command `name` with body `body`.
pub open spec fn state_key(name: Seq<u8>, body: Seq<u8>) -> StateKey {
    let id = identity_of(name, body);
    (name_code(name), id.len() as u8, ident_code(id))
}

/// The cache key of a frame.
pub open spec fn frame_key(f: Seq<u8>) -> StateKey {
    state_key(frame_name(f), frame_body(f))
}

/// Commands that never enter the cache: high-rate, lock and transfer traffic, and `InCm`.
pub open spec fn uncached_name(n: Seq<u8>) -> bool {
    ephemeral_name(n) || lock_name(n) || transfer_name(n) || n == init_complete_name()
}

/// Well-formed cache: keys are distinct, and each entry holds a framed, cacheable
/// command stored under that command's key.
pub open spec fn cache_wf(m: CacheModel) -> bool {
    &&& forall|i: int, j: int|
        0 <= i < m.entries.len() && 0 <= j < m.entries.len() && i != j ==> #[trigger] m.entries[i].0
            != #[trigger] m.entries[j].0
    &&& forall|i: int|
        0 <= i < m.entries.len() ==> {
            let (k, f) = #[trigger] m.entries[i];
            is_frame(f) && k == frame_key(f) && !uncached_name(frame_name(f))
        }
}

pub open spec fn empty_cache() -> CacheModel {
    CacheModel { entries: Seq::empty(), version: None, product: None, ready: false }
}

pub open spec fn version_of(body: Seq<u8>) -> Option<(u16, u16)> {
    if body.len() >= 4 {
        Some((be16(body[0], body[1]), be16(body[2], body[3])))
    } else {
        None
    }
}

/// Effect of one upstream frame on the cache. A product-name (`_pin`) body that is
/// valid UTF-8 sets the product to its cleaned text (cut at the first NUL, trailing
/// control and space characters removed; possibly empty, and always present by
/// `lemma_utf8_before_nul`). Any other body leaves the known product as it is.
pub open spec fn ingest_frame(m: CacheModel, f: Seq<u8>) -> CacheModel {
    let n = frame_name(f);
    let body = frame_body(f);
    if ephemeral_name(n) || lock_name(n) || transfer_name(n) {
        m
    } else if n == init_complete_name() {
        CacheModel { ready: true, ..m }
    } else {
        let version = if n == tag(0x5f, 0x76, 0x65, 0x72) {
            version_of(body)
        } else {
            m.version
        };
        let product = if n == tag(0x5f, 0x70, 0x69, 0x6e) && valid_utf8(body) {
            product_text_of(body)
        } else {
            m.product
        };
        CacheModel {
            entries: entries_insert(m.entries, frame_key(f), f),
            version,
            product,
            ..m
        }
    }
}

/// Effect of a list of frames, in order.
pub open spec fn ingest_frames(m: CacheModel, fs: Seq<Seq<u8>>) -> CacheModel
    decreases fs.len(),
{
    if fs.len() == 0 {
        m
    } else {
        ingest_frames(ingest_frame(m, fs[0]), fs.skip(1))
    }
}

/// Effect of an upstream payload: its frames in order, or nothing when it does not parse.
pub open spec fn ingest_spec(m: CacheModel, payload: Seq<u8>) -> CacheModel {
    match split_frames(payload) {
        Ok(fs) => ingest_frames(m, fs),
        Err(_) => m,
    }
}

/// The late-join dump: every cached command in order, then a synthetic `InCm`.
pub open spec fn dump_spec(m: CacheModel) -> Seq<Seq<u8>> {
    m.entries.map_values(|e: (StateKey, Seq<u8>)| e.1).push(
        command_bytes(init_complete_name(), init_complete_body()),
    )
}

fn name_code_of(name: &CommandName) -> (r: u32)
    ensures
        r == name_code(name.0@),
{
    (name.0[0] as u32) * 16777216 + (name.0[1] as u32) * 65536 + (name.0[2] as u32) * 256 + (
    name.0[3] as u32)
}

fn ident_code_of(id: &Vec<u8>) -> (r: u32)
    requires
        id@.len() <= 4,
    ensures
        r == ident_code(id@),
{
    let ghost s = id@;
    let mut code: u32 = 0;
    let mut i: usize = 0;
    assert(s.take(0) =~= Seq::<u8>::empty());
    while i < id.len()
        invariant
            i <= s.len(),
            s.len() <= 4,
            s == id@,
            code == ident_code(s.take(i as int)),
            code < (if i == 0 { 1int } else if i == 1 { 256int } else if i == 2 { 65536int } else if i
                == 3 { 16777216int } else { 4294967296int }),
        decreases s.len() - i,
    {
        assert(s.take(i + 1).drop_last() =~= s.take(i as int));
        code = code * 256 + id[i] as u32;
        i = i + 1;
    }
    assert(s.take(s.len() as int) =~= s);
    code
}

fn key_of(name: CommandName, body: &[u8]) -> (k: (u32, u8, u32))
    ensures
        k == state_key(name.0@, body@),
{
    let id = command_identity(name, body);
    (name_code_of(&name), id.len() as u8, ident_code_of(&id))
}

impl StateCache {
    /// Every cache is well formed (see `cache_wf`).
    #[verifier::type_invariant]
    spec fn well_formed(self) -> bool {
        cache_wf(self@)
    }

    pub fn new() -> (r: Self)
        ensures
            r@ == empty_cache(),
    {
        StateCache { map: index_map_new(), version: None, product: None, ready: false }
    }

    pub fn clear(&mut self)
        ensures
            final(self)@ == empty_cache(),
    {
        let mut fresh = index_map_new();
        std::mem::swap(&mut fresh, &mut self.map);
        self.version = None;
        self.product = None;
        self.ready = false;
    }

    pub fn is_ready(&self) -> (r: bool)
        ensures
            r == self@.ready,
    {
        self.ready
    }

    pub fn set_ready(&mut self, ready: bool)
        ensures
            final(self)@ == (CacheModel { ready, ..old(self)@ }),
    {
        proof {
            use_type_invariant(&*self);
        }
        self.ready = ready;
    }

    pub fn version(&self) -> (r: Option<(u16, u16)>)
        ensures
            r == self@.version,
    {
        self.version
    }

    pub fn product(&self) -> (r: Option<String>)
        ensures
            product_view(r) == self@.product,
    {
        match &self.product {
            Some(s) => Some(s.clone()),
            None => None,
        }
    }

    pub fn len(&self) -> (r: usize)
        ensures
            r == self@.entries.len(),
    {
        index_map_len(&self.map)
    }

    /// Ingest upstream packet payload commands into the cache.
    pub fn ingest_payload(&mut self, payload: &[u8])
        ensures
            final(self)@ == ingest_spec(old(self)@, payload@),
    {
        proof {
            use_type_invariant(&*self);
            lemma_split_frames_are_frames(payload@);
        }
        let cmds = match parse_commands(payload) {
            Ok(c) => c,
            Err(_) => {
                return ;
            },
        };
        let ghost fs = split_frames(payload@)->Ok_0;
        let ghost start = self@;
        // The entries are worked on outside the cache, which stays well formed meanwhile.
        let mut map = index_map_new();
        std::mem::swap(&mut map, &mut self.map);
        let mut i: usize = 0;
        assert(fs.skip(0) =~= fs);
        while i < cmds.len()
            invariant
                i <= cmds@.len(),
                crate::command::refs_match(cmds@, fs),
                forall|j: int| 0 <= j < fs.len() ==> is_frame(#[trigger] fs[j]),
                index_map_entries(self.map) == Seq::<(StateKey, Seq<u8>)>::empty(),
                cache_wf(CacheModel { entries: index_map_entries(map), ..self@ }),
                ingest_frames(start, fs) == ingest_frames(
                    CacheModel { entries: index_map_entries(map), ..self@ },
                    fs.skip(i as int),
                ),
            decreases cmds@.len() - i,
        {
            let cmd = &cmds[i];
            let ghost f = fs[i as int];
            let ghost before = CacheModel { entries: index_map_entries(map), ..self@ };
            proof {
                assert(cmd.raw@ == f && cmd.body@ == frame_body(f) && cmd.name.0@ == frame_name(f));
                assert(fs.skip(i as int)[0] == f);
                assert(fs.skip(i as int).skip(1) =~= fs.skip(i + 1));
                lemma_ingest_frame_wf(before, f);
            }
            let name = cmd.name;
            if is_ephemeral_command(name) || is_lock_command(name) || is_transfer_command(name) {
            } else if name_is(&name, 0x49, 0x6e, 0x43, 0x6d) {
                self.ready = true;
            } else {
                if name_is(&name, 0x5f, 0x76, 0x65, 0x72) {
                    self.version = parse_version(cmd.body);
                }
                if name_is(&name, 0x5f, 0x70, 0x69, 0x6e) {
                    if utf8_str(cmd.body).is_some() {
                        proof {
                            crate::command::lemma_utf8_before_nul(cmd.body@);
                        }
                        self.product = product_text(cmd.body);
                    }
                }
                let key = key_of(name, cmd.body);
                index_map_insert(&mut map, key, slice_to_vec(cmd.raw));
            }
            proof {
                assert(CacheModel { entries: index_map_entries(map), ..self@ } == ingest_frame(before, f));
            }
            i = i + 1;
        }
        assert(fs.skip(cmds@.len() as int) =~= Seq::<Seq<u8>>::empty());
        std::mem::swap(&mut map, &mut self.map);
    }

    /// Late-join dump: all current state blobs + trailing synthetic InCm.
    pub fn dump(&self) -> (r: Vec<Vec<u8>>)
        ensures
            bytes_list(r@) == dump_spec(self@),
            r@.len() == self@.entries.len() + 1,
            forall|i: int|
                0 <= i < self@.entries.len() ==> is_frame((#[trigger] r@[i])@) && !uncached_name(
                    frame_name(r@[i]@),
                ),
    {
        proof {
            use_type_invariant(self);
        }
        let mut out = index_map_values(&self.map);
        let ghost before = out@;
        out.push(synthetic_init_complete());
        proof {
            assert(bytes_list(out@) =~= dump_spec(self@));
            assert forall|i: int| 0 <= i < self@.entries.len() implies is_frame((#[trigger] out@[i])@)
                && !uncached_name(frame_name(out@[i]@)) by {
                assert(bytes_list(out@)[i] == out@[i]@);
                assert(dump_spec(self@)[i] == self@.entries[i].1);
            }
        }
        out
    }

    /// Apply a raw payload as if from upstream, then mark the cache ready when it
    /// holds an `InCm`.
    pub fn upsert_raw(&mut self, raw: Vec<u8>)
        ensures
            final(self)@ == upsert_spec(old(self)@, raw@),
    {
        self.ingest_payload(raw.as_slice());
        match parse_commands(raw.as_slice()) {
            Ok(cmds) => {
                let ghost fs = split_frames(raw@)->Ok_0;
                let ghost mid = self@;
                let mut i: usize = 0;
                while i < cmds.len()
                    invariant
                        i <= cmds@.len(),
                        crate::command::refs_match(cmds@, fs),
                        self@ == (if has_init_complete(fs.take(i as int)) {
                            CacheModel { ready: true, ..mid }
                        } else {
                            mid
                        }),
                    decreases cmds@.len() - i,
                {
                    let ghost f = fs[i as int];
                    assert(cmds@[i as int].name.0@ == frame_name(f));
                    if name_is(&cmds[i].name, 0x49, 0x6e, 0x43, 0x6d) {
                        self.set_ready(true);
                    }
                    proof {
                        assert(fs.take(i + 1).drop_last() =~= fs.take(i as int));
                        assert(fs.take(i + 1).last() == f);
                    }
                    i = i + 1;
                }
                assert(fs.take(cmds@.len() as int) =~= fs);
            },
            Err(_) => {},
        }
    }
}

/// Some frame of `fs` is an `InCm`.
pub open spec fn has_init_complete(fs: Seq<Seq<u8>>) -> bool
    decreases fs.len(),
{
    if fs.len() == 0 {
        false
    } else {
        has_init_complete(fs.drop_last()) || frame_name(fs.last()) == init_complete_name()
    }
}

/// Effect of `upsert_raw`: ingest, then `ready` when the payload parses and holds an `InCm`.
pub open spec fn upsert_spec(m: CacheModel, raw: Seq<u8>) -> CacheModel {
    let after = ingest_spec(m, raw);
    match split_frames(raw) {
        Ok(fs) => if has_init_complete(fs) {
            CacheModel { ready: true, ..after }
        } else {
            after
        },
        Err(_) => after,
    }
}

/// Helper to build a framed command.
pub fn framed(name: [u8; 4], body: &[u8]) -> (r: Vec<u8>)
    requires
        body@.len() + 8 <= usize::MAX,
    ensures
        r@ == command_bytes(name@, body@),
{
    serialize_command(CommandName(name), body)
}


/// Every frame that payload splitting yields is a complete framed command.
pub proof fn lemma_split_frames_are_frames(p: Seq<u8>)
    ensures
        split_frames(p) matches Ok(fs) ==> forall|i: int| 0 <= i < fs.len() ==> is_frame(#[trigger] fs[i]),
    decreases p.len(),
{
    if p.len() >= 8 {
        let len = be16(p[0], p[1]) as int;
        if 8 <= len && len <= p.len() {
            lemma_split_frames_are_frames(p.skip(len));
            if let Ok(fs) = split_frames(p) {
                let rest = split_frames(p.skip(len))->Ok_0;
                assert(fs == seq![p.take(len)] + rest);
                assert forall|i: int| 0 <= i < fs.len() implies is_frame(#[trigger] fs[i]) by {
                    if i == 0 {
                        assert(p.take(len)[0] == p[0] && p.take(len)[1] == p[1]);
                    } else {
                        assert(fs[i] == rest[i - 1]);
                    }
                }
            }
        }
    }
}

proof fn lemma_entries_insert(es: Seq<(StateKey, Seq<u8>)>, k: StateKey, v: Seq<u8>)
    ensures
        ({
            let r = entries_insert(es, k, v);
            &&& r.len() == if has_key(es, k) { es.len() } else { es.len() + 1 }
            &&& forall|i: int| 0 <= i < es.len() ==> (#[trigger] r[i]).0 == es[i].0
            &&& forall|i: int| 0 <= i < r.len() ==> (#[trigger] r[i]) == (k, v) || r[i] == es[i]
            &&& has_key(r, k)
            &&& forall|i: int| 0 <= i < r.len() && (#[trigger] r[i]).0 == k ==> r[i].1 == v
                || (exists|j: int| 0 <= j < es.len() && j != i && es[j].0 == k)
        }),
{
    let r = entries_insert(es, k, v);
    if has_key(es, k) {
        crate::ordered_map::lemma_key_position(es, k);
        let c = crate::ordered_map::key_position(es, k);
        assert(r[c] == (k, v));
    } else {
        assert(r[es.len() as int] == (k, v));
    }
}

/// Ingesting one frame keeps the cache well formed.
proof fn lemma_ingest_frame_wf(m: CacheModel, f: Seq<u8>)
    requires
        cache_wf(m),
        is_frame(f),
    ensures
        cache_wf(ingest_frame(m, f)),
{
    let r = ingest_frame(m, f);
    if r.entries != m.entries {
        let k = frame_key(f);
        lemma_entries_insert(m.entries, k, f);
        let es = m.entries;
        let rs = r.entries;
        assert forall|i: int, j: int|
            0 <= i < rs.len() && 0 <= j < rs.len() && i != j implies #[trigger] rs[i].0
            != #[trigger] rs[j].0 by {
            if has_key(es, k) {
                assert(rs[i].0 == es[i].0 && rs[j].0 == es[j].0);
            } else {
                if i < es.len() && j < es.len() {
                    assert(rs[i] == es[i] && rs[j] == es[j]);
                } else if i == es.len() {
                    assert(rs[j] == es[j]);
                } else {
                    assert(rs[i] == es[i]);
                }
            }
        }
        assert forall|i: int| 0 <= i < rs.len() implies {
            let (k2, f2) = #[trigger] rs[i];
            is_frame(f2) && k2 == frame_key(f2) && !uncached_name(frame_name(f2))
        } by {
            if rs[i] != (k, f) {
                assert(rs[i] == es[i]);
            }
        }
    }
}

/// Ingesting frames keeps the cache well formed.
proof fn lemma_ingest_frames_wf(m: CacheModel, fs: Seq<Seq<u8>>)
    requires
        cache_wf(m),
        forall|i: int| 0 <= i < fs.len() ==> is_frame(#[trigger] fs[i]),
    ensures
        cache_wf(ingest_frames(m, fs)),
    decreases fs.len(),
{
    if fs.len() > 0 {
        lemma_ingest_frame_wf(m, fs[0]);
        assert forall|i: int| 0 <= i < fs.skip(1).len() implies is_frame(#[trigger] fs.skip(1)[i]) by {
            assert(fs.skip(1)[i] == fs[i + 1]);
        }
        lemma_ingest_frames_wf(ingest_frame(m, fs[0]), fs.skip(1));
    }
}

/// Coalescing invariant: ingesting any payload into a well-formed cache leaves it
/// well formed, so each `(name, identity)` key holds exactly one entry and no
/// `InCm`, high-rate, lock or transfer command is ever cached.
pub proof fn lemma_ingest_keeps_wf(m: CacheModel, payload: Seq<u8>)
    requires
        cache_wf(m),
    ensures
        cache_wf(ingest_spec(m, payload)),
{
    lemma_split_frames_are_frames(payload);
    if let Ok(fs) = split_frames(payload) {
        lemma_ingest_frames_wf(m, fs);
    }
}

/// A fresh cache is well formed.
pub proof fn lemma_empty_cache_wf()
    ensures
        cache_wf(empty_cache()),
{
}

/// Bounded growth and stable order: ingesting frames keeps every existing key in
/// its place, and every key afterwards is an old key or the key of an ingested frame.
pub proof fn lemma_ingest_frames_keys(m: CacheModel, fs: Seq<Seq<u8>>)
    ensures
        ingest_frames(m, fs).entries.len() >= m.entries.len(),
        forall|i: int|
            0 <= i < m.entries.len() ==> (#[trigger] ingest_frames(m, fs).entries[i]).0
                == m.entries[i].0,
        forall|i: int|
            0 <= i < ingest_frames(m, fs).entries.len() ==> has_key(
                m.entries,
                (#[trigger] ingest_frames(m, fs).entries[i]).0,
            ) || exists|j: int| 0 <= j < fs.len() && frame_key(#[trigger] fs[j]) == ingest_frames(
                m,
                fs,
            ).entries[i].0,
    decreases fs.len(),
{
    if fs.len() > 0 {
        let m1 = ingest_frame(m, fs[0]);
        let rest = fs.skip(1);
        if m1.entries != m.entries {
            lemma_entries_insert(m.entries, frame_key(fs[0]), fs[0]);
        }
        lemma_ingest_frames_keys(m1, rest);
        let r = ingest_frames(m1, rest);
        assert forall|i: int| 0 <= i < m.entries.len() implies (#[trigger] r.entries[i]).0
            == m.entries[i].0 by {
            assert(m1.entries[i].0 == m.entries[i].0);
        }
        assert forall|i: int| 0 <= i < r.entries.len() implies has_key(m.entries, (#[trigger] r.entries[i]).0)
            || exists|j: int| 0 <= j < fs.len() && frame_key(#[trigger] fs[j]) == r.entries[i].0 by {
            let key = r.entries[i].0;
            if has_key(m1.entries, key) {
                let c = choose|x: int| 0 <= x < m1.entries.len() && m1.entries[x].0 == key;
                if m1.entries == m.entries {
                } else if m1.entries[c] == (frame_key(fs[0]), fs[0]) {
                    assert(frame_key(fs[0]) == key);
                } else {
                    assert(m1.entries[c] == m.entries[c]);
                }
            } else {
                let j = choose|j: int| 0 <= j < rest.len() && frame_key(#[trigger] rest[j]) == key;
                assert(rest[j] == fs[j + 1]);
            }
        }
    }
}

/// Updates to cached keys do not grow the cache: when every frame's key is already
/// cached, the number of entries stays the same.
pub proof fn lemma_ingest_known_keys_keeps_len(m: CacheModel, fs: Seq<Seq<u8>>)
    requires
        forall|j: int| 0 <= j < fs.len() ==> has_key(m.entries, frame_key(#[trigger] fs[j])),
    ensures
        ingest_frames(m, fs).entries.len() == m.entries.len(),
        forall|i: int|
            0 <= i < m.entries.len() ==> (#[trigger] ingest_frames(m, fs).entries[i]).0
                == m.entries[i].0,
    decreases fs.len(),
{
    if fs.len() > 0 {
        let m1 = ingest_frame(m, fs[0]);
        let rest = fs.skip(1);
        if m1.entries != m.entries {
            lemma_entries_insert(m.entries, frame_key(fs[0]), fs[0]);
        }
        assert forall|j: int| 0 <= j < rest.len() implies has_key(m1.entries, frame_key(#[trigger] rest[j])) by {
            assert(rest[j] == fs[j + 1]);
            let key = frame_key(fs[j + 1]);
            let c = choose|x: int| 0 <= x < m.entries.len() && m.entries[x].0 == key;
            assert(m1.entries[c].0 == key);
        }
        lemma_ingest_known_keys_keeps_len(m1, rest);
        assert forall|i: int| 0 <= i < m.entries.len() implies (#[trigger] ingest_frames(m, fs).entries[i]).0
            == m.entries[i].0 by {
            assert(m1.entries[i].0 == m.entries[i].0);
        }
    }
}

/// The cached command for a key is the latest one: right after a cacheable frame
/// is ingested, the entry under its key holds that frame.
pub proof fn lemma_ingest_frame_latest_wins(m: CacheModel, f: Seq<u8>)
    requires
        cache_wf(m),
        !uncached_name(frame_name(f)),
    ensures
        ({
            let r = ingest_frame(m, f);
            exists|i: int| 0 <= i < r.entries.len() && r.entries[i] == (frame_key(f), f)
        }),
{
    let r = ingest_frame(m, f);
    lemma_entries_insert(m.entries, frame_key(f), f);
    let c = choose|x: int| 0 <= x < r.entries.len() && r.entries[x].0 == frame_key(f);
    if r.entries[c] != (frame_key(f), f) {
        assert(r.entries[c] == m.entries[c]);
        let j = choose|j: int| 0 <= j < m.entries.len() && j != c && m.entries[j].0 == frame_key(f);
        assert(m.entries[j].0 != m.entries[c].0);
    }
}

/// The dump of a well-formed cache is a valid command stream: parsing its bytes
/// gives back exactly its commands, the last being the synthetic `InCm`.
pub proof fn lemma_dump_parses(m: CacheModel)
    requires
        cache_wf(m),
    ensures
        split_frames(concat_frames(dump_spec(m))) == Ok::<Seq<Seq<u8>>, int>(dump_spec(m)),
        frame_name(dump_spec(m).last()) == init_complete_name(),
        frame_body(dump_spec(m).last()) == init_complete_body(),
{
    let d = dump_spec(m);
    assert forall|i: int| 0 <= i < d.len() implies is_frame(#[trigger] d[i]) by {
        if i < m.entries.len() {
            assert(d[i] == m.entries[i].1);
        } else {
            let c = command_bytes(init_complete_name(), init_complete_body());
            assert(d[i] == c);
            crate::endian::lemma_be16_roundtrip(12);
        }
    }
    crate::command::lemma_split_concat_frames(d);
    crate::command::lemma_split_command_then(init_complete_name(), init_complete_body(), Seq::empty());
}

/// Every cached command fits a datagram behind its header.
pub open spec fn cache_fits(m: CacheModel) -> bool {
    forall|i: int| 0 <= i < m.entries.len() ==> payload_fits(#[trigger] m.entries[i].1)
}

/// The frames of a payload are no longer than the payload.
pub proof fn lemma_split_frames_within(p: Seq<u8>)
    ensures
        split_frames(p) matches Ok(fs) ==> forall|i: int| 0 <= i < fs.len() ==> (#[trigger] fs[i]).len() <= p.len(),
    decreases p.len(),
{
    if p.len() >= 8 {
        let len = be16(p[0], p[1]) as int;
        if 8 <= len && len <= p.len() {
            lemma_split_frames_within(p.skip(len));
            if let Ok(fs) = split_frames(p) {
                let rest = split_frames(p.skip(len))->Ok_0;
                assert(fs == seq![p.take(len)] + rest);
                assert forall|i: int| 0 <= i < fs.len() implies (#[trigger] fs[i]).len() <= p.len() by {
                    if i > 0 {
                        assert(fs[i] == rest[i - 1]);
                    }
                }
            }
        }
    }
}

proof fn lemma_ingest_frames_fits(m: CacheModel, fs: Seq<Seq<u8>>)
    requires
        cache_fits(m),
        forall|i: int| 0 <= i < fs.len() ==> payload_fits(#[trigger] fs[i]),
    ensures
        cache_fits(ingest_frames(m, fs)),
    decreases fs.len(),
{
    if fs.len() > 0 {
        let m1 = ingest_frame(m, fs[0]);
        if m1.entries != m.entries {
            lemma_entries_insert(m.entries, frame_key(fs[0]), fs[0]);
            assert forall|i: int| 0 <= i < m1.entries.len() implies payload_fits(#[trigger] m1.entries[i].1) by {
                if m1.entries[i] != (frame_key(fs[0]), fs[0]) {
                    assert(m1.entries[i] == m.entries[i]);
                }
            }
        }
        assert forall|i: int| 0 <= i < fs.skip(1).len() implies payload_fits(#[trigger] fs.skip(1)[i]) by {
            assert(fs.skip(1)[i] == fs[i + 1]);
        }
        lemma_ingest_frames_fits(m1, fs.skip(1));
    }
}

/// Ingesting a payload that fits a datagram keeps every cached command fitting one.
pub proof fn lemma_ingest_keeps_fits(m: CacheModel, payload: Seq<u8>)
    requires
        cache_fits(m),
        payload_fits(payload),
    ensures
        cache_fits(ingest_spec(m, payload)),
{
    lemma_split_frames_within(payload);
    if let Ok(fs) = split_frames(payload) {
        lemma_ingest_frames_fits(m, fs);
    }
}

/// Every command of the late-join dump of a fitting cache fits a datagram.
pub proof fn lemma_dump_fits(m: CacheModel)
    requires
        cache_fits(m),
    ensures
        forall|j: int| 0 <= j < dump_spec(m).len() ==> payload_fits(#[trigger] dump_spec(m)[j]),
{
    let d = dump_spec(m);
    assert forall|j: int| 0 <= j < d.len() implies payload_fits(#[trigger] d[j]) by {
        if j < m.entries.len() {
            assert(d[j] == m.entries[j].1);
        } else {
            assert(d[j] == command_bytes(init_complete_name(), init_complete_body()));
        }
    }
}

/// Per-mix-effect state is kept per mix effect: two program, preview, transition or
/// fade-to-black commands of one name whose first body bytes (the mix effect)
/// differ get different cache keys, and after both are ingested into a
/// well-formed cache, the late-join dump holds both.
pub proof fn lemma_per_me_commands_kept_apart(m: CacheModel, f1: Seq<u8>, f2: Seq<u8>)
    requires
        cache_wf(m),
        is_frame(f1),
        is_frame(f2),
        frame_name(f1) == frame_name(f2),
        crate::command::per_me_name(frame_name(f1)),
        frame_body(f1).len() >= 1,
        frame_body(f2).len() >= 1,
        frame_body(f1)[0] != frame_body(f2)[0],
    ensures
        frame_key(f1) != frame_key(f2),
        dump_spec(ingest_frames(m, seq![f1, f2])).contains(f1),
        dump_spec(ingest_frames(m, seq![f1, f2])).contains(f2),
{
    let n = frame_name(f1);
    let b1 = frame_body(f1);
    let b2 = frame_body(f2);
    crate::command::lemma_per_me_identity(n, b1);
    crate::command::lemma_per_me_identity(n, b2);
    crate::command::lemma_per_me_cacheable(n);
    assert(seq![b1[0]].drop_last() =~= Seq::<u8>::empty());
    assert(seq![b2[0]].drop_last() =~= Seq::<u8>::empty());
    assert(ident_code(Seq::<u8>::empty()) == 0);
    assert(ident_code(seq![b1[0]]) == b1[0]);
    assert(ident_code(seq![b2[0]]) == b2[0]);
    let k1 = frame_key(f1);
    let k2 = frame_key(f2);
    assert(k1 != k2);

    let m1 = ingest_frame(m, f1);
    lemma_ingest_frame_latest_wins(m, f1);
    lemma_ingest_frame_wf(m, f1);
    let c = choose|i: int| 0 <= i < m1.entries.len() && m1.entries[i] == (k1, f1);
    let r = ingest_frame(m1, f2);
    lemma_ingest_frame_latest_wins(m1, f2);
    lemma_entries_insert(m1.entries, k2, f2);
    assert(r.entries[c] == (k1, f1));
    let c2 = choose|i: int| 0 <= i < r.entries.len() && r.entries[i] == (k2, f2);

    let fs = seq![f1, f2];
    assert(fs.skip(1) =~= seq![f2]);
    assert(seq![f2].skip(1) =~= Seq::<Seq<u8>>::empty());
    assert(ingest_frames(m1, seq![f2]) == ingest_frames(r, Seq::<Seq<u8>>::empty()));
    assert(ingest_frames(m, fs) == r);
    let d = dump_spec(r);
    assert(d[c] == f1);
    assert(d[c2] == f2);
}

/// High-rate, lock and media transfer commands never enter the state cache:
/// ingesting an audio-level or timecode command (`AMLv`, `AMmO`, `FASP`, `FMLv`,
/// `FAtl`, `FAsp`, `Time`, `TimC`, `TCCc`), a lock command (`LOCK`, `PLCK`, `LKST`,
/// `LKOB`) or a transfer command (`FTSD`, `FTSU`, `FTCD`, `FTDa`, `FTUA`, `FTFD`,
/// `FTDC`, `FTDE`, `FTES`) leaves the cache as it was, and an `InCm` only marks it
/// ready.
pub proof fn lemma_uncached_commands(m: CacheModel, f: Seq<u8>)
    ensures
        ({
            let n = frame_name(f);
            ||| name_bytes_are(n, 0x41, 0x4d, 0x4c, 0x76) || name_bytes_are(n, 0x41, 0x4d, 0x6d, 0x4f)
            ||| name_bytes_are(n, 0x46, 0x41, 0x53, 0x50) || name_bytes_are(n, 0x46, 0x4d, 0x4c, 0x76)
            ||| name_bytes_are(n, 0x46, 0x41, 0x74, 0x6c) || name_bytes_are(n, 0x46, 0x41, 0x73, 0x70)
            ||| name_bytes_are(n, 0x54, 0x69, 0x6d, 0x65) || name_bytes_are(n, 0x54, 0x69, 0x6d, 0x43)
            ||| name_bytes_are(n, 0x54, 0x43, 0x43, 0x63)
            ||| name_bytes_are(n, 0x4c, 0x4f, 0x43, 0x4b) || name_bytes_are(n, 0x50, 0x4c, 0x43, 0x4b)
            ||| name_bytes_are(n, 0x4c, 0x4b, 0x53, 0x54) || name_bytes_are(n, 0x4c, 0x4b, 0x4f, 0x42)
            ||| name_bytes_are(n, 0x46, 0x54, 0x53, 0x44) || name_bytes_are(n, 0x46, 0x54, 0x53, 0x55)
            ||| name_bytes_are(n, 0x46, 0x54, 0x43, 0x44) || name_bytes_are(n, 0x46, 0x54, 0x44, 0x61)
            ||| name_bytes_are(n, 0x46, 0x54, 0x55, 0x41) || name_bytes_are(n, 0x46, 0x54, 0x46, 0x44)
            ||| name_bytes_are(n, 0x46, 0x54, 0x44, 0x43) || name_bytes_are(n, 0x46, 0x54, 0x44, 0x45)
            ||| name_bytes_are(n, 0x46, 0x54, 0x45, 0x53)
        }) ==> ingest_frame(m, f) == m,
        name_bytes_are(frame_name(f), 0x49, 0x6e, 0x43, 0x6d) ==> ingest_frame(m, f) == (CacheModel {
            ready: true,
            ..m
        }),
{
    let n = frame_name(f);
    lemma_name_bytes_are(n, 0x41, 0x4d, 0x4c, 0x76);
    lemma_name_bytes_are(n, 0x41, 0x4d, 0x6d, 0x4f);
    lemma_name_bytes_are(n, 0x46, 0x41, 0x53, 0x50);
    lemma_name_bytes_are(n, 0x46, 0x4d, 0x4c, 0x76);
    lemma_name_bytes_are(n, 0x46, 0x41, 0x74, 0x6c);
    lemma_name_bytes_are(n, 0x46, 0x41, 0x73, 0x70);
    lemma_name_bytes_are(n, 0x54, 0x69, 0x6d, 0x65);
    lemma_name_bytes_are(n, 0x54, 0x69, 0x6d, 0x43);
    lemma_name_bytes_are(n, 0x54, 0x43, 0x43, 0x63);
    lemma_name_bytes_are(n, 0x4c, 0x4f, 0x43, 0x4b);
    lemma_name_bytes_are(n, 0x50, 0x4c, 0x43, 0x4b);
    lemma_name_bytes_are(n, 0x4c, 0x4b, 0x53, 0x54);
    lemma_name_bytes_are(n, 0x4c, 0x4b, 0x4f, 0x42);
    lemma_name_bytes_are(n, 0x46, 0x54, 0x53, 0x44);
    lemma_name_bytes_are(n, 0x46, 0x54, 0x53, 0x55);
    lemma_name_bytes_are(n, 0x46, 0x54, 0x43, 0x44);
    lemma_name_bytes_are(n, 0x46, 0x54, 0x44, 0x61);
    lemma_name_bytes_are(n, 0x46, 0x54, 0x55, 0x41);
    lemma_name_bytes_are(n, 0x46, 0x54, 0x46, 0x44);
    lemma_name_bytes_are(n, 0x46, 0x54, 0x44, 0x43);
    lemma_name_bytes_are(n, 0x46, 0x54, 0x44, 0x45);
    lemma_name_bytes_are(n, 0x46, 0x54, 0x45, 0x53);
    lemma_name_bytes_are(n, 0x49, 0x6e, 0x43, 0x6d);
    if n == tag(0x49, 0x6e, 0x43, 0x6d) {
        crate::command::lemma_ascii_text(n, seq!['I', 'n', 'C', 'm']);
        assert(decode_utf8(n).take(4) =~= decode_utf8(n));
        assert(!ephemeral_name(n));
        assert(!lock_name(n));
        assert(!transfer_name(n));
    }
}

/// The firmware version comes from `_ver`: ingesting a `_ver` command whose body has
/// at least four bytes records major = bytes 0-1 and minor = bytes 2-3, each
/// big-endian; a shorter body leaves the version unknown.
pub proof fn lemma_version_from_ver(m: CacheModel, f: Seq<u8>)
    requires
        name_bytes_are(frame_name(f), 0x5f, 0x76, 0x65, 0x72),
    ensures
        frame_body(f).len() >= 4 ==> ingest_frame(m, f).version == Some(
            (
                (frame_body(f)[0] as int * 256 + frame_body(f)[1] as int) as u16,
                (frame_body(f)[2] as int * 256 + frame_body(f)[3] as int) as u16,
            ),
        ),
        frame_body(f).len() < 4 ==> ingest_frame(m, f).version == None::<(u16, u16)>,
{
    let n = frame_name(f);
    lemma_name_bytes_are(n, 0x5f, 0x76, 0x65, 0x72);
    crate::command::lemma_ascii_text(n, seq!['_', 'v', 'e', 'r']);
    assert(tag(0x5f, 0x76, 0x65, 0x72)[0] == 0x5f);
    assert(!ephemeral_name(n));
    assert(!lock_name(n));
    assert(!transfer_name(n));
    assert(n != init_complete_name());
}

} // verus!
