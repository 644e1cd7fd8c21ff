//! Policy settings of the proxy: lock arbitration, media transfer and discovery,
//! and the rules that layer settings from defaults, a file, the environment and
//! the command line.

use vstd::prelude::*;
use vstd::string::*;

verus! {

/// How client lock requests are handled.
#[derive(Debug, Clone, Copy, PartialEq, Eq, Structural)]
pub enum LockMode {
    /// Lock and unlock requests are dropped.
    Deny,
    /// One client at a time may own each store.
    SingleOwner,
}

impl Default for LockMode {
    fn default() -> (r: Self)
        ensures
            r == LockMode::Deny,
    {
        LockMode::Deny
    }
}

/// Media transfer (FT*) settings.
#[derive(Debug, Clone, Copy, PartialEq, Eq, Structural)]
pub struct MediaConfig {
    /// Forward media transfers between the lock owner and the switcher.
    pub enabled: bool,
    /// Pause before each data datagram sent to the transfer owner, in milliseconds.
    pub chunk_delay_ms: u64,
    /// Soft upload size cap in MiB (0: none); exceeding it is only reported.
    pub max_upload_mb: u64,
}

pub open spec fn default_media_config() -> MediaConfig {
    MediaConfig { enabled: false, chunk_delay_ms: 0, max_upload_mb: 0 }
}

impl Default for MediaConfig {
    fn default() -> (r: Self)
        ensures
            r == default_media_config(),
    {
        MediaConfig { enabled: false, chunk_delay_ms: 0, max_upload_mb: 0 }
    }
}

#[derive(Debug, Clone, Copy, PartialEq, Eq, Structural)]
pub struct CompatConfig {
    /// SoftAtem profile: single-owner locks, media lane and mDNS.
    pub softatem: bool,
}

#[derive(Debug, Clone, Copy, PartialEq, Eq, Structural)]
pub struct LocksConfig {
    pub mode: LockMode,
}

#[derive(Debug, Clone, Copy, PartialEq, Eq, Structural)]
pub struct DiscoveryConfig {
    /// Announce the proxy over mDNS as a Blackmagic switcher.
    pub mdns: bool,
}

/// The policy sections of the proxy configuration.
#[derive(Debug, Clone, Copy, PartialEq, Eq, Structural)]
pub struct Profile {
    pub compat: CompatConfig,
    pub locks: LocksConfig,
    pub media: MediaConfig,
    pub discovery: DiscoveryConfig,
}

pub open spec fn default_profile() -> Profile {
    Profile {
        compat: CompatConfig { softatem: false },
        locks: LocksConfig { mode: LockMode::Deny },
        media: default_media_config(),
        discovery: DiscoveryConfig { mdns: false },
    }
}

/// `p` with the SoftAtem profile applied when it is on.
pub open spec fn normalized(p: Profile) -> Profile {
    if p.compat.softatem {
        Profile {
            locks: LocksConfig { mode: LockMode::SingleOwner },
            media: MediaConfig { enabled: true, ..p.media },
            discovery: DiscoveryConfig { mdns: true },
            ..p
        }
    } else {
        p
    }
}

impl Default for Profile {
    fn default() -> (r: Self)
        ensures
            r == default_profile(),
    {
        Profile {
            compat: CompatConfig { softatem: false },
            locks: LocksConfig { mode: LockMode::Deny },
            media: MediaConfig::default(),
            discovery: DiscoveryConfig { mdns: false },
        }
    }
}

impl Profile {
    /// Applies the SoftAtem profile: single-owner locks, media lane and mDNS.
    pub fn normalize(&mut self)
        ensures
            *final(self) == normalized(*old(self)),
    {
        if self.compat.softatem {
            self.locks.mode = LockMode::SingleOwner;
            self.media.enabled = true;
            self.discovery.mdns = true;
        }
    }
}

/// A setting taken from the command line, else the environment, else the layers below.
pub open spec fn layered_value<T>(below: T, env: Option<T>, cli: Option<T>) -> T {
    match cli {
        Some(v) => v,
        None => match env {
            Some(v) => v,
            None => below,
        },
    }
}

/// Settings precedence: command line over environment over file or defaults.
pub fn layered<T>(below: T, env: Option<T>, cli: Option<T>) -> (r: T)
    ensures
        r == layered_value(below, env, cli),
{
    match cli {
        Some(v) => v,
        None => match env {
            Some(v) => v,
            None => below,
        },
    }
}

/// ASCII lowercase of one character.
pub open spec fn ascii_lower(c: char) -> char {
    if 'A' <= c && c <= 'Z' {
        ((c as u8) + 32) as char
    } else {
        c
    }
}

/// Whether an environment flag value turns a feature on: `1`, `true` or `yes`,
/// ignoring ASCII case.
pub open spec fn env_flag_on(v: Seq<char>) -> bool {
    let l = v.map_values(|c: char| ascii_lower(c));
    l == seq!['1'] || l == seq!['t', 'r', 'u', 'e'] || l == seq!['y', 'e', 's']
}

fn lower_char(c: char) -> (r: char)
    ensures
        r == ascii_lower(c),
{
    if 'A' <= c && c <= 'Z' {
        ((c as u8) + 32) as char
    } else {
        c
    }
}

/// Whether `v`, lowercased, is exactly `word`.
fn lower_equals(v: &str, word: &str) -> (r: bool)
    ensures
        r == (v@.map_values(|c: char| ascii_lower(c)) == word@),
{
    let n = v.unicode_len();
    if n != word.unicode_len() {
        return false;
    }
    let mut i: usize = 0;
    while i < n
        invariant
            n == v@.len(),
            n == word@.len(),
            i <= n,
            forall|j: int| 0 <= j < i ==> ascii_lower(v@[j]) == word@[j],
        decreases n - i,
    {
        if lower_char(v.get_char(i)) != word.get_char(i) {
            assert(v@.map_values(|c: char| ascii_lower(c))[i as int] != word@[i as int]);
            return false;
        }
        i = i + 1;
    }
    assert(v@.map_values(|c: char| ascii_lower(c)) =~= word@);
    true
}

/// Parses a boolean environment flag (`1`, `true` or `yes`, any ASCII case).
pub fn env_flag(v: &str) -> (r: bool)
    ensures
        r == env_flag_on(v@),
{
    let one = "1";
    let t = "true";
    let y = "yes";
    proof {
        reveal_strlit("1");
        reveal_strlit("true");
        reveal_strlit("yes");
        assert(one@ =~= seq!['1']);
        assert(t@ =~= seq!['t', 'r', 'u', 'e']);
        assert(y@ =~= seq!['y', 'e', 's']);
    }
    lower_equals(v, one) || lower_equals(v, t) || lower_equals(v, y)
}

/// The upstream address text: `atem` itself when it names a port, else `atem:9910`.
pub open spec fn atem_target_text(atem: Seq<char>) -> Seq<char> {
    if atem.contains(':') {
        atem
    } else {
        atem + seq![':', '9', '9', '1', '0']
    }
}

fn has_colon(s: &str) -> (r: bool)
    ensures
        r == s@.contains(':'),
{
    let n = s.unicode_len();
    let mut i: usize = 0;
    while i < n
        invariant
            n == s@.len(),
            i <= n,
            forall|j: int| 0 <= j < i ==> s@[j] != ':',
        decreases n - i,
    {
        if s.get_char(i) == ':' {
            return true;
        }
        i = i + 1;
    }
    false
}

/// Upstream `host:port` text for an ATEM host given with or without a port.
pub fn atem_target(atem: &str) -> (r: String)
    ensures
        r@ == atem_target_text(atem@),
{
    if has_colon(atem) {
        String::from_str(atem)
    } else {
        let suffix = ":9910";
        proof {
            reveal_strlit(":9910");
            assert(suffix@ =~= seq![':', '9', '9', '1', '0']);
        }
        let mut out = String::from_str(atem);
        out.append(suffix);
        out
    }
}

/// Settings precedence: a command-line value wins over everything, an environment
/// value wins over the file or default, and the layer below stands only when
/// neither is given.
pub proof fn lemma_layered_precedence<T>(below: T, env: Option<T>, cli: T, env_value: T)
    ensures
        layered_value(below, env, Some(cli)) == cli,
        layered_value(below, Some(env_value), None::<T>) == env_value,
        layered_value(below, None::<T>, None::<T>) == below,
{
}

/// The upstream target always names a port: it contains a `:` and begins with the
/// host text as given; a host without a port gets the ATEM port 9910.
pub proof fn lemma_atem_target_has_port(atem: Seq<char>)
    ensures
        atem_target_text(atem).contains(':'),
        atem_target_text(atem).take(atem.len() as int) == atem,
        !atem.contains(':') ==> atem_target_text(atem).skip(atem.len() as int) == seq![':', '9', '9', '1', '0'],
{
    if !atem.contains(':') {
        let t = atem_target_text(atem);
        assert(t[atem.len() as int] == ':');
        assert(t.take(atem.len() as int) =~= atem);
        assert(t.skip(atem.len() as int) =~= seq![':', '9', '9', '1', '0']);
    }
}

} // verus!
