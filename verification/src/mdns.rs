//! What the proxy announces over mDNS (Bonjour `_blackmagic._tcp`): the service
//! instance name, the host name, the product name and release text, and the TXT
//! properties that SoftAtem and Companion look for.

use vstd::prelude::*;
use vstd::string::*;
use crate::cache::StateCache;
use crate::text::{
    is_whitespace_char, seq_ends_with, spec_is_whitespace, str_ends_with, trim_owned, trim_ws,
};

verus! {

/// The mDNS service type the proxy registers under.
pub const SERVICE_TYPE: &'static str = "_blackmagic._tcp.local.";

/// Characters kept as they are in an instance name: ASCII letters and digits, `-` and space.
pub open spec fn instance_char_ok(c: char) -> bool {
    ||| ('a' <= c && c <= 'z')
    ||| ('A' <= c && c <= 'Z')
    ||| ('0' <= c && c <= '9')
    ||| c == '-'
    ||| c == ' '
}

/// A character of an instance name: itself when allowed, else `-`.
pub open spec fn instance_char(c: char) -> char {
    if instance_char_ok(c) {
        c
    } else {
        '-'
    }
}

/// The mDNS instance name for a product name: disallowed characters become `-`,
/// surrounding whitespace is trimmed, and ` (Proxy)` is appended; an empty result
/// gives `ATEM-Proxy`.
pub open spec fn instance_name_text(name: Seq<char>) -> Seq<char> {
    let t = trim_ws(name.map_values(|c: char| instance_char(c)));
    if t.len() == 0 {
        "ATEM-Proxy"@
    } else {
        t + " (Proxy)"@
    }
}

fn is_instance_char(c: char) -> (r: bool)
    ensures
        r == instance_char_ok(c),
{
    ('a' <= c && c <= 'z') || ('A' <= c && c <= 'Z') || ('0' <= c && c <= '9') || c == '-' || c
        == ' '
}

/// The service instance name announced for a product name.
pub fn sanitize_instance_name(name: &str) -> (r: String)
    ensures
        r@ == instance_name_text(name@),
{
    let n = name.unicode_len();
    let dash = "-";
    proof {
        reveal_strlit("-");
    }
    let mut mapped = String::new();
    let mut i: usize = 0;
    while i < n
        invariant
            n == name@.len(),
            i <= n,
            dash@ == seq!['-'],
            mapped@ == name@.take(i as int).map_values(|c: char| instance_char(c)),
        decreases n - i,
    {
        let c = name.get_char(i);
        let ghost before = mapped@;
        if is_instance_char(c) {
            let one = name.substring_char(i, i + 1);
            assert(one@ =~= seq![c]);
            mapped.append(one);
        } else {
            mapped.append(dash);
        }
        assert(mapped@ =~= name@.take(i + 1).map_values(|c: char| instance_char(c)));
        i = i + 1;
    }
    assert(name@.take(n as int) =~= name@);
    let t = trim_owned(mapped.as_str());
    if t.unicode_len() == 0 {
        String::from_str("ATEM-Proxy")
    } else {
        t.concat(" (Proxy)")
    }
}

/// The mDNS host name for a machine host name: kept when it ends in `.local.`,
/// completed with `.` when it ends in `.local`, else `.local.` is appended.
pub open spec fn host_name_text(host: Seq<char>) -> Seq<char> {
    if seq_ends_with(host, ".local."@) {
        host
    } else if seq_ends_with(host, ".local"@) {
        host + "."@
    } else {
        host + ".local."@
    }
}

/// The host name to announce; `None` (the machine's name was not readable as
/// text) stands for `atem-proxy`.
pub fn mdns_host_name(host: Option<String>) -> (r: String)
    ensures
        r@ == host_name_text(
            match host {
                Some(h) => h@,
                None => "atem-proxy"@,
            },
        ),
{
    let h = match host {
        Some(h) => h,
        None => String::from_str("atem-proxy"),
    };
    if str_ends_with(h.as_str(), ".local.") {
        h
    } else if str_ends_with(h.as_str(), ".local") {
        h.concat(".")
    } else {
        h.concat(".local.")
    }
}

/// The product name to announce: the switcher's, unless unknown or empty.
pub open spec fn product_name_text(product: Option<Seq<char>>) -> Seq<char> {
    match product {
        Some(p) => if p.len() > 0 {
            p
        } else {
            "ATEM Proxy"@
        },
        None => "ATEM Proxy"@,
    }
}

pub fn announced_product_name(product: Option<String>) -> (r: String)
    ensures
        r@ == product_name_text(
            match product {
                Some(p) => Some(p@),
                None => None,
            },
        ),
{
    match product {
        Some(p) => if p.unicode_len() > 0 {
            p
        } else {
            String::from_str("ATEM Proxy")
        },
        None => String::from_str("ATEM Proxy"),
    }
}

pub open spec fn decimal_digits() -> Seq<char> {
    seq!['0', '1', '2', '3', '4', '5', '6', '7', '8', '9']
}

/// Decimal notation of `n`, without leading zeros.
pub open spec fn decimal_text(n: nat) -> Seq<char>
    decreases n,
{
    if n < 10 {
        seq![decimal_digits()[n as int]]
    } else {
        decimal_text(n / 10).push(decimal_digits()[(n % 10) as int])
    }
}

fn digit_str(d: u16) -> (r: &'static str)
    requires
        d < 10,
    ensures
        r@ == seq![decimal_digits()[d as int]],
{
    proof {
        reveal_strlit("0");
        reveal_strlit("1");
        reveal_strlit("2");
        reveal_strlit("3");
        reveal_strlit("4");
        reveal_strlit("5");
        reveal_strlit("6");
        reveal_strlit("7");
        reveal_strlit("8");
        reveal_strlit("9");
    }
    let r = if d == 0 {
        "0"
    } else if d == 1 {
        "1"
    } else if d == 2 {
        "2"
    } else if d == 3 {
        "3"
    } else if d == 4 {
        "4"
    } else if d == 5 {
        "5"
    } else if d == 6 {
        "6"
    } else if d == 7 {
        "7"
    } else if d == 8 {
        "8"
    } else {
        "9"
    };
    assert(r@ =~= seq![decimal_digits()[d as int]]);
    r
}

fn append_decimal(out: &mut String, n: u16)
    ensures
        final(out)@ == old(out)@ + decimal_text(n as nat),
    decreases n,
{
    if n >= 10 {
        append_decimal(out, n / 10);
    }
    out.append(digit_str(n % 10));
    assert(out@ =~= old(out)@ + decimal_text(n as nat));
}

/// The release text announced for a firmware version: `major.minor`, or `0.0` when unknown.
pub open spec fn release_text(version: Option<(u16, u16)>) -> Seq<char> {
    match version {
        Some((maj, min)) => decimal_text(maj as nat) + "."@ + decimal_text(min as nat),
        None => "0.0"@,
    }
}

pub fn release_version_text(version: Option<(u16, u16)>) -> (r: String)
    ensures
        r@ == release_text(version),
{
    match version {
        Some((maj, min)) => {
            let mut out = String::new();
            append_decimal(&mut out, maj);
            out.append(".");
            append_decimal(&mut out, min);
            assert(out@ =~= release_text(version));
            out
        },
        None => String::from_str("0.0"),
    }
}

/// The announcer waits until the upstream session is up and the switcher has told
/// its product name or firmware version.
pub fn announce_info_known(cache: &StateCache) -> (r: bool)
    ensures
        r == (cache@.ready && (cache@.product is Some || cache@.version is Some)),
{
    cache.is_ready() && (cache.product().is_some() || cache.version().is_some())
}

/// The TXT properties as key/value texts.
pub open spec fn property_texts(v: Seq<(String, String)>) -> Seq<(Seq<char>, Seq<char>)> {
    v.map_values(|p: (String, String)| (p.0@, p.1@))
}

/// The TXT properties announced: class `AtemSwitcher` with the product name, the
/// release text, and a unique id made from the announced address.
pub open spec fn txt_property_texts(product: Seq<char>, release: Seq<char>, ip: Seq<char>) -> Seq<
    (Seq<char>, Seq<char>),
> {
    seq![
        ("txtvers"@, "1"@),
        ("name"@, product),
        ("class"@, "AtemSwitcher"@),
        ("protocol version"@, "0.0"@),
        ("release version"@, release),
        ("device version"@, "0"@),
        ("unique id"@, "atem-proxy-"@ + ip),
        ("internal version"@, "atem-proxy"@),
    ]
}

fn pair(k: &str, v: String) -> (r: (String, String))
    ensures
        r.0@ == k@,
        r.1@ == v@,
{
    (String::from_str(k), v)
}

pub fn txt_properties(product_name: &str, release_version: &str, ip_text: &str) -> (r: Vec<
    (String, String),
>)
    ensures
        property_texts(r@) == txt_property_texts(product_name@, release_version@, ip_text@),
{
    let mut v: Vec<(String, String)> = Vec::new();
    v.push(pair("txtvers", String::from_str("1")));
    v.push(pair("name", String::from_str(product_name)));
    v.push(pair("class", String::from_str("AtemSwitcher")));
    v.push(pair("protocol version", String::from_str("0.0")));
    v.push(pair("release version", String::from_str(release_version)));
    v.push(pair("device version", String::from_str("0")));
    v.push(pair("unique id", String::from_str("atem-proxy-").concat(ip_text)));
    v.push(pair("internal version", String::from_str("atem-proxy")));
    assert(property_texts(v@) =~= txt_property_texts(product_name@, release_version@, ip_text@));
    v
}

/// The announced host name always ends in `.local.`, and a name that already does
/// is announced as it is.
pub proof fn lemma_host_name_is_local(host: Seq<char>)
    ensures
        seq_ends_with(host_name_text(host), ".local."@),
        seq_ends_with(host, ".local."@) ==> host_name_text(host) == host,
{
    reveal_strlit(".local.");
    reveal_strlit(".local");
    reveal_strlit(".");
    let t = host_name_text(host);
    let suf = ".local."@;
    if seq_ends_with(host, suf) {
    } else if seq_ends_with(host, ".local"@) {
        let tail = host.subrange(host.len() - 6, host.len() as int);
        assert(tail == ".local"@);
        assert(t.subrange(t.len() - 7, t.len() as int) =~= tail + "."@);
        assert(".local"@ + "."@ =~= suf);
    } else {
        assert(t.subrange(t.len() - 7, t.len() as int) =~= suf);
    }
}

} // verus!
