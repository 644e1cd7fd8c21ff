//! State cache late-join behaviour (no real ATEM required).

use atem_proxy::cache::{framed, StateCache};
use atem_proxy::{parse_commands, CommandName, INIT_COMPLETE};

#[test]
fn coalesces_same_key_and_ends_with_incm() {
    let mut cache = StateCache::new();
    cache.ingest_payload(&framed(*b"PrgI", &[0, 0, 0, 1]));
    cache.ingest_payload(&framed(*b"PrgI", &[0, 0, 0, 2]));
    cache.ingest_payload(&framed(*b"InCm", &[]));
    assert_eq!(cache.len(), 1);
    let dump = cache.dump();
    assert_eq!(dump.len(), 2);
    let last = parse_commands(dump.last().unwrap()).unwrap();
    assert_eq!(last[0].name, CommandName(INIT_COMPLETE));
    let first = parse_commands(&dump[0]).unwrap();
    assert_eq!(first[0].body, &[0, 0, 0, 2]);
}

#[test]
fn unknown_commands_do_not_grow_unbounded() {
    let mut cache = StateCache::new();
    for i in 0..100u8 {
        // Same name + same body → one entry
        cache.ingest_payload(&framed(*b"ZzZz", &[1, 2, 3, i % 2]));
    }
    // Two distinct bodies → at most 2 entries
    assert!(cache.len() <= 2);
}

#[test]
fn late_join_dump_bounded_after_many_updates() {
    let mut cache = StateCache::new();
    // Simulate hours of program changes on ME0 + unknown opcode updates
    for i in 0..10_000u32 {
        let src = (i % 20) as u8;
        cache.ingest_payload(&framed(*b"PrgI", &[0, 0, 0, src]));
        cache.ingest_payload(&framed(*b"ZzZz", &[1, 2, (i % 3) as u8]));
    }
    // Only a handful of coalesced entries, not 10k+
    assert!(cache.len() < 20, "cache grew unbounded: {}", cache.len());

    let dump = cache.dump();
    let last = parse_commands(dump.last().expect("dump")).unwrap();
    assert_eq!(last[0].name, CommandName(INIT_COMPLETE));

    // Second joiner sees same bounded dump
    let dump2 = cache.dump();
    assert_eq!(dump.len(), dump2.len());
}

#[test]
fn multi_me_program_keys_are_distinct() {
    let mut cache = StateCache::new();
    cache.ingest_payload(&framed(*b"PrgI", &[0, 0, 0, 1]));
    cache.ingest_payload(&framed(*b"PrgI", &[1, 0, 0, 2]));
    assert_eq!(cache.len(), 2);
    let dump = cache.dump();
    // 2 state cmds + InCm
    assert_eq!(dump.len(), 3);
}

#[test]
fn stress_many_command_names_still_coalesce() {
    let mut cache = StateCache::new();
    for slot in 0..10u8 {
        let name = [b'A', b'B', b'C', b'0' + slot];
        for v in 0..100u8 {
            // Identical body so each name is a single cache entry.
            let _ = v;
            cache.ingest_payload(&framed(name, &[1, 2, 3, slot]));
        }
    }
    assert_eq!(cache.len(), 10);
    let dump = cache.dump();
    let last = parse_commands(dump.last().unwrap()).unwrap();
    assert_eq!(last[0].name, CommandName(INIT_COMPLETE));
}

// Further cases.

#[test]
fn version_product_and_ready_come_from_upstream_commands() {
    let mut cache = StateCache::new();
    assert!(!cache.is_ready());
    let mut payload = framed(*b"_ver", &[0, 2, 0, 30]);
    payload.extend(framed(*b"_pin", b"ATEM Mini\0\0\0"));
    cache.ingest_payload(&payload);
    assert_eq!(cache.version(), Some((2, 30)));
    assert_eq!(cache.product().as_deref(), Some("ATEM Mini"));
    assert!(!cache.is_ready());
    cache.ingest_payload(&framed(*b"InCm", &[1, 0, 0, 0]));
    assert!(cache.is_ready());
    // InCm is never stored; the dump ends with the synthetic one only.
    assert_eq!(cache.dump().len(), cache.len() + 1);
    cache.clear();
    assert_eq!(cache.len(), 0);
    assert_eq!(cache.version(), None);
    assert!(!cache.is_ready());
}

#[test]
fn high_rate_lock_and_transfer_commands_are_not_cached() {
    let mut cache = StateCache::new();
    let mut payload = framed(*b"AMLv", &[1, 2, 3, 4]);
    payload.extend(framed(*b"LKST", &[0, 0, 1, 0]));
    payload.extend(framed(*b"FTDa", &[0, 1]));
    payload.extend(framed(*b"Time", &[0, 0, 0, 0]));
    cache.ingest_payload(&payload);
    assert_eq!(cache.len(), 0);
}

#[test]
fn unparsable_payload_changes_nothing() {
    let mut cache = StateCache::new();
    cache.ingest_payload(&framed(*b"PrgI", &[0, 0, 0, 1]));
    cache.ingest_payload(&[0, 3, 0]);
    assert_eq!(cache.len(), 1);
}

#[test]
fn upsert_replaces_in_place() {
    let mut cache = StateCache::new();
    cache.ingest_payload(&framed(*b"PrgI", &[0, 0, 0, 1]));
    cache.ingest_payload(&framed(*b"PrvI", &[0, 0, 0, 1]));
    cache.upsert_raw(framed(*b"PrgI", &[0, 0, 0, 9]));
    let dump = cache.dump();
    assert_eq!(dump.len(), 3);
    assert_eq!(dump[0], framed(*b"PrgI", &[0, 0, 0, 9]));
    assert_eq!(dump[1], framed(*b"PrvI", &[0, 0, 0, 1]));
}

#[test]
fn padded_product_name_is_cached_clean() {
    let mut cache = StateCache::new();
    let mut body = b"ATEM 2 M/E Constellation HD".to_vec();
    body.extend_from_slice(&[0u8; 13]);
    body.push(0x13);
    cache.ingest_payload(&framed(*b"_pin", &body));
    assert_eq!(cache.product().as_deref(), Some("ATEM 2 M/E Constellation HD"));
    // A body that is not UTF-8 keeps the known name.
    cache.ingest_payload(&framed(*b"_pin", &[0xff, 0xfe]));
    assert_eq!(cache.product().as_deref(), Some("ATEM 2 M/E Constellation HD"));
    // A UTF-8 body with no text sets an empty name.
    cache.ingest_payload(&framed(*b"_pin", &[0, 0, 0]));
    assert_eq!(cache.product().as_deref(), Some(""));
}

#[test]
fn dump_holds_only_cacheable_frames() {
    let mut cache = StateCache::new();
    let mut payload = framed(*b"PrgI", &[0, 0, 0, 1]);
    payload.extend(framed(*b"LOCK", &[0, 0, 1, 0]));
    payload.extend(framed(*b"FTSD", &[0, 0]));
    payload.extend(framed(*b"AMLv", &[1]));
    payload.extend(framed(*b"InCm", &[1, 0, 0, 0]));
    payload.extend(framed(*b"AuxS", &[0, 1, 0, 5]));
    cache.ingest_payload(&payload);
    let dump = cache.dump();
    let names: Vec<[u8; 4]> = dump.iter().map(|f| parse_commands(f).unwrap()[0].name.0).collect();
    assert_eq!(names, vec![*b"PrgI", *b"AuxS", INIT_COMPLETE]);
    assert_eq!(cache.dump(), dump);
}
