# atem-proxy

A transparent multi-client UDP proxy for Blackmagic ATEM switchers: one upstream
session to the switcher, many native clients (Companion, tally apps, ATEM Software
Control) on `:9910`.

The library in `src/` holds the protocol and every decision of the proxy, each
function with a proved contract:

- `endian`, `command`, `packet`, `session` — wire format: header, command framing,
  handshakes and acknowledgements.
- `reliable` — per-connection reliable UDP: packet ids, in-flight window,
  retransmission, acknowledgements and pings.
- `cache` (with `ordered_map`) — the coalescing state cache behind late-join dumps.
- `locks`, `transfer`, `filter` — single-owner store locks, the media transfer lane
  and the client command filter.
- `upstream`, `server` — the switcher session and the client sessions as state
  machines: datagrams and clock ticks in, datagrams and events out.
- `mdns`, `config`, `text`, `addr` — discovery texts, settings rules, text helpers
  and client addresses.

`app/main.rs` is the program around it: command line, settings file, logging,
sockets, tasks and timers, mDNS registration and the Windows service.
