# idiod

idiod is a Linux daemon that watches request activity and uses nftables to
block source addresses that behave abusively for a while. A log filter for
Apache access logs sends it one message per request over a Unix socket.

The logic of the daemon is a library written in Verus, with its behaviour
stated in contracts that Verus proves, except where it calls another crate:

- `message`: the request message protocol (build and parse, and that a
  parsed message gives back what was written).
- `logline`: picking the request out of an Apache log line.
- `pwfilter`: masking passwords in log lines. The masking itself is done by
  the `regex` crate; its result is only named (`regex_masked`), not proved.
- `netaddr`, `addr_identity`: addresses and their text form, and that
  different addresses are written differently.
- `peer`, `rate`, `events`, `classifier`: the peer table, its request
  history, block counts, pruning and expiry.
- `nft`, `firewall`: the nftables rules the daemon installs and removes, and
  the state of blocked addresses and the global limit.
- `config`: the plain part of the configuration.

The calls into other crates sit behind a few trusted items whose contracts
Verus takes on trust: `String::push` (`text::push_char`), `Regex::new` and
`Regex::replace_all` (`pwfilter`), and `ArrayDeque::new`, `push_back`,
`back` and `len` (`events`, over the deque's contents `deque_stamps`).

`app/` holds the daemon and the log filter around the library: sockets,
files, nftables and systemd calls, configuration parsing, and the floating
point rate averages and scores.
