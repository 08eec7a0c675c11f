# toq_rs

An OSCQuery library and sidecar program: OSCQuery address trees and their
JSON form, host information, the answers of an OSCQuery HTTP service, mDNS
discovery bookkeeping, and the endpoint specifications of the sidecar.

The library under `src/` is written in Verus. Its functions carry contracts
that Verus proves, except the few items in `mdns.rs` and `text.rs` marked
`external_body` (calls into `mdns_sd` and `String::push`), whose contracts
are assumed from those libraries' sources and documentation.

- `node.rs`: OSC values and access levels, the address tree (`OSCQueryNode`)
  with its search and insertion, and host information.
- `codec.rs`: the JSON form of nodes and host information, both ways, with
  the round-trip laws.
- `json.rs`: the JSON document model that the codec works on.
- `ieee.rs`: the readings a number has as a double and as a single (integer
  to double, single widened, double narrowed), computed with integers.
- `service.rs`: the host information and records of a service, and how it
  answers a request for a path.
- `query.rs`: discovery events, the registry of discovered services, and what
  a client asks of a service and reads from its replies.
- `sidecar.rs`: endpoint specifications and files, the events the sidecar
  reports, and what it reports on discovery.
- `mdns.rs`: the parts of `mdns_sd` that the library calls, with the
  contracts that are assumed of them.
- `table.rs`, `text.rs`: a name-keyed table and the string operations used
  above.

`app/` holds what Verus does not check: the command line, the HTTP server and
client, mDNS threads, serde conversions and the display of floats.
