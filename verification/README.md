# nanodhcp

A minimal DHCPv4 server for a single LAN: it hands out IPv4 addresses from a
pool, remembers leases per MAC, supports fixed `MAC -> IP` bindings, and keeps
its dynamic leases in a line-based file. Std only, no outside crates.

The protocol and policy logic is a library verified with Verus; the program
around it only reads and writes files, talks to the socket and prints.

## Layout

```
src/                 the verified library
  util/              text forms, IPv4/CIDR, MAC, UTC time, log lines
  dhcp/              message types, options TLV, packet parser, reply builder
  config/            model, key=value parser, semantic validation
  lease/             lease model, lease store and file format, allocation policy
  server/daemon.rs   how one request is answered and what it changes
  cli.rs             command line and the lease table
tests/               tests of the library
app/                 the `nanodhcp` program: files, socket, signals, logging
```

## What is proved

Every public function but the clock reading `now` states its result over
plain values (sequences, maps, integers). Beyond the single functions, the
library proves among others:

- allocation never hands a client an address outside the pool, the subnet's
  network or broadcast address, the server's address, a static binding's
  address, a quarantined address or one another MAC holds unexpired; static
  bindings win, and a client keeps its previous address while it is free;
- an OFFER reserves nothing; a lease enters the store only through an ACK,
  expiring `lease_time` seconds later; static bindings are never stored;
  answering a packet never makes two clients share an address; a declined
  address is not handed out while quarantined; a client acknowledged an
  address gets it again on its next request;
- the lease file written for a store loads back as the same leases (all of
  kind dynamic, since the file does not record the kind) when each hostname
  is absent or a non-empty word other than `-`; blank and comment lines in
  the config change nothing; the
  text forms of MAC and IPv4 addresses read back as the values; DHCP options
  written and closed by End parse back, and so do the options of every reply.

## Design notes

The lease store keeps its leases in a `Vec` with the invariant (a type
invariant of `LeaseStore`) that no MAC occurs twice, and is viewed as a map
from MAC to lease. A `HashMap` would give the same map, but the order in
which it is walked is unspecified, while the lease file and the `leases`
table must come out in one definite order (by address, ties in insertion
order) that the contracts state exactly; the `Vec` gives that order and the
map view at once. The quarantine list is kept the same way, one entry per
address.
