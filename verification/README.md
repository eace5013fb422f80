# tonnelle

An HTTP proxy that sends every request from a random source address of an
IPv6 subnet, with a management server beside it. The library under `src/` is
verified with Verus; `app/` holds the servers, the sockets and the other I/O.

- `src/text.rs`: splitting text, white-space separated words, decimal numbers.
- `src/ipv6.rs`: the textual form of IPv6 addresses.
- `src/cidr.rs`: subnets in CIDR notation and random addresses inside them.
- `src/credentials.rs`: `Basic` proxy credentials.
- `src/proxy.rs`: request routing, management answers, the listening address,
  the rewrite of a request to HTTPS.
- `src/resolve.rs`: socket addresses and the cache of resolved destinations.
- `src/pool.rs`: the pool of pre-bound sockets.
