# ipv6_nd

IPv6 neighbor discovery for a small network stack, with its behaviour stated in
contracts and proved by Verus.

* `src/wire` holds addresses, the ICMPv6 frame and its checksum, the Neighbor
  Discovery messages (`ndisc`) and their options (`ndiscoption`).
* `src/iface/neighbor.rs` is the neighbor cache.
* `src/iface/route.rs` is the routing table, which tells configured from learned
  routes; `ownership.rs` holds what follows of its slots.
* `src/iface/slaac.rs` is stateless address autoconfiguration with learned
  routes of different preference; `selection.rs` chooses among all routes.
* `src/iface/properties.rs` holds what is true across several calls.
* `src/collections.rs` describes the collections of `heapless`, and
  `src/wire/bytes.rs` the integers of `byteorder`. What the functions marked
  `external_body` there, and those that make an empty collection next to the
  type that holds it, say of the two crates is taken on trust. Everything else
  is proved.
* `app` turns the error of a full table into a `std::error::Error`.

The capacities are in `src/config.rs`.
