# crdb

Replicas of one set of operations, and the protocols that bring a client and a server to the same
names while sending few of the operations that both have already.

`src/` is the library, verified with Verus:

- `ids`, `operations`, `messages`: operations and their names.
- `history`: sequences of operations in the order of their names, as the contracts see them.
- `digest`: digests of stretches of a history, and sequences of digests.
- `sequence`: the ordered collection that holds a replica's operations.
- `subdivision`: how a range of positions is subdivided.
- `prefixes`: the comparison of prefixes, for the protocol with one request.
- `protocol`: the states that a synchronization goes through.
- `merging`, `progress`, `convergence`: what those states keep, that a synchronization ends, and
  that client and server then hold the same names.
- `sync`: the protocols.

Digests are hashes of names. Client and server end with the same names unless digests of different
names are equal by chance. They end with the same operations if, besides, an operation that both had
under one name was the same on both sides. The contract of `sync::sync` says so, and what holds in
any case.

`app/` picks the lengths of the prefixes that the protocol with one request tries, on a logarithmic
scale.
