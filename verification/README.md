# car_mirror

A verified library for transferring content-addressed graphs of blocks (DAGs) between two stores, of
which the receiving one may already have a part. Blocks travel as CAR files.

## How a transfer works

The receiving side explores its store from the root of the graph. What it finds missing it requests,
and what it has it describes with a bloom filter. The sending side makes sure that what is requested
lies below the root, walks its store from there level by level, and sends what the receiving side
does not seem to have. The receiving side verifies each block before it is stored. Rounds follow each
other until nothing is missing.

The library does no I/O. Each side is a value that says what it needs next: `receive::Receiving` asks
whether a block is present, what it links to, for the next block that arrives, or to store a block;
`send::Sending` asks for the presence, the links and the bytes of blocks. Whoever drives a side
answers, and gets the next question.

## Layout

- `src/cid.rs`, `cid_set.rs`, `payload.rs`, `bloom.rs`, `ipld.rs`, `cbor.rs`, `car.rs`: identifiers,
  bytes, bloom filters, the links and digests of blocks, CAR files.
- `src/incremental_verification.rs`, `receive.rs`, `buffered.rs`, `receiver_state.rs`, `messages.rs`:
  the receiving side.
- `src/subgraph_roots.rs`, `block_walk.rs`, `send.rs`: the sending side.
- `src/pull.rs`: the pull protocol.
- `src/dag.rs`, `exploration.rs`, `receiving.rs`, `sending.rs`, `walk_order.rs`, `transfer.rs`,
  `rounds.rs`: what holds of all this, such as that a round always makes progress, that there are no
  more rounds than blocks that are missing at first, that nothing is missing when nothing is requested
  any more, that capturing blocks leads to the same as storing them, and that blocks are read once and
  sent breadth-first.
- `app/`: the same on top of asynchronous block stores and streams.
