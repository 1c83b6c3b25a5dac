# p2p_all_to_all

Planning and bookkeeping for a peer-to-peer all-to-all exchange of tokens between the ranks of a
mixture-of-experts model: every rank dispatches tokens to the ranks that host their experts, and
the results are combined where the tokens came from.

`src/` is the library. It is written in Verus and every function in it is verified. It decides;
it performs no I/O, starts no threads and touches no device.

- `cluster`, `routing`: ranks, groups and nodes; routing tables and the order in which tokens
  arrive.
- `traffic`, `padding`, `receive_plan`, `route_layout`: what a rank receives and where it goes.
- `transfer_plan`, `ranges`: what a rank writes to its peers, in tokens and in bytes.
- `slot_pool`, `handles`, `context`, `config`, `workspace`: slots, dispatch handles, what calls may
  do next, and the layout of device memory.
- `worker`, `exchange`, `step`, `counters`: what a worker does in a round, action by action, and
  what it counts.
- `limits`, `round_limits`: exact tests of whether sizes and route counts let every count, offset
  and byte range of an exchange fit its integer type.
- `laws`, `exchange_laws`: what holds of the parts together, such as that every token is read
  where it was written and every result returns to the place of its token.
- `round_laws`, `counter_laws`: what holds of a whole round, from its start to its end or to the
  wait that cut it short, and of the counters and statistics over any number of rounds.

`app/` is ordinary Rust around the library: the interfaces to the device and the fabric, the
worker threads and the Python module.

`tests/` runs the library on concrete values.
