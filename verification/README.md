# mlserver

A replicated parameter server for training small neural networks, with its
decision logic verified in Verus.

- `src/` is the verified library:
  - `bin_client`: placement of a model bin on the ring of backends (primary
    at the bin's hash position, replica on the next backend).
  - `keeper`: membership comparison, the chord ring of live backends, one
    round of clock synchronisation, the keeper's round-to-round state, and
    the plan of data migration after backends leave or join.
  - `ml`: a backend's bookkeeping — the queue of pulls per model with its
    staleness bound, the ready flag, and the logical clock — and the weight
    positions of the served nets.
  - `lab1`: the storage client's reading of a `get` reply.
  - `err`: the library's error type.
- `app/` is the asynchronous, networked program around it (gRPC services
  and clients, the keeper's timer loop, the floating-point model code).
- `tests/` exercises the library on concrete values.
