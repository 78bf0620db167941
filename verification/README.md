# dag_consensus

A verified core for a round-based DAG BFT protocol: a primary gathers votes into
certificates and certificates into the parents of its next proposal, workers gather
acknowledgements into proofs of availability, and a consensus orders the certificates of the
DAG on a fast path and on a normal (leader-based) path.

Everything under `src/` is verified with Verus; every public function states what it returns
or changes in its `ensures`.

- `types`, `committee` — the values of the protocol and the committee (stakes, thresholds,
  step and wave lengths).
- `dag`, `graph`, `ordering`, `consensus` — the consensus state, the walks over the parent
  graph, and the fast and normal paths; `safety` holds the laws every step and every run
  keeps; `render` gives the node's view of its DAG as structured lines.
- `aggregators`, `messages` — votes into certificates, certificates into proposal parents
  (with the unions of solid vertices and the back-link bitmap).
- `header_waiter`, `synchronizer`, `keys` — which headers wait for what, which parents are
  missing, and the store keys.
- `quorum_waiter`, `batch_maker` — the worker's availability quorum and broadcast rotation.

`app/` holds the asynchronous tasks around the library: channels, the store, the network and
message encoding. `tests/` exercises the library on concrete values.
