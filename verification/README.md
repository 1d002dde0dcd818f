# evm_kernel

A pure event kernel that follows an EVM chain, written and verified in Verus. It takes one event at a
time (a head, a header, logs, metadata, a clock tick, ...) and returns the next state together with
the requests to send. It does no I/O.

## Layout

- `src/kernel.rs` - the state, the events, the follow-up requests and `transition`.
- `src/kernel_model.rs` - the same as mathematics: what the state is after an event, and what is sent.
- `src/blocks_graph.rs`, `src/folds.rs` - the tree of recent blocks above the finalized anchor, and
  the folding of pool logs along a path. `src/graph_model.rs` says what the tree is.
- `src/pending_requests.rs`, `src/request_tracking.rs`, `src/tick.rs` - the requests in flight, their
  identifiers and the clock by which they are sent again.
- `src/pool_registry.rs`, `src/token_registry.rs`, `src/metadata_catalog.rs` - what is known of pools
  and tokens.
- `src/pool_state.rs`, `src/primitives.rs`, `src/uniswap_v4.rs` - pool events and states, hashes,
  addresses and blooms.
- `src/ord_map.rs`, `src/order.rs` - the ordered map and set that hold all of it.
- `src/*_laws.rs` - what holds of the whole, each law a proof function.
- `app/` - conversions from and to the chain library's types, and the on-disk form of pool metadata.
- `tests/` - scenarios, generated histories and simulated runs.

## What is trusted

Whether a bloom may contain an address is computed by `alloy` (`src/primitives.rs`), and the metadata
catalog's tables are `imbl` hash maps (`src/metadata_catalog.rs`). Those calls stand behind small
wrappers whose contracts are believed; everything else is proved.
