# sokr_plugins

Verified core of two SOKR reference plugins:

- `src/dispatch_first.rs` — the first-capable registry: substrate ids kept in
  registration order; `first_capable` answers the first registered one.
- `src/completion_table.rs` — the CPU substrate's fixed-capacity table of
  outstanding completion tokens and its wrapping handle allocator (never 0,
  never a live handle; proved to terminate).
- `src/cpu.rs` — the CPU substrate's capability / dispatch / completion /
  destroy logic on the values behind the ABI pointers (`None` = null).
- `src/abi.rs` — plain-value result codes, completion signals and responses.

`app/` holds the C ABI shell: the `extern "C"` entry points, the global
completion table, the `CPU_PLUGIN` vtable, conversions to the `sokr` types,
and a `Mutex`-wrapped registry for shared use.

The registry keeps its ids in a growable `Vec`, as the code it follows does;
it has no fixed capacity, so it does allocate. The completion table, by
contrast, is a fixed array of 256 slots and allocates nothing.
