# Demiurge

A phase-aware, cost-based load balancer for LLM inference, as a verified library with a thin
program around it.

- `src/` is the library. Every function states what it returns or changes, and Verus proves it.
- `app/` is the program: sockets, threads, io_uring, the kernel program's loader, the environment.
  It hands measured values to the library and carries out what the library decides.
- `tests/` runs the library with the real outside crates.

## The library

| Area | Modules |
|------|---------|
| Exact binary64 arithmetic on bit patterns | `binary64`, `rounding`, `elementary` |
| Cost algebra in log space | `factors`, `kv`, `topology`, `params` |
| Backends, selection, pairing | `backend`, `selection`, `pairing` |
| Routing and the control tick | `router`, `rebalancer`, `predictor` |
| KV accounting and hand-off | `ledger`, `handoff`, `migration` |
| Cache-domain isolation | `auth`, `secret` |
| Shadow measurements | `shadow`, `graduation`, `fleet`, `stats` |
| Data plane | `rcu`, `admission`, `xdp`, `netlink`, `stream`, `serve` |
| Text and bytes | `text`, `bytes`, `endian`, `http`, `config`, `ids` |
| Startup banner | `banner`, `terminal`, `layout` |

Floating-point values are held as bit patterns, and sums, products and quotients are proved to be
the nearest double, ties to even. Logarithms, exponentials and square roots are handed in by the
caller. Clocks, warmth and the state of the kernel program are arguments too, so every decision is
a function of what it is given.
