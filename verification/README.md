# muaddib

A capability-discipline kernel simulated as a library, its logic written
and proved in Verus: unforgeable capabilities with rights that can only be
attenuated, revocation by epochs, processes that hold only what they were
granted, all-or-nothing capability transfer over FIFO channels, memory
regions reachable only through a live capability, and logical clocks as the
only ordering primitive.

The chaos harness is proved to agree with its shadow model step by step: on
a mirrored world every generated operation is answered as the model
predicts and leaves the world mirrored, or stops because a counter reached
its limit, which no run of up to 2^28 steps can reach; a mirrored world
passes its audit; and the recorded events stay an execution stamped by the
processes' clocks, so the closing check of the vector clocks against the
causal graph passes. A run of that length without an injected fault
therefore succeeds, and one with a fault fails only at or after the fault's
step, on the corrupted region's bytes.

Layout of `src/`:

- `rights`, `capability`: rights sets and the capability kernel (objects,
  epochs, derive, revoke, reissue, destroy).
- `clock`: Lamport and vector clocks, the stamped `EventClock`, and the
  proof that vector stamps characterize causality in any execution.
- `process`: process tables, grant resolution and application (`Transfer`,
  `Derive`, `Move`), spawning and the round-robin scheduler.
- `ipc`: channels carrying data, capabilities and stamps.
- `memory`: regions guarded by capabilities.
- `workload`: the multi-stage pipeline on the kernel, the same pipeline with
  ambient authority as a baseline, the data they share, the counted schedule
  both follow, a deterministic random number generator, and the chaos
  harness: its operations and their seeded generator and the shadow model
  with its predictions (`chaos`), and the world that drives the kernel and
  the model side by side, compares every answer and audits the whole state
  after every step (`harness`).

`app/` holds the command-line program, which parses arguments, prints
pipeline runs and renders chaos failures.
