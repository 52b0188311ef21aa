# rpprof

The logic of a CPU, wall-clock and heap profiler, written and verified in Verus.

The library counts stacks, keeps the books of a sampled heap profile, and writes reports
as folded stacks, Speedscope documents, pprof profiles and SVG flame graphs. It touches
neither the operating system nor the allocator: the caller hands in plain values and
performs what the library asks for.

## Layout

- `src/` is the verified library.
  - `frames`, `resolve`: symbols, backtraces, and finding the symbols of addresses.
  - `demangle`: the names to show for symbols.
  - `tally`, `builder`, `report`: counting stacks and building reports of them.
  - `folded`, `speedscope`, `pprof`, `protos`, `flamegraph`: the output formats.
  - `json`: writing JSON, and the proof that what was written reads back.
  - `intern`, `text`, `timer`, `error`: string tables, text, time and errors.
  - `heap`, `sampler`, `heap_report`: the sampled heap profile, what is sampled, and its
    reports.
  - `balance`, `history`: the proofs that its books balance, after one event and after
    any row of them.
  - `addr_validate`: testing whether an address can be read, as a state machine.
- `tests/` runs the library on concrete values.
- `app/` is ordinary Rust around it: system calls, the global allocator, writers, the
  protobuf wire format.

## What is proved

- A report holds each stack once, with the sum of its positive counts; no sample is lost.
- Resolving the addresses of a report changes no total, and gives no more stacks where
  equal stacks of addresses resolve alike.
- Numbers, escaped strings and joined words in the outputs read back as what was written,
  and so does a Speedscope document as a whole.
- A flame graph is drawn just where some line of the folded stacks counts.
- Everything that a pprof sample refers to is in the profile's tables.
- The in-use counters of the heap profile tell what is live, and freeing undoes a sample.
- After any row of events, the heap profile has counted each sampled allocation once, and
  no site has more in use than it has allocated.
- Allocations are sampled once per sampling interval.
- An address passes only when the kernel has copied bytes from it.

What rests on other crates (`backtrace`, `inferno`, `symbolic-demangle`) is stated at the
few functions that call them.
