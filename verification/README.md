# cache_simulator

A simulator of a memory hierarchy: set-associative caches (write-back or
write-through, write-allocate or not, LRU, pseudo-LRU or clock replacement,
optional stride prefetching) in front of a paged main memory, driven by a trace
of reads and writes.

The library under `src/` is verified with Verus:

- `geometry` completes a cache geometry and splits addresses into byte offset,
  set index and tag;
- `replacement` chooses eviction victims;
- `prefetch` detects strides and keeps prefetch streams;
- `memory` is main memory; `cache` the caches and the `Storage` level type;
- `trace` reads a trace; `hierarchy` builds a hierarchy from its configuration
  and runs a trace through it.

`app/` is the command-line program: it reads the configuration (JSON) and the
trace from files, builds the hierarchy, runs the trace and prints each level's
counters, with the rates and times derived from them in floating point.

Run it as `cache_simulator -c <config.json> -t <trace.txt>`.
