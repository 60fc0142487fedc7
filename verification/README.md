# memtrack

Memory-allocation tracking of a process tree, verified with Verus.

BPF programs and perf events record what a process tree allocates, maps, forks
and executes. This library holds the computation around those records:

- `events`, `mapping_records`, `perf_mappings`: decoding of the records, with the
  layouts in `bindings` and native-order integers in `bytes`
- `encoding`: the bytes of every record, and proofs that each is read back
- `perf_ring`, `perf_open`: the perf ring buffer, from opening to draining
- `replay`: which executable mappings each process had, across forks and execs
- `module_artifacts`, `module_scan`: from mappings to the modules they loaded
- `tracker`, `poller`, `session`, `stacks`: what a tracker, a poll thread or a
  session that stops does next
- `kernel`, `support`, `cpus`: what the running kernel is and provides
- `metadata`: the description of a profile's modules
- `sort`, `text`: a stable sort and text parsing, shared by the rest

The layouts, event codes and counter slots in `bindings` are assumed, for x86_64:
the C header that declares them belongs to the BPF programs. `assert_layouts!` in
`app/`, invoked where bindings are generated from that header, compares them at
build time.

Contracts are stated over views of the data. Functions whose names start with
`law_` state properties that span several functions.

`app/` is the unverified part: files, environment, threads, system calls, BPF
maps and JSON. It asks the library for every decision.
