# mistarr_server jobs

The decisions of mistarr's background jobs, written in Verus and proved against their
contracts: which files a library scan walks, keeps and matches; how DATs are watched,
streamed and bound; how staged downloads are verified, named, quarantined and placed
(discs kept together, MRAs and their zips); how CHD tracks are classified; how the
download client is polled and its upload limits follow a running core; and the core
gate, job revival, I/O priority and live progress.

- `src/` is the verified library. Each public function states its result in `ensures`;
  laws that span several calls are public `lemma_*` proof functions beside them.
- `tests/` runs the library on concrete values.
- `app/` is the ordinary Rust around it: directory listings, file moves, `ionice`, zip
  central directories and stored JSON payloads. It hands the library plain values and
  acts on what comes back.

`jobs::progress::CountingReader` has an inherent `read` rather than an impl of
`std::io::Read`. Verus accepts such an impl only if the callback's precondition can be
carried inside the reader, and a type invariant that carries it would require calls to the
callback to be marked as never unwinding, which a caller's closure cannot promise.
`app/progress.rs` wraps the reader as a `std::io::Read`.
