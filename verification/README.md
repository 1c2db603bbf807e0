# v4flash_het

The decisions behind a two-device inference engine for a mixture-of-experts model,
written in Verus: what each device has to do for a token, which experts are resident
where, which machine computes which pick, how big every buffer is, and what a trace of
it all looks like on disk. Every function of the library states in its contract what it
decides, and Verus proves it.

- `src/` is the library.
  - Experts: `pool`, `windows`, `expert_pager`, `prefetch`, `residency`, `pool_setup`,
    with the laws of `pager_laws`, `room_laws` and `union_laws`.
  - Picks: `routing`, `ownership`, `b2_mirror`, `substitute`, with the laws of
    `substitute_laws`; `fidelity_tap`, `pick_stats`, `counts`, `miss_shape`.
  - Work: `layer_ops`, `layer_compress`, `layer_attention`, `layer_plan`, with the laws
    of `layer_laws`; `kv_window`, `token`, `head`, `mtp`, with the laws of `mtp_laws`;
    `dispatch`.
  - Sizes: `config`, `batch_scratch`, `scratch_sizes`.
  - The trace: `evtrace_kinds`, `evtrace`, `evt_file`, `evt_header`, `sys_sample`, `utc`.
  - Tools: `knobs`, `devices`, `diagnostics`, `text`, `text_order`, `scan`.
- `app/` is the engine around it: the environment, files, threads, clocks, weights in
  floating point, and the traits through which the device runtime is reached.
- `tests/` runs the library.

An operation list says what is to be done, in order; issuing an operation to a device is
the engine's part. A global counter or table is a value that its functions take as their
first argument.
