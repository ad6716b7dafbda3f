# probing_rl

The span, trace and process logic behind the RL observability views of the
probing web UI, written in Verus and verified.

- `src/` is the library. It holds the integration-contract predicates
  (`rl_contract`), span-tree assembly from trace records (`span_tree`),
  cross-process linking (`linking`, `links`), display trees and their
  filters (`display`, `span_detail`), rollout and train views and their
  panels (`rollout`, `sample_panel`), timelines (`timeline`), Chrome and
  Perfetto traces (`chrome`, `perfetto`), process lists and filter options
  (`trace_api`, `options`, `fetch`, `span_load`), the data-frame readers
  (`frame`, `inference`), and the query and URL builders (`client`,
  `trace_api`, `python`, `local`).
- `app/` is ordinary Rust around it: HTTP calls and JSON framing, the local
  process endpoints, and the floating-point chart and metric code.
- `tests/` exercises the library on concrete values.
