# catdesk

The decision-making core of CatDesk, a local coding agent driven through
ChatGPT, written in Verus with its behaviour stated in `requires` / `ensures`
contracts and proved. Where the result comes from an outside crate
(tree-sitter's parse, `serde_json`'s text, `regex` matches, Unicode lower
case), the contracts speak of it by a name, and what is proved is what the
library does with it.

## Layout

- `src/` — the verified library.
  - `checks` (with `checks/cargo`, `pytest`, `go`, `node`): reading test-run
    transcripts into counts, failures and diagnostics; toolchain detection.
  - `activity`: the record of tool calls in flight and finished, with its
    bounds, and the snapshots a monitor draws.
  - `checkpoints`: what a pre-edit snapshot records, how stored paths are
    vetted, which checkpoints pruning keeps, and what restoring does.
  - `iyunzhi`: YunZhi BI report queries — report names, dates, request
    bodies, paging, row extraction, local filters and the reported result.
  - `outline`: source outlines, rendering, and symbol search. The parse is
    tree-sitter's and is not proved: it is named (`parsed_syntax`), and the
    contracts say exactly which symbols, in which order and nesting, are read
    from the tree it gives, and how a search filters them.
  - `linux_sandbox`: the bubblewrap command line, the choice of executable,
    and the checks that decide which git metadata outside a workspace may be
    written.
  - `json`, `text`, `pattern`, `calendar`: JSON values (their text is
    `serde_json`'s, named and not proved), character-level text operations,
    regular-expression matching through `regex`, and calendar dates through
    `time`.
- `tests/` — tests run against the compiled library.
- `app/` — what touches the machine: files, processes, the network, the
  process-wide activity record, and `serde` forms of the library's types.
