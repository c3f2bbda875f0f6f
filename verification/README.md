# yarnspinner

A verified core of the Yarn Spinner dialogue toolkit, written in Verus. Verus
checks every function of `src/` against its contract: the virtual machine that
runs compiled dialogue, the saliency strategies that choose among content, the
compiler passes that check, tag and transform Yarn scripts, and the analyses of
compiled nodes. Where the library works through a host or a line-tag generator
that its users supply, the contracts say what is handed to them and what is done
with their answers, over records (`function_calls`, `variable_writes`, `stored`,
`answers`) that such a host or generator keeps.

Layout:

- `src/` — the verified library. Its modules cover the compiled program model
  (`program`, `analysis`, `reachability`), the runtime (`vm`, `saliency`,
  `smart_eval` — the machine's own evaluation of smart variables and node groups —
  `library`, `markup`), numbers as 32-bit floating-point bit
  patterns (`number`), and the compiler's checks and transformations (line tags,
  `when:` headers, node groups and their hub nodes, node names and references,
  unused variables, smart-variable loops, preview features, structured commands,
  `<<enum>>` blocks, Yarn files that declare variables, the code of option groups
  and line groups, and severity overrides of diagnostics).
- `tests/` — tests on concrete values, run against the real outside crates.
- `app/` — the unverified rim: the loop that drives a dialogue through a host, an
  in-memory host, the standard functions, and the numeric half of the
  `<<enum>>` registry, whose values are floating-point (the scan of the blocks
  and their structural checks are in `src/enum_scan.rs`).

Calls into `regex`, `rand` and `crc32fast` stand behind small trusted functions
whose contracts name, rather than restate, what those crates compute.
