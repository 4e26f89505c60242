# sv_analysis

Block-level dataflow analysis of SystemVerilog designs, with coverage
tracking, signal tracing, spectrum-based fault localization, the tallies of
checker votes, and a bug-injection loop. The library is verified with Verus.

## Layout

- `src/` — the verified library. Each public function states its result in
  `requires`/`ensures` over spec functions and views:
  - `block`, `dfb`, `mgr`, `merge`, `module_blocks`: dataflow blocks, their
    manager and the merging of continuous assignments;
  - `dataflow`, `lines`, `locate`, `position`, `parse`, `pattern`: reading
    dataflow, source positions and report text;
  - `coverage`, `vlc`, `param`, `sampler`: coverage reports and their queries;
  - `tracer`, `slicing`: breadth-first tracing of a signal through blocks,
    by static dataflow or by dynamic (coverage-guided) slicing;
  - `sbfl`, `spectrum`, `oracle`, `suspects`, `vote`, `agent`, `tools`: fault
    localization, the evaluation against oracles, and the decisions made on
    checker answers;
  - `cosim`, `wave`: co-simulation logs and waveform tables;
  - `mutation`, `mutation_rules`, `similarity`: the bug-injection tool's
    search, its rules (operator swap, constant rewrite, name confusion) and
    the positions they apply at, and the edit distance of names.
- `tests/` — tests of the library.
- `app/` — the program (`main.rs`, with the `mutator` and `cal-metric`
  commands) and what it needs: files, the syntax-tree walk, the waveform
  reader, floating-point scores, random draws, model checkers, concurrent
  checker calls and the bug-injection loop that runs the library's step
  function.
