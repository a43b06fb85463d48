# pytorch-trace-tui

A terminal viewer for GPU kernels in PyTorch profiler traces. Every CUDA stream is
a lane on one time axis; two or more traces can be overlaid, and two are laid onto
each other along a diff of their kernel names. The same program answers bounded
questions about a trace as a Model Context Protocol server.

## Layout

- `src/` is the verified library. It holds everything the viewer decides and
  computes: which events of a trace count and in which order (`trace`, `sort`),
  the lanes (`lane`, `app::lanes`), where events are drawn (`layout`, `timemap`,
  `app::alignment`, `app::timing`), navigation, search, sequences and exports
  (`app`), what is shown (`ui`, `panels`), what keys and the mouse do (`input`), the
  file picker (`picker`, `names`), clipboard payloads (`clipboard`), the tools of
  the server (`mcp`, `mcp_core`), and block-wise alignment of several traces
  (`align`).
- `app/` is the program around it: arguments, files, the terminal, the clipboard
  and the server.
- `tests/` runs the library.

## Numbers

The library is generic over the numbers on its time axis (`scalar::Scalar`).
Contracts say which operations are applied to which values; the program and the
tests plug in double precision. Statements that need arithmetic are proved for
every kind of number under named assumptions, such as that its comparisons are those
of one order (`scalar::ordered_totally`) or that it counts as real numbers do
(`scalar::counts_like_reals`). Those on layout, timing and time maps are also proved
for whole ticks (`i64`), whose sums stop at the last tick.

## Laws

Besides the contracts, public proof functions state what holds across functions,
for example `app::alignment::toggling_twice_leads_back`,
`diff::equal_lists_differ_nowhere`,
`layout::second_only_kernels_stand_in_the_gap`,
`timemap::time_maps_follow_their_controls`,
`app::timing::traces_start_together`, `text::csv_fields_are_read_back` and
`mcp_core::pages_meet`.
