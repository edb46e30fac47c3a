# packetminder

Notices inbound traffic that nothing on this host is consuming, and names the
device that sends it.

- `src/` is the library: parsers of kernel files and tool output, the detectors,
  the naming of devices, the wording of alerts and the table of connections. It
  is written in Verus. Each function states what it returns or changes over
  mathematical models, and each module ends with the laws that hold of it, as
  public proof functions.
- `app/` is the daemon and the terminal viewer around it: reading files, running
  commands, floating-point arithmetic, notifications, threads and drawing. Run as
  `packetminder-tui` it is the viewer, otherwise the daemon.
- `tests/` runs the library on concrete values.

Rates, ratios and thresholds are doubles. The library holds them by their bit
patterns and only compares, halves and makes them from counts; whatever measures
or multiplies them stands in `app/rates.rs` and `app/detect.rs`.

Four things are believed rather than proved: what `String::push`,
`str::to_lowercase` and `str::to_uppercase` do, and that the clock can be read.
Each is stated where it is declared, in `src/text.rs` and `src/alert.rs`.
