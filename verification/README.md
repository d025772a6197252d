# dm_driver_log

Parsers for the driver logs of the DM (Dameng) database, verified with Verus.

- JDBC driver logs: one event per line (`formats::jdbc`, also reachable as
  `parser`).
- DM Provider logs: a record runs from one header line to the next, so SQL
  text may span lines (`formats::dm_provider`).

Layout:

- `src/` is the verified library. Each parser is a function from the bytes
  of a record to its fields, specified by a spec function over those bytes
  (`parse_spec`, `provider_spec`). `framing` groups the physical lines of a
  file into records and proves that nothing but leading blank lines is lost;
  `unified` recognises the format of a line or file and reads records with
  their line numbers; `encoding` decodes a line under an encoding hint;
  `error` holds the failure type and its message.
- `app/` is the file reading around it: builders, streaming iterators over a
  file, stream filters, and the conversion of reported durations to
  floating-point milliseconds.
- `tests/` runs the library on concrete log lines.
