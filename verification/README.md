# ansi_sentinel

A library for scanning ANSI/VT terminal escape sequences out of a byte
stream, with its behaviour specified and proved in Verus.

- `src/scanner.rs`: the scanner. The grammar of escape sequences is given as
  spec functions over the input bytes (`escape_scan`, `csi_scan`,
  `string_scan`, `step`, `scan_items`); `EscapeScanner::next` and
  `EscapeScanner::collect_events` are proved to report exactly what they say.
- `src/csi.rs`: `parse_csi_params`, specified by `csi_params`.
- `src/sgr.rs`: `parse_sgr`, specified by `sgr_attributes`.
- `src/error.rs`, `src/mode.rs`: the error type (with a verified
  `to_string`) and the strict/lenient mode.
- `src/grammar.rs`: the grammar of escape sequences stated directly
  (`ESC F`, `ESC I+ F`, `ESC [ P* I* F` with at most 32 fields of at most 8
  digits, and the string sequences), with proofs that strict mode accepts
  exactly the well-formed sequences and that strictly accepted CSI
  parameters always fit in `u32`.
- `src/laws.rs`: properties of whole scans: lenient mode never errors and
  loses no bytes, strict mode never reports `Invalid` and stops at its first
  error, errors point at an `ESC`, and both modes agree on what strict mode
  accepts.
- `src/composition.rs`: printed parameter lists parse back to themselves,
  and joining two SGR parameter lists with `;` joins their attributes.
- `app/lib.rs`: an `Iterator` over the events and an error type with
  `Display` and `std::error::Error`, for callers that want those traits.
- `tests/`: the test suite, run against the compiled library.

In strict mode the first error ends the scan; in lenient mode the bytes of a
malformed, oversized or unterminated sequence are reported as
`Event::Invalid` and scanning continues right after them.
