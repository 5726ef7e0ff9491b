# shellhist

Readers for shell command-history files — bash (`.bash_history`), zsh
(`.zsh_history`, `EXTENDED_HISTORY`), fish (`fish_history`) and PowerShell
PSReadLine (`ConsoleHost_history.txt`) — and a graded anomaly auditor over the
entries they produce, verified with Verus.

Every reader is specified over a model: the bytes decode (BOM removed, lossy
UTF-8) to text, the text splits into lines, and a scan over those lines yields
exactly the entries returned. The auditor is specified the same way over the
entry stream. Verus proves the code meets these contracts and never panics.

Layout:

- `src/text.rs` — character-level model: line splitting, continuation lines,
  decimal numbers, whitespace, substring tests, case folding.
- `src/lib.rs` — `Shell`, `HistoryEntry`, BOM handling, format detection,
  dispatch (`parse`, `parse_auto`).
- `src/bash.rs`, `src/zsh.rs`, `src/fish.rs`, `src/powershell.rs` — the readers.
- `src/forensic.rs` — `HistAnomaly`, the matchers and `audit`.
- `app/lib.rs` — the `forensicnomicon` report glue (`Observation`, `source`,
  `audit_findings`).
- `tests/` — behaviour tests.
