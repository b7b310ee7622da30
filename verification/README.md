# emacs_i3

Routing of i3-style window commands between Emacs and i3, as a Verus-verified
library with a thin program around it.

An i3 command such as `focus left` is first offered to Emacs when the focused
i3 node is an Emacs frame; if Emacs answers `nil`, fails or cannot be reached,
the command goes to i3, unchanged except that horizontal focus inside a tabbed
or stacked container follows tab order.

## Layout

- `src/text.rs` — white space, word splitting, trimming, string comparison.
- `src/aliases.rs` — the alias table: a finite map with distinct keys.
- `src/config.rs` — configuration defaults and validation, alias expansion
  (with its laws: expansions are final, transitive, and cycles are refused),
  and the precedence of command line, environment and configuration file.
- `src/command.rs` — typed reading of command lines.
- `src/emacs.rs` — the Emacs server protocol: quoting, request line, reply
  decoding (with the law that unquoting gives back what was quoted).
- `src/routing.rs` — focus search in the i3 tree, Emacs-frame detection, the
  decision to ask Emacs, the i3 fallback command and i3 failure reports.
- `app/main.rs` — argument handling, environment and file reads, the TOML
  configuration format, i3 IPC and the Emacs server socket.
- `tests/` — tests of the library.
