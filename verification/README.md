# hephaestus

The editor-independent logic of the Hephaestus IDE, written in Verus: the
functions in `src/` carry contracts that Verus proves, except the trusted
items at the edge, which Verus believes without proof. Those are the
wrappers around `std`'s Unicode case mapping and classification
(`str::to_lowercase`, `str::to_uppercase`, `char::to_lowercase`,
`char::to_uppercase`, `char::is_lowercase`, `char::is_uppercase`,
`char::is_alphanumeric`), `String::from_utf8` and `String::push`, and the
names given to what the Unicode calls return; each says in its doc comment
what it claims.

## Layout

- `src/` is the verified library: documents (decoding, line endings, the
  byte order mark), code folding, brace guides, Git status and diff
  parsing, the Git panel model, search ranking, tool output locations,
  language server events, terminal key encoding and frames, the workspace
  tree, the close confirmation and what follows a save (`closing`), and the
  Vim key engine (`vim`).
- `tests/` runs the library on concrete inputs.
- `app/` is the thin program around it: file, process and network I/O, the
  session file, and JSON; it hands the library plain values.

## Notes on the model

- Text is held as a `String`, or as a `Vec<char>` where the logic walks it
  by position. Line indexing (the character where line `k` starts, the
  line a character is on) is a few lines of specification over the
  characters and is done by the library itself (`vim::buffer`), so that it
  is proved rather than believed.
- The Vim engine measures every position in characters, not bytes: the
  cursor, selections, the ranges of the edits it returns, and the position
  handed to `Vim::sync`, `Vim::reset` and `VimInput::rewound`. An editor that
  works in bytes or UTF-16 units converts at its edge.
- The clipboard is a trait the editor implements. Vim keeps a ghost record
  of the texts it hands to `Clipboard::write` (`Vim::clipboard_log`), and
  the contracts of `Vim::key` state what is written, and when.
- `Vim::key`'s contract is `key_done`; the parts that are long to read
  (`command_done`, `key_moved`, `key_operated`, `key_selected`,
  `paste_landed`, `lands`) are opaque specs: `reveal` them in a proof that
  needs them. They cover every command, `.` included, which repeats the
  recorded change as `command_done` states.
