# url_album

The logic of URL Album, a portable bookmark manager, as a library verified
with Verus, and a small command-line program around it.

## Layout

- `src/` — the verified library.
  - `text.rs`: byte search, UTF-8 boundaries, lines, white space, numbers as text.
  - `markup.rs`: HTML entities, attribute values and element text.
  - `json.rs`: JSON documents as plain values, parsed with serde_json.
  - `bookmarks.rs`: import plans for ua.dat, Netscape HTML, Chromium JSON,
    Firefox places and text lists.
  - `export.rs`: the HTML and text files written back.
  - `store.rs`: the folder path and moving entries among siblings.
  - `album.rs`, `panel.rs`: tree rows, the list beside it, sorting, browser
    detection, recent databases and the texts the window shows.
  - `settings.rs`: the settings line, written and read.
  - `net.rs`, `icons.rs`, `favicon.rs`: host names, icon links and the
    favicon fetch as a state machine.
  - `winmsg.rs`, `compat.rs`: the decisions of the Win32 message loop and of
    the Windows 7 loader shims.
  - `pe.rs`: the PE patcher that renames a time import, zeroes the checksum
    and redirects delay-load imports.
- `app/` — the program: SQLite store, files, network, browser detection and
  the patcher's command line, calling the library for every decision.
- `tests/` — tests of the library on concrete values.

The contracts state each function's result over spec functions; the
`law_*` proof functions state what holds across calls (reading back what was
written, undoing a move, sorting, patching).
