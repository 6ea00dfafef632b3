# entries

The verified core of the Entries desktop notebook: it lists notebooks in an
`entries/` folder, checks for newer releases, and imports Apple Notes
(hexadecimal, gzip-compressed protobuf documents) as Markdown files.

- `src/` is the library, verified with Verus:
  - `text` — characters, decimal rendering, trimming, replacement;
  - `calendar` — day numbers to civil dates and date formatting;
  - `hex` — the hexadecimal text of SQLite's `hex()`;
  - `proto`, `note` — the protobuf wire format and the note messages;
  - `decode` — from a note's stored data to its message (two schemas);
  - `encoding` — how a note is written, and the laws that reading it back
    gives the note;
  - `markdown` — a note's attribute runs rendered as Markdown;
  - `import` — file names, queries, write decisions and the import tally;
  - `library` — notebook listings and version comparison;
  - `update` — the answer of an update check.
- `app/` is the shell: configuration on disk, directory listings, the
  `sqlite3` and `curl` commands, and the serializable records.
- `tests/` runs the library on concrete inputs.
