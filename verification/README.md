# marmita

marmita vendors a single source file from a remote git repository at a
pinned commit and records it in a plain-text manifest, `vendor/VENDOR`.

`src/` is the verified library:

- `manifest` — the manifest's entries, how a text is read into them
  (`parse_vendor`) and how they are written (`format_vendor`);
- `roundtrip` — proofs that what is written reads back as written, and that a
  manifest read and written again reads back the same;
- `order` — the stable sort by file name that precedes writing;
- `date` — day numbers to proleptic Gregorian dates, and today's date;
- `naming` — file names deduced from URLs, commit ids and their short form;
- `commands` — what each command's arguments ask for and what becomes of the
  manifest;
- `git` — the decisions around libgit2: credentials, revisions, its answers;
- `text` — characters, trimming, searching and decimal numbers.

`app/main.rs` is the program: libgit2 through its C interface, files, the
clock and the terminal.
