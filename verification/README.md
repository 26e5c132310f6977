# comments_toolkit

A checker for source-code comments that carry a stamp of the form
```` ```comments-2.0 N [DEPS] COMMENT_HASH CODE_HASH``` ````: the comment refers
to the `N` lines of code after it, and the two hashes record the comment text
and that code as they were when the stamp was written. When either changes
without the stamp being regenerated, the tool reports it.

The library is written in Verus; its functions carry `requires`/`ensures`
contracts and are verified.

- `src/text.rs` — character-level text operations (UTF-8 byte lengths,
  searching, splitting, trimming, decimal numbers) with exact specifications.
- `src/models.rs` — comments and their stamps; reading a stamp.
- `src/hashing.rs` — the comment and code hashes.
- `src/parser.rs` — finding the comments of a file, line by line.
- `src/violations.rs` — the integrity rules, their configured levels, and how
  violations are reported.
- `src/source_code_replacer.rs` — writing generated hashes back into the text.
- `src/regeneration.rs` — hashes written into a stamp read back as written.
- `src/program.rs` — command-line options, file selection, grouping by file.
- `src/storage.rs` — the records stored in the comments database.
- `app/main.rs` — the command itself: file-system walking, reading and
  writing files, and the SQLite database.
