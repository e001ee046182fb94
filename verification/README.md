# sql_migration_kit

A verified library for single-file SQL migrations that keep the "up" and
"down" SQL in one file, separated by a `-- migrate:down` line.

Modules under `src/`:

- `migration`: `Migration::parse` splits a file into trimmed up/down
  sections at the first marker line; statements and checksums per section.
- `statement`: `split_statements`, a scanner that cuts SQL at top-level `;`
  while tracking quotes, quoted identifiers and comments.
- `filename`: `Filename::parse` pulls the version digits and name out of a
  migration file name.
- `order` and `scan`: numeric version order and migration ordering of files.
- `checksum`: FNV-1a checksums over the sections.
- `text`: whitespace, trimming and character helpers.

`app/` holds the file, stdin and directory I/O around the library.
