# crust

A small manager of Rust projects: locations (parent folders) are registered
under a prefix, their sub-folders that hold a `Cargo.toml` are indexed as
projects in a SQLite store, and `prefix.project` opens a project (or creates
it when the name is new).

- `src/` is the verified library: the index and its assembly from stored rows,
  the names offered for completion and the hint, the listing text, the
  recognition of project folders, the update of a location's list against
  the disk, the meaning of a command line, and the making of new rows with
  random UUIDs (`uuid`).
- `app/` is the program around it: the line editor (`rustyline`), the store
  (`diesel`, `dotenv`), the file system and the external `cargo` and `code`
  commands.
- `tests/` runs the library on concrete values.
