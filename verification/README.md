# zdb_core

The core of a zettelkasten database, written in Verus. Notes are plain text
with three zones: front matter, body and reference section. Tables with typed
columns lie over the notes, and merges bring together what was changed on
several devices.

`src/` holds the rules, each function with a contract that Verus proves. It
reads and writes nothing: what comes from disk, from git or from a database is
handed in as plain values, and what is to be done there is handed out as plain
values. Some calls into other crates stand behind small wrappers whose contracts
are taken on trust; each says in its doc comment which function it calls and
what is claimed of it.

- `text`, `textmap`, `types`, `error`: texts, sorted maps, the types of the crate
- `hlc`, `ids`: time stamps and identifiers
- `yaml`, `written`, `patterns`, `sql`, `docs`: what other crates parse, match and
  merge
- `parser`, `parse_laws`, `front_laws`, `entry_laws`, `link_laws`: notes as text
- `schema`, `rows`, `row_laws`, `section_laws`: tables and rows in notes
- `indexer`, `index_plan`, `index_sql`, `index_laws`, `nosql`: what the indexes hold
- `sql_engine`, `sql_plan`, `effects`: what SQL statements do
- `merge`, `text_laws`, `merge_fm`, `crdt_resolver`, `merge_laws`, `traits`: merging
  what was changed apart
- `git_ops`, `bundle`, `compaction`, `maintenance`, `attachments`,
  `bundled_types`, `bundled_laws`: the repository and what lies in it

`app/` is the program around it, with git, SQLite, redb and files. `tests/` runs
the library against stores in memory.
