# chak

The core of a small content-addressed version-control system, written in
Verus. Verus proves every function in `src/` against its contract, except
the few marked trusted, which call `sha2`, `glob` and the standard library and
whose contracts are taken as given. Laws that relate several functions (what
a diff reports in each direction, what the commit log gives back after an
append, how paths and pointers round-trip) stand as proof functions named
`law_*`.

- `hash_pointer`: pointers to stored objects: the lowercase hex SHA-256 of
  the content, split after two bytes into a folder name and a file name;
  reading pointers back from pointer files.
- `commit_pointer`: commit objects, the commit log, the steps of the commit
  command.
- `diff`: snapshots (path to hash) and the changes between two of them.
- `ignore`: ignore files and the decision whether a path is ignored.
- `path`: Unix path components, joining, resolving `.` and `..`, stripping
  a base path, ordering by depth.
- `text`, `util`, `files`, `init`, `add`, `commit`, `config`, `error`,
  `digest`: trimming and line splitting, save plans, blob locations, the
  repository layout, and the error type; `digest` holds the one call into
  `sha2`.

`app/` holds the program around the library: the command line, and all
reading and writing of files.
