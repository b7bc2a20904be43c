# patrick

Storage tiering for composite mounts such as a mergerfs pool. A pool is made of
branches; each branch belongs to a tier, of which tier 0 is the fastest. The
daemon looks at the files of a pool and moves them between its branches
according to rules: quotas for subtrees, ages at which files are kept or moved,
pinned directories, and the order in which files leave.

- `src/` is the library, written in Verus: configuration, detection of the
  mount, tier assignment, planning, and the protocols by which files are moved.
  Each function states what it returns, and the `laws` modules state what holds
  of the library as a whole.
- `app/` is the program around it: arguments, files, extended attributes,
  signals and notifications.
- `tests/` runs the library on concrete values.

The library asks for what it needs to know as plain values and says what is to
be done; it never touches a file itself. Paths are bytes, durations and times
are nanoseconds.
