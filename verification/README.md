# lark

The core of an LSM-tree key-value engine, written in Verus.

* `src/` is the verified library. `engine` holds the memtable, blocks, filters
  and indexes, the manifest, lookups, iterators, compaction, recovery and the
  engine itself; `backup` and `checkpoint` plan copies of a database;
  `column_family` divides the key space. Nothing in it touches a file: it takes
  what was read and says what is to be written.
* `app/` opens files, takes locks and runs threads, and asks the library what
  to do.
* `tests/` runs the library.

The laws of the library are proof functions beside what they speak of. Those
that span modules are in the files of `engine/` whose names end in `_laws`:
what the engine holds, that newer layers hide older ones and that every step
keeps them in that order, that compaction and pushing tables down change no
read, that scans and lookups agree, that a walk shows all there is, either way,
that a table taken in from outside hides what is older and nothing else, that a
copy reads as its source, and that a recovery loses nothing.
