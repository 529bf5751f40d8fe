# kaitodb

A small paged storage engine, verified with Verus.

- `src/` is the library. Every function of it is verified except three small
  trusted wrappers around outside calls (`words_as_bytes` in `disk`, `random_u16`
  in `page`, `string_from_bytes` in `record`), whose contracts state what
  `rand` and `String::from_utf8_lossy` give:
  - `disk`: database files as named byte sequences of 4096-byte blocks
    (block 0 is a file's header, data page `n` is block `n + 1`);
  - `buffer_pool`: a fixed number of page buffers with LRU and clock
    replacement, marking dirty and writing back;
  - `page`: slotted data pages (header, item directory, items stored from the
    end of the page down) and the item handler that inserts, reads and updates
    items by uuid (page number in the upper 16 bits);
  - `record`: table header pages (first free page, attributes) and records
    split into length-prefixed values;
  - `node`, `key_value_pair`, `bplus_tree`: the B+ tree index, whose nodes are
    75-byte records stored as items of the index file;
  - `global`, `kd_database`, `kd_type`, `pg_setting`: the catalogue files;
  - `bytes`: big- and little-endian integers in byte sequences.
  The contracts state each function's result over spec functions of these
  byte layouts; the `law_*` proof functions state what holds across calls
  (a read gives back a write, items inserted through a handler are listed in
  order and read back by uuid, a search after an insert into a leaf right below
  the root finds the pair, an index opens as it was created, a table
  opens as it was created, a settings file reads back as it was written, and so
  on).
- `tests/` runs the library on concrete values.
- `app/` is the program around it: it reads and writes the files of the
  working directory and keeps the catalogue state of the process.
