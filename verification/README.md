# find_dupl_file

A duplicate-file finder for collections spread over many disks that are not
connected at the same time. Each scan writes the files of one disk into a local
SQLite index; duplicates are then found across every indexed disk, by size or by
size and a sampled SHA-256 hash.

## Layout

- `src/` is the library, written in Verus and verified:
  - `config.rs`: scan settings, which files are indexed and which folders skipped;
  - `disk.rs`: disk ids and the recognition of disk roots in old indexes;
  - `grouping.rs`: grouping index rows into duplicate groups and their order;
  - `sampling.rs`: which parts of a file a sampled hash reads, and the hash;
  - `report.rs`: human-readable sizes and the text report;
  - `results.rs`, `selection.rs`, `keys.rs`: the groups on screen, the files
    ticked for deletion, and the keys that identify them;
  - `messages.rs`: the texts shown to the user, in Chinese and English;
  - `model.rs`, `text.rs`: the records of the index and string helpers.
- `app/` is the command-line program around the library: the SQLite database,
  walking folders, reading file samples and the interactive commands.
- `tests/` runs the library on concrete values.
