# FileFinder

A file search engine for Windows. It reads the Master File Table of an NTFS volume, or walks
through the directories of any other, builds an index of all names in memory, and answers
searches for parts of names.

## Layout

- `src/` is the library. It is written in Verus: every function states what it does, and the
  statements are proved.
  - `index/` holds the index: the entries with their texts, the trigram index and the extension
    map, the builder that makes them, and the store of the current index.
  - `search/` finds candidates through the index, checks them against the query and the filters,
    and ranks the matches. `search/laws.rs` states what holds of every search.
  - `mft/` reads the records of a file table out of the buffers that the file system driver fills.
  - `platform/` lists drives and gives the entries of a scan their paths.
  - `commands/` holds the rules behind the commands of the user interface.
  - `sorting.rs`, `text.rs` and `parallel.rs` serve all of them.
- `app/` is the program around the library: the user interface commands, the system calls, the
  walk through directories and the floating point score.
- `tests/` runs the library.

## What is taken on trust

Functions marked `external_body` and `assume_specification` hand work to other crates or to the
standard library: the hash maps of `ahash`, the substring search of `memchr`, the parallel iterators
of `rayon`, the calendar of `time`, the shared cell of `arc-swap`, Unicode lower case, and the check
of UTF-8. Each says in its comment what it takes for granted. Everything else is proved.
