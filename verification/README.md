# `ooo`

A verified library for `ooo` archives, and a command line tool over it.

An `ooo` archive is a sequence of entries, each the (possibly compressed) data
of a file followed by a trailer in readable text. Entries are found from the end
of the archive backwards, so archives are combined by writing one after the
other: `cat archive1.ooo archive2.ooo > archive1+2.ooo`.

- `src/` is the library. It works on bytes in memory:
  - `number`, `text`, `unicode`, `meta`, `walk`: reading trailers and finding entries;
  - `codec`: the filters (zstd, lzma, lz4, flate) and the checksum;
  - `stream`, `pack`: writing entries;
  - `extract`, `list`: what comes out of an archive, and what it shows;
  - `names`: the names that a file is added under;
  - `words`, `balance`, `escapes`, `fields`, `dict`: how written trailers read
    back;
  - `laws`, `extraction_laws`, `stream_laws`: what holds of archives as a whole,
    of what comes out of them, and of sequences of writes and reads.
- `app/` is the tool: arguments, files and messages.
- `tests/` runs the library on concrete archives.
