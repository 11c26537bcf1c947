# grper

Verified access to Ken Silverman's **GRP** archive files, the uncompressed
archive format used by Build engine games (Duke Nukem 3D, Redneck Rampage,
Shadow Warrior, ...).

`src/` is the library. Its contracts are proved by Verus:

- `layout` says what a GRP archive is, as a function on bytes, and proves that
  what is written reads back.
- `io` says what reading, seeking and writing a stream does, over a model of
  the stream; `cursor` is a stream in memory, and `testutil` holds streams that
  can be made to fail.
- `archive` opens an archive and looks up its entries; `file` serves the data
  of one entry lazily, without seeking between sequential reads.
- `writer` builds archives, fresh or from an existing one, whose files it
  carries through with their names byte for byte, padded with NULs.
- `select` picks entries by name, without regard to case; `extract` decides
  what is done with each of them. No name is handed out to be written under
  that starts with a slash or has a `..` between slashes, nor one without a
  backslash that leads into another directory.
- `plan` decides what an archive holds after files were added or replaced.
- `report`, `error` and `text` hold the messages.

`app/` is the `grper` command-line tool around it: arguments, files and
directories, and printing.

```console
$ grper extract <PATH> [FILE...] [-o <DIR>] [--strict] [--dry-run]
$ grper create <ARCHIVE> <FILE>... [--dry-run]
$ grper update <ARCHIVE> <FILE>... [--dry-run]
```

Exit status is `0` on success, `1` on a runtime error (missing archive,
invalid archive, a name that is a case-only duplicate, ...), and `2` on an
argument error.

## Library

```rust
use grper::io::Read;
use grper::{Archive, Cursor, Writer};

// Create an archive with two files.
let mut out = Cursor::new(Vec::new());
let mut writer = Writer::new(&mut out);
writer.add_file("DEFS.CON", b"def")?;
writer.add_file("HELLO.TXT", b"world")?;
writer.finish()?;

// Append to it: the existing files are carried through and rewritten ahead
// of the new one.
let mut writer = Writer::open(&mut out)?;
writer.add_file("EXTRA.BIN", &[1, 2, 3])?;
writer.finish()?;

let mut archive = Archive::new(Cursor::new(out.into_inner()))?;
let mut contents = Vec::new();
archive.entry_by_name("HELLO.TXT")?.read_to_end(&mut contents)?;
```

File names must be at most 12 bytes and must not contain a NUL byte; anything
else is rejected with a `grper::Error`.
