//! Access to Build engine **GRP** archive files.
//!
//! GRP is the uncompressed archive format used by Ken Silverman's Build
//! engine (Duke Nukem 3D, Redneck Rampage, Shadow Warrior, ...). A GRP file
//! is laid out as:
//!
//! | Data type  | Name      | Description                                |
//! | ---------- | --------- | ------------------------------------------ |
//! | `char[12]` | signature | `"KenSilverman"` (not NUL-terminated)      |
//! | `u32le`    | fileCount | Number of files                            |
//! | ...        | entries   | `fileCount` x (12-byte 8.3 name + `u32le` size) |
//!
//! File data starts immediately after the last entry; a file's offset is the
//! sum of the sizes of all files before it. Names are 8.3 style and
//! NUL-terminated only when they fit in the 12-byte field.
//!
//! [`Archive`] reads an archive and serves its files lazily, through
//! [`File`]; [`Writer`] writes one. What both mean is stated over the format
//! itself, in [`layout`], and over streams of bytes, in [`io`]. On top of them
//! stand the decisions of a command-line tool: which entries to extract
//! ([`select`], [`extract`]), what an updated archive holds ([`plan`]), and what
//! is said about it ([`report`]).

pub mod archive;
pub mod cursor;
pub mod error;
pub mod extract;
pub mod file;
pub mod io;
pub mod layout;
pub mod plan;
pub mod report;
pub mod select;
pub mod testutil;
pub mod text;
pub mod writer;

pub use crate::archive::{Archive, Entry};
pub use crate::cursor::Cursor;
pub use crate::error::Error;
pub use crate::file::File;
pub use crate::testutil::{FlakyReader, FlakyWriter};
pub use crate::writer::Writer;
