use grper::archive::{parse_name, read_all_entries};
use grper::error::Error;
use grper::io::{Device, IoError, IoErrorKind, Read, Seek, SeekFrom, Stream};
use grper::text::{decimal_text, eq_ignore_ascii_case, pad, same_text};
use grper::{Archive, Cursor, FlakyReader};

/// Build an in-memory GRP archive from `(name, data)` pairs.
fn build_grp(files: &[(&str, &[u8])]) -> Vec<u8> {
    let mut buf = Vec::new();
    buf.extend_from_slice(b"KenSilverman");
    buf.extend_from_slice(&(files.len() as u32).to_le_bytes());
    for (name, data) in files {
        let mut field = [0u8; 12];
        let len = name.len().min(12);
        field[..len].copy_from_slice(&name.as_bytes()[..len]);
        buf.extend_from_slice(&field);
        buf.extend_from_slice(&(data.len() as u32).to_le_bytes());
    }
    for (_, data) in files {
        buf.extend_from_slice(data);
    }
    buf
}

#[test]
fn trailing_bytes_change_nothing() {
    let plain = build_grp(&[("A.TXT", b"123"), ("B.TXT", b"45")]);
    let mut longer = plain.clone();
    longer.extend_from_slice(b"KenSilverman");
    let mut first = Archive::new(Cursor::new(plain)).ok().unwrap();
    let mut second = Archive::new(Cursor::new(longer)).ok().unwrap();
    assert_eq!(first.entries(), second.entries());
    assert_eq!(
        read_all_entries(&mut first).unwrap(),
        read_all_entries(&mut second).unwrap()
    );
}

#[test]
fn data_follows_the_table_without_gaps() {
    let archive = Archive::new(Cursor::new(build_grp(&[
        ("A", b"123"),
        ("B", b""),
        ("C", b"45"),
    ])))
    .ok()
    .unwrap();
    let offsets: Vec<u64> = archive.entries().iter().map(|entry| entry.offset()).collect();
    assert_eq!(offsets, [64, 67, 67]);
}

#[test]
fn the_first_of_equal_names_is_found() {
    let mut archive = Archive::new(Cursor::new(build_grp(&[
        ("A", b"1"),
        ("A", b"22"),
        ("B", b"333"),
    ])))
    .ok()
    .unwrap();
    assert_eq!(archive.get_entry("A").unwrap().size(), 1);
    assert_eq!(archive.entry_by_name("A").ok().unwrap().size(), 1);
    // Names are looked up exactly.
    assert!(archive.get_entry("b").is_none());
}

#[test]
fn declared_end_beyond_the_file_is_reported() {
    let mut grp = build_grp(&[("A", b"12345")]);
    grp.truncate(35);
    let error = Archive::new(Cursor::new(grp)).err().unwrap();
    assert!(matches!(
        error,
        Error::DataTruncated {
            declared: 37,
            actual: 35
        }
    ));
}

#[test]
fn a_table_cut_inside_a_record_is_truncated_there() {
    let mut grp = build_grp(&[("A", b""), ("B", b"")]);
    grp.truncate(40);
    let error = Archive::new(Cursor::new(grp)).err().unwrap();
    assert!(matches!(error, Error::TableTruncated { index: 1 }));
}

#[test]
fn an_archive_is_read_from_the_position_on() {
    let mut stream = Cursor::new(build_grp(&[("A", b"1")]));
    stream.seek(SeekFrom::End(0)).unwrap();
    // Past the archive there is no header.
    assert!(matches!(
        Archive::new(stream).err(),
        Some(Error::TooSmall(33))
    ));
}

#[test]
fn names_end_at_the_first_nul() {
    assert_eq!(parse_name(b"ABC\0DEF\0\0\0\0\0"), "ABC");
    assert_eq!(parse_name(b"\0BC"), "");
    assert_eq!(parse_name(b"ABCDEFGHIJKL"), "ABCDEFGHIJKL");
    assert_eq!(parse_name("\u{e4}B".as_bytes()), "\u{e4}B");
    assert_eq!(parse_name(b"A\xFFB"), "A\u{FFFD}B");
}

#[test]
fn a_rewound_file_reads_the_same() {
    let mut archive = Archive::new(Cursor::new(build_grp(&[("A", b"hello"), ("B", b"x")])))
        .ok()
        .unwrap();
    let mut file = archive.entry(0).ok().unwrap();
    let mut all = Vec::new();
    file.read_to_end(&mut all).unwrap();
    assert_eq!(file.position(), 5);
    assert_eq!(file.seek(SeekFrom::Current(-3)).unwrap(), 2);
    file.read_to_end(&mut all).unwrap();
    assert_eq!(all, b"hellollo");
    let error = file.seek(SeekFrom::Current(-6)).unwrap_err();
    assert_eq!(error.kind(), IoErrorKind::InvalidInput);
    assert_eq!(error.message, "seek position before start of entry");
    // A refused seek leaves the position alone.
    assert_eq!(file.position(), 5);
}

#[test]
fn seeks_of_a_file_are_lazy() {
    // Seeking the proxy never seeks the reader, whose seeks fail.
    let reader = FlakyReader::new(build_grp(&[("A", b"hello")])).failing_start_seeks();
    let mut archive = Archive::new(reader).ok().unwrap();
    let mut file = archive.entry(0).ok().unwrap();
    assert_eq!(file.seek(SeekFrom::Start(3)).unwrap(), 3);
    assert_eq!(file.seek(SeekFrom::End(-1)).unwrap(), 4);
    assert_eq!(file.seek(SeekFrom::Start(9)).unwrap(), 9);
    // Past the end there is nothing to read, so the reader is left alone.
    assert_eq!(file.read(&mut [0; 4]).unwrap(), 0);
    file.rewind().unwrap();
    assert!(file.read(&mut [0; 4]).is_err());
}

#[test]
fn read_exact_reports_a_short_file() {
    let mut archive = Archive::new(Cursor::new(build_grp(&[("A", b"abc")]))).ok().unwrap();
    let mut file = archive.entry(0).ok().unwrap();
    let error = file.read_exact(&mut [0; 4]).unwrap_err();
    assert_eq!(error.kind(), IoErrorKind::UnexpectedEof);
}

#[test]
fn extraction_stops_at_a_failing_sink() {
    let mut archive = Archive::new(Cursor::new(build_grp(&[("A", b"abc")]))).ok().unwrap();
    let mut sink = grper::FlakyWriter::new(Vec::new()).failing_writes_at(0);
    assert!(matches!(
        archive.extract(0, &mut sink),
        Err(Error::Io(_))
    ));
    // The archive can be used on.
    let mut out = vec![9];
    assert_eq!(archive.extract(0, &mut out).unwrap(), 3);
    assert_eq!(out, [9, b'a', b'b', b'c']);
}

#[test]
fn an_entry_that_cannot_be_read_is_named() {
    let grp = build_grp(&[("A", b"1"), ("B", b"2")]);
    let mut archive = Archive::new(FlakyReader::new(grp).failing_reads_at(49)).ok().unwrap();
    let failure = read_all_entries(&mut archive).unwrap_err();
    assert_eq!(failure.name, "B");
    assert!(matches!(failure.error, Error::Io(_)));
}

#[test]
fn every_error_has_a_message() {
    let cases = [
        (
            Error::BadSignature {
                found: *b"kenSilverman",
            },
            "not a GRP archive: signature [107, 101, 110, 83, 105, 108, 118, 101, 114, 109, \
             97, 110], expected \"KenSilverman\"",
        ),
        (
            Error::TooSmall(5),
            "file too small to be a GRP archive: 5 bytes, need at least 16",
        ),
        (
            Error::TableTruncated { index: 10 },
            "archive truncated in file table at entry 10",
        ),
        (
            Error::DataTruncated {
                declared: 100,
                actual: 99,
            },
            "archive ends at byte 99 but its file table declares data until byte 100",
        ),
        (
            Error::IndexOutOfBounds { index: 3, len: 2 },
            "entry index 3 out of range: archive has 2 entries",
        ),
        (
            Error::EntryNotFound {
                name: "A\"B".to_owned(),
            },
            "no entry named \"A\\\"B\" in archive",
        ),
        (
            Error::NameTooLong {
                name: "ABCDEFGHIJKLM".to_owned(),
                max: 12,
            },
            "file name \"ABCDEFGHIJKLM\" is too long; GRP names are limited to 12 bytes",
        ),
        (
            Error::NameContainsNull {
                name: "A\0".to_owned(),
            },
            "file name \"A\\0\" contains a NUL byte",
        ),
        (
            Error::Io(IoError::new(IoErrorKind::Other, "disk on fire")),
            "disk on fire",
        ),
    ];
    for (error, message) in cases {
        assert_eq!(error.message(), message);
    }
}

#[test]
fn numbers_in_decimal() {
    for value in [0, 9, 10, 101, 4096, u64::MAX] {
        assert_eq!(decimal_text(value), value.to_string());
    }
}

#[test]
fn only_ascii_letters_fold() {
    assert!(eq_ignore_ascii_case("aZ[.1", "Az[.1"));
    assert!(!eq_ignore_ascii_case("[", "{"));
    assert!(!eq_ignore_ascii_case("\u{dc}", "\u{fc}"));
    assert!(!eq_ignore_ascii_case("A", "AB"));
    assert!(same_text("A", "A"));
    assert!(!same_text("A", "a"));
}

#[test]
fn padding_counts_characters() {
    assert_eq!(pad("\u{e4}b", 4), "\u{e4}b  ");
    assert_eq!(pad("abcde", 4), "abcde");
    assert_eq!(pad("", 2), "  ");
}

/// A stream that counts its seeks and remembers how far it was read.
struct Counting {
    inner: Cursor,
    seeks: usize,
    reach: u64,
}

// What a stream is like is only asked in specifications.
impl Stream for Counting {
    fn wf(&self) -> bool {
        true
    }

    fn device(&self) -> Device {
        unreachable!()
    }

    fn lemma_fits(&self) {}
}

impl Read for Counting {
    fn read(&mut self, buf: &mut [u8]) -> Result<usize, IoError> {
        self.reach = self.reach.max(self.inner.position() + buf.len() as u64);
        self.inner.read(buf)
    }
}

impl Seek for Counting {
    fn seek(&mut self, to: SeekFrom) -> Result<u64, IoError> {
        self.seeks += 1;
        self.inner.seek(to)
    }
}

#[test]
fn sequential_reads_seek_once() {
    let mut stream = Counting {
        inner: Cursor::new(build_grp(&[("A", b"0123456789")])),
        seeks: 0,
        reach: 0,
    };
    let mut file = grper::File::new(&mut stream, "A".to_owned(), 32, 10);
    let mut byte = [0; 1];
    for expected in b"0123456789" {
        assert_eq!(file.read(&mut byte).unwrap(), 1);
        assert_eq!(byte[0], *expected);
    }
    assert_eq!(file.read(&mut byte).unwrap(), 0);
    assert_eq!(stream.seeks, 1);
}

#[test]
fn reading_on_seeks_once() {
    let data: Vec<u8> = (0..10_000).map(|i| (i % 251) as u8).collect();
    let mut stream = Counting {
        inner: Cursor::new(build_grp(&[("A", &data), ("B", b"other")])),
        seeks: 0,
        reach: 0,
    };
    let mut file = grper::File::new(&mut stream, "A".to_owned(), 48, 10_000);
    let mut head = [0; 100];
    file.read_exact(&mut head).unwrap();
    assert_eq!(head, data[..100]);
    file.read_exact(&mut head).unwrap();
    assert_eq!(head, data[100..200]);
    let mut rest = vec![7];
    assert_eq!(file.read_to_end(&mut rest).unwrap(), 9_800);
    assert_eq!(rest[0], 7);
    assert_eq!(rest[1..], data[200..]);
    // At the end there is nothing to read, and a buffer is not filled.
    assert_eq!(file.read_to_end(&mut rest).unwrap(), 0);
    let error = file.read_exact(&mut head).unwrap_err();
    assert_eq!(error.kind, IoErrorKind::UnexpectedEof);
    assert_eq!(stream.seeks, 1);
    assert_eq!(stream.reach, 10_048);
}

#[test]
fn interrupted_reads_are_retried() {
    struct Interrupted(Cursor, bool);
    impl Stream for Interrupted {
        fn wf(&self) -> bool {
            true
        }

        fn device(&self) -> Device {
            unreachable!()
        }

        fn lemma_fits(&self) {}
    }
    impl Read for Interrupted {
        fn read(&mut self, buf: &mut [u8]) -> Result<usize, IoError> {
            self.1 = !self.1;
            if self.1 {
                return Err(IoError::new(IoErrorKind::Interrupted, "interrupted"));
            }
            // One byte at a time.
            let len = buf.len().min(1);
            self.0.read(&mut buf[..len])
        }
    }
    impl Seek for Interrupted {
        fn seek(&mut self, to: SeekFrom) -> Result<u64, IoError> {
            self.0.seek(to)
        }
    }
    let stream = Interrupted(Cursor::new(build_grp(&[("A.TXT", b"12345")])), false);
    let mut archive = Archive::new(stream).ok().unwrap();
    let mut out = Vec::new();
    assert_eq!(archive.extract(0, &mut out).unwrap(), 5);
    assert_eq!(out, b"12345");
    let mut all = Vec::new();
    archive.entry(0).ok().unwrap().read_to_end(&mut all).unwrap();
    assert_eq!(all, b"12345");
}

#[test]
fn opening_reads_no_file_data() {
    let mut stream = Counting {
        inner: Cursor::new(build_grp(&[("A", b"0123456789"), ("B", b"x")])),
        seeks: 0,
        reach: 0,
    };
    assert_eq!(Archive::new(&mut stream).ok().unwrap().len(), 2);
    assert_eq!(stream.seeks, 1);
    assert_eq!(stream.reach, 48);
}

#[test]
fn a_file_is_not_read_past_its_end() {
    let mut stream = Counting {
        inner: Cursor::new(build_grp(&[("A", b"12"), ("B", b"345")])),
        seeks: 0,
        reach: 0,
    };
    let mut file = grper::File::new(&mut stream, "A".to_owned(), 48, 2);
    let mut buf = [9u8; 8];
    assert_eq!(file.read(&mut buf).unwrap(), 2);
    assert_eq!(&buf, b"12\x09\x09\x09\x09\x09\x09");
    assert_eq!(file.read(&mut buf).unwrap(), 0);
    assert_eq!(&buf, b"12\x09\x09\x09\x09\x09\x09");
    assert_eq!(stream.reach, 50);
}

#[test]
fn extraction_can_be_repeated() {
    let mut archive = Archive::new(Cursor::new(build_grp(&[("A", b"hello"), ("B", b"wor")])))
        .ok()
        .unwrap();
    let mut first = Vec::new();
    archive.extract(0, &mut first).unwrap();
    let mut file = archive.entry(1).ok().unwrap();
    file.seek(SeekFrom::Start(1)).unwrap();
    file.read(&mut [0; 1]).unwrap();
    let mut second = Vec::new();
    archive.extract(0, &mut second).unwrap();
    assert_eq!(first, second);
    let mut all = Vec::new();
    for index in 0..2 {
        archive.extract(index, &mut all).unwrap();
    }
    assert_eq!(all, b"hellowor");
}

#[test]
fn stored_names_are_short_and_free_of_nul() {
    for field in [*b"\xFF\xFE\xFD\xFC\xFB\xFA\xF9\xF8\xF7\xF6\xF5\xF4", *b"\xC3A\xE2\x82B\0\xF0\x9F\x98CDE"] {
        let name = parse_name(&field);
        assert!(name.chars().count() <= 12);
        assert!(!name.contains('\0'));
    }
}

#[test]
fn a_stream_that_reports_its_end_is_too_small() {
    struct Ending(Cursor);
    impl Stream for Ending {
        fn wf(&self) -> bool {
            true
        }

        fn device(&self) -> Device {
            unreachable!()
        }

        fn lemma_fits(&self) {}
    }
    impl Read for Ending {
        fn read(&mut self, _: &mut [u8]) -> Result<usize, IoError> {
            Err(IoError::new(IoErrorKind::UnexpectedEof, "no more"))
        }
    }
    impl Seek for Ending {
        fn seek(&mut self, to: SeekFrom) -> Result<u64, IoError> {
            self.0.seek(to)
        }
    }
    let stream = Ending(Cursor::new(Vec::new()));
    assert!(matches!(Archive::new(stream).err(), Some(Error::TooSmall(0))));
}

#[test]
fn failing_reads_and_seeks_are_io_errors() {
    let grp = || build_grp(&[("A", b"1"), ("B", b"2")]);
    for reader in [
        FlakyReader::new(grp()).failing_reads_at(0),
        FlakyReader::new(grp()).failing_reads_at(32),
        FlakyReader::new(grp()).failing_end_seeks(),
        FlakyReader::new(vec![0; 5]).failing_position_seeks(),
        FlakyReader::new(vec![0; 5]).failing_reads_at(5),
    ] {
        assert!(matches!(
            Archive::new(reader).err(),
            Some(Error::Io(error)) if error.message == "forced I/O error"
        ));
    }
    // A read that gives nothing is the end of the file.
    assert!(matches!(
        Archive::new(FlakyReader::new(grp()).zero_reads_at(32)).err(),
        Some(Error::TableTruncated { index: 1 })
    ));
    assert!(Archive::new(FlakyReader::new(grp()).zero_reads_at(48)).is_ok());
}
