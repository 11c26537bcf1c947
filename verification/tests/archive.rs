use grper::io::{Device, IoError, IoErrorKind, Read, Seek, SeekFrom, Stream};
use grper::layout::HEADER_LEN;
use grper::{Archive, Cursor, Error, FlakyReader};
use std::io::BufReader;

/// Build an in-memory GRP archive from `(name, data)` pairs.
fn build_grp(files: &[(&str, &[u8])]) -> Vec<u8> {
    let mut buf = Vec::new();
    buf.extend_from_slice(b"KenSilverman");
    buf.extend_from_slice(&(files.len() as u32).to_le_bytes());
    for (name, data) in files {
        let mut field = [0u8; 12];
        let len = name.len().min(12);
        field[..len].copy_from_slice(&name.as_bytes()[..len]);
        buf.extend_from_slice(&field);
        buf.extend_from_slice(&(data.len() as u32).to_le_bytes());
    }
    for (_, data) in files {
        buf.extend_from_slice(data);
    }
    buf
}

/// A stream of this crate as one of the standard library.
struct Std<S>(S);

impl<S: Read> std::io::Read for Std<S> {
    fn read(&mut self, buf: &mut [u8]) -> std::io::Result<usize> {
        self.0.read(buf).map_err(|error| match error.kind() {
            IoErrorKind::UnexpectedEof => std::io::ErrorKind::UnexpectedEof.into(),
            _ => std::io::Error::other(error.message),
        })
    }
}

impl<S: Seek> std::io::Seek for Std<S> {
    fn seek(&mut self, to: std::io::SeekFrom) -> std::io::Result<u64> {
        let to = match to {
            std::io::SeekFrom::Start(offset) => SeekFrom::Start(offset),
            std::io::SeekFrom::End(offset) => SeekFrom::End(offset),
            std::io::SeekFrom::Current(offset) => SeekFrom::Current(offset),
        };
        self.0.seek(to).map_err(|error| std::io::Error::other(error.message))
    }
}

/// A standard buffered reader as a stream of this crate.
struct Buffered<S: Read>(BufReader<Std<S>>);

impl<S: Read> Buffered<S> {
    fn new(stream: S) -> Self {
        Buffered(BufReader::new(Std(stream)))
    }
}

// What a stream is like is only asked in specifications.
impl<S: Read> Stream for Buffered<S> {
    fn wf(&self) -> bool {
        true
    }

    fn device(&self) -> Device {
        unreachable!()
    }

    fn lemma_fits(&self) {}
}

impl<S: Read> Read for Buffered<S> {
    fn read(&mut self, buf: &mut [u8]) -> Result<usize, IoError> {
        std::io::Read::read(&mut self.0, buf)
            .map_err(|error| IoError::new(IoErrorKind::Other, &error.to_string()))
    }
}

impl<S: Read + Seek> Seek for Buffered<S> {
    fn seek(&mut self, to: SeekFrom) -> Result<u64, IoError> {
        let to = match to {
            SeekFrom::Start(offset) => std::io::SeekFrom::Start(offset),
            SeekFrom::End(offset) => std::io::SeekFrom::End(offset),
            SeekFrom::Current(offset) => std::io::SeekFrom::Current(offset),
        };
        std::io::Seek::seek(&mut self.0, to)
            .map_err(|error| IoError::new(IoErrorKind::Other, &error.to_string()))
    }
}

#[test]
fn new_should_parse_signature_and_table() {
    let archive = Archive::new(Cursor::new(build_grp(&[
        ("A.TXT", b"123"),
        ("B.CON", b"4567"),
    ])))
    .unwrap();
    assert_eq!(archive.len(), 2);
}

#[test]
fn new_should_reject_bad_signature() {
    let mut buf = build_grp(&[("A.TXT", b"1")]);
    buf[0] = b'k';
    let err = Archive::new(Cursor::new(buf)).err().unwrap();
    assert!(matches!(err, Error::BadSignature { .. }));
}

#[test]
fn new_should_reject_files_shorter_than_header() {
    let err = Archive::new(Cursor::new(vec![0u8; 5])).err().unwrap();
    assert!(matches!(err, Error::TooSmall(len) if len == 5));
}

#[test]
fn new_should_reject_truncated_table() {
    // The count claims 3 entries but only 2 are present.
    let mut buf = build_grp(&[("A.TXT", b"1"), ("B.TXT", b"2")]);
    buf[12..16].copy_from_slice(&3u32.to_le_bytes());
    let err = Archive::new(Cursor::new(buf)).err().unwrap();
    assert!(matches!(err, Error::TableTruncated { index } if index == 2));
}

#[test]
fn new_should_reject_short_data_region() {
    let mut buf = build_grp(&[("A.TXT", b"12345")]);
    buf.truncate(buf.len() - 2);
    let err = Archive::new(Cursor::new(buf)).err().unwrap();
    assert!(matches!(err, Error::DataTruncated { .. }));
}

#[test]
fn new_should_ignore_trailing_bytes() {
    let mut buf = build_grp(&[("A.TXT", b"123")]);
    buf.extend_from_slice(b"trailing junk");
    let archive = Archive::new(Cursor::new(buf)).unwrap();
    assert_eq!(archive.len(), 1);
}

#[test]
fn new_should_parse_name_without_null_terminator() {
    // A 12-character name fills the field and has no room for a NUL.
    let mut buf = Vec::new();
    buf.extend_from_slice(b"KenSilverman");
    buf.extend_from_slice(&1u32.to_le_bytes());
    buf.extend_from_slice(b"ABCDEFGHIJKL");
    buf.extend_from_slice(&3u32.to_le_bytes());
    buf.extend_from_slice(b"xyz");
    let archive = Archive::new(Cursor::new(buf)).unwrap();
    assert_eq!(
        archive.get_entry("ABCDEFGHIJKL").map(|entry| entry.size()),
        Some(3)
    );
}

#[test]
fn new_should_parse_empty_archive() {
    let mut buf = Vec::new();
    buf.extend_from_slice(b"KenSilverman");
    buf.extend_from_slice(&0u32.to_le_bytes());
    let archive = Archive::new(Cursor::new(buf)).unwrap();
    assert!(archive.is_empty());
}

#[test]
fn new_should_work_through_buf_reader() {
    let archive =
        Archive::new(Buffered::new(Cursor::new(build_grp(&[("A.TXT", b"123")])))).unwrap();
    assert_eq!(archive.len(), 1);
}

#[test]
fn entries_should_report_names_sizes_and_offsets() {
    // Data starts after the 16-byte header plus two 16-byte entries: 48.
    let archive = Archive::new(Cursor::new(build_grp(&[
        ("A.TXT", b"123"),
        ("B.CON", b"abcd"),
    ])))
    .unwrap();
    assert_eq!(archive.entries()[0].name(), "A.TXT");
    assert_eq!(archive.entries()[0].size(), 3);
    assert_eq!(archive.entries()[0].offset(), 48);
    assert_eq!(archive.entries()[1].offset(), 51);
}

#[test]
fn get_entry_should_find_entry_by_name() {
    let archive =
        Archive::new(Cursor::new(build_grp(&[("A.TXT", b"1"), ("B.CON", b"2")]))).unwrap();
    assert!(archive.get_entry("B.CON").is_some());
}

#[test]
fn get_entry_should_return_none_for_missing_name() {
    let archive = Archive::new(Cursor::new(build_grp(&[("A.TXT", b"1")]))).unwrap();
    assert!(archive.get_entry("NOPE.TXT").is_none());
}

#[test]
fn entry_should_reject_out_of_range_index() {
    let mut archive = Archive::new(Cursor::new(build_grp(&[("A.TXT", b"1")]))).unwrap();
    let err = archive.entry(1).err().unwrap();
    assert!(matches!(err, Error::IndexOutOfBounds { index: 1, len: 1 }));
}

#[test]
fn new_should_propagate_io_errors_from_header_read() {
    let data = build_grp(&[("A.TXT", b"123")]);
    let err = Archive::new(FlakyReader::new(data).failing_reads_from(0)).err().unwrap();
    assert!(matches!(err, Error::Io(_)));
}

#[test]
fn new_should_propagate_io_errors_from_length_probe() {
    // Both the header read and the length probe fail; the probe's error
    // must propagate as an I/O error.
    let err =
        Archive::new(FlakyReader::new(vec![0u8; 5]).failing_position_seeks()).err().unwrap();
    assert!(matches!(err, Error::Io(_)));
}

#[test]
fn new_should_propagate_io_errors_from_table_read() {
    let data = build_grp(&[("A.TXT", b"123")]);
    let err =
        Archive::new(FlakyReader::new(data).failing_reads_from(HEADER_LEN as u64)).err().unwrap();
    assert!(matches!(err, Error::Io(_)));
}

#[test]
fn entry_should_open_entry_at_index() {
    let data = build_grp(&[("A.TXT", b"123"), ("B.CON", b"45")]);
    let mut archive = Archive::new(Cursor::new(data)).unwrap();
    let file = archive.entry(1).unwrap();
    assert_eq!(file.name(), "B.CON");
    assert_eq!(file.size(), 2);
}

#[test]
fn entry_by_name_should_open_entry_that_exists() {
    let data = build_grp(&[("A.TXT", b"123"), ("B.CON", b"45")]);
    let mut archive = Archive::new(Cursor::new(data)).unwrap();
    let file = archive.entry_by_name("B.CON").unwrap();
    assert_eq!(file.name(), "B.CON");
}

#[test]
fn entry_by_name_should_reject_missing_name() {
    let mut archive = Archive::new(Cursor::new(build_grp(&[("A.TXT", b"1")]))).unwrap();
    let err = archive.entry_by_name("MISS.TXT").err().unwrap();
    assert!(matches!(err, Error::EntryNotFound { .. }));
}

#[test]
fn is_empty_should_distinguish_empty_and_non_empty_archives() {
    let empty = Archive::new(Cursor::new(build_grp(&[]))).unwrap();
    assert!(empty.is_empty());
    let full = Archive::new(Cursor::new(build_grp(&[("A.TXT", b"1")]))).unwrap();
    assert!(!full.is_empty());
}

#[test]
fn new_should_reject_bad_signature_through_buf_reader() {
    let mut data = build_grp(&[("A.TXT", b"1")]);
    data[0] = b'k';
    let err = Archive::new(Buffered::new(Cursor::new(data))).err().unwrap();
    assert!(matches!(err, Error::BadSignature { .. }));
}

#[test]
fn new_should_reject_files_shorter_than_header_through_buf_reader() {
    let err = Archive::new(Buffered::new(Cursor::new(vec![0u8; 5]))).err().unwrap();
    assert!(matches!(err, Error::TooSmall(len) if len == 5));
}

#[test]
fn new_should_reject_truncated_table_through_buf_reader() {
    let mut data = build_grp(&[("A.TXT", b"1"), ("B.TXT", b"2")]);
    data[12..16].copy_from_slice(&3u32.to_le_bytes());
    let err = Archive::new(Buffered::new(Cursor::new(data))).err().unwrap();
    assert!(matches!(err, Error::TableTruncated { .. }));
}

#[test]
fn new_should_reject_short_data_region_through_buf_reader() {
    let mut data = build_grp(&[("A.TXT", b"12345")]);
    data.truncate(data.len() - 2);
    let err = Archive::new(Buffered::new(Cursor::new(data))).err().unwrap();
    assert!(matches!(err, Error::DataTruncated { .. }));
}

#[test]
fn new_should_propagate_io_errors_from_buf_reader() {
    // A buffered reader can surface non-Eof I/O errors from its source;
    // they must map to Error::Io, not a format error.
    let data = build_grp(&[("A.TXT", b"123")]);
    let err =
        Archive::new(Buffered::new(FlakyReader::new(data).failing_reads_from(0))).err().unwrap();
    assert!(matches!(err, Error::Io(_)));
}

#[test]
fn new_should_reject_files_shorter_than_header_on_flaky_reader() {
    let err = Archive::new(FlakyReader::new(vec![0u8; 5])).err().unwrap();
    assert!(matches!(err, Error::TooSmall(len) if len == 5));
}

#[test]
fn new_should_reject_bad_signature_on_flaky_reader() {
    let mut data = build_grp(&[("A.TXT", b"1")]);
    data[0] = b'k';
    let err = Archive::new(FlakyReader::new(data)).err().unwrap();
    assert!(matches!(err, Error::BadSignature { .. }));
}

#[test]
fn new_should_reject_truncated_table_on_flaky_reader() {
    let mut data = build_grp(&[("A.TXT", b"1"), ("B.TXT", b"2")]);
    data[12..16].copy_from_slice(&3u32.to_le_bytes());
    let err = Archive::new(FlakyReader::new(data)).err().unwrap();
    assert!(matches!(err, Error::TableTruncated { .. }));
}

#[test]
fn new_should_reject_short_data_region_on_flaky_reader() {
    let mut data = build_grp(&[("A.TXT", b"12345")]);
    data.truncate(data.len() - 2);
    let err = Archive::new(FlakyReader::new(data)).err().unwrap();
    assert!(matches!(err, Error::DataTruncated { .. }));
}

#[test]
fn extract_should_copy_entry_data() {
    let mut archive = Archive::new(Cursor::new(build_grp(&[
        ("A.TXT", b"12345"),
        ("B.CON", b""),
    ])))
    .unwrap();
    let mut out = Vec::new();
    let written = archive.extract(0, &mut out).unwrap();
    assert_eq!(written, 5);
    assert_eq!(out, b"12345");
}

#[test]
fn extract_should_reject_out_of_range_index() {
    let mut archive = Archive::new(Cursor::new(build_grp(&[("A.TXT", b"1")]))).unwrap();
    let err = archive.extract(1, &mut Vec::new()).err().unwrap();
    assert!(matches!(err, Error::IndexOutOfBounds { index: 1, len: 1 }));
}

#[test]
fn extract_should_propagate_read_errors() {
    let data = build_grp(&[("A.TXT", b"12345")]);
    let mut archive = Archive::new(FlakyReader::new(data).failing_reads_from(32))
        .expect("open succeeds; the failure is in the extraction read");
    let err = archive.extract(0, &mut Vec::new()).err().unwrap();
    assert!(matches!(err, Error::Io(_)));
}
