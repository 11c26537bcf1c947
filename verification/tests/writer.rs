use grper::archive::read_all_entries;
use grper::io::{Device, IoError, IoErrorKind, Read, Seek, SeekFrom, Stream, Write};
use grper::writer::validate_name;
use grper::{Archive, Cursor, Error, FlakyWriter, Writer};

/// Build an in-memory GRP archive from `(name, data)` pairs.
fn build_grp(files: &[(&str, &[u8])]) -> Vec<u8> {
    let mut buf = Vec::new();
    buf.extend_from_slice(b"KenSilverman");
    buf.extend_from_slice(&(files.len() as u32).to_le_bytes());
    for (name, data) in files {
        let mut field = [0u8; 12];
        let len = name.len().min(12);
        field[..len].copy_from_slice(&name.as_bytes()[..len]);
        buf.extend_from_slice(&field);
        buf.extend_from_slice(&(data.len() as u32).to_le_bytes());
    }
    for (_, data) in files {
        buf.extend_from_slice(data);
    }
    buf
}

fn files_of(bytes: Vec<u8>) -> Vec<(String, Vec<u8>)> {
    let mut archive = Archive::new(Cursor::new(bytes)).ok().unwrap();
    read_all_entries(&mut archive).unwrap()
}

fn pairs(files: &[(&str, &[u8])]) -> Vec<(String, Vec<u8>)> {
    files
        .iter()
        .map(|(name, data)| (name.to_string(), data.to_vec()))
        .collect()
}

fn written(files: &[(&str, &[u8])], target: Vec<u8>) -> Vec<u8> {
    let mut writer = Writer::new(Cursor::new(target));
    for (name, data) in files {
        writer.add_file(name, data).unwrap();
    }
    writer.finish().ok().unwrap().into_inner()
}

#[test]
fn finish_writes_the_format() {
    let files: &[(&str, &[u8])] = &[("HELLO.TXT", b"world"), ("ABCDEFGHIJKL", b""), ("X", b"yz")];
    assert_eq!(written(files, Vec::new()), build_grp(files));
}

#[test]
fn what_was_written_reads_back() {
    let files: &[(&str, &[u8])] = &[("A", b"1"), ("B", b""), ("A", b"22")];
    assert_eq!(files_of(written(files, Vec::new())), pairs(files));
}

#[test]
fn finish_overwrites_and_keeps_what_lies_beyond() {
    let mut expected = build_grp(&[("A", b"1")]);
    let old = vec![0xAA; 64];
    expected.extend_from_slice(&old[33..]);
    let bytes = written(&[("A", b"1")], old);
    assert_eq!(bytes, expected);
    // The trailing bytes are ignored.
    assert_eq!(files_of(bytes), pairs(&[("A", b"1")]));
}

#[test]
fn sizes_and_counts_are_little_endian() {
    let data = vec![7u8; 0x01_02_03];
    let bytes = written(&[("BIG", &data)], Vec::new());
    assert_eq!(bytes[12..16], [1, 0, 0, 0]);
    assert_eq!(bytes[28..32], [0x03, 0x02, 0x01, 0]);
}

#[test]
fn appending_rewrites_the_existing_files_first() {
    let target = Cursor::new(build_grp(&[("HELLO.TXT", b"world"), ("DEF.CON", b"def")]));
    let mut writer = Writer::open(target).ok().unwrap();
    writer.add_file("EXTRA.BIN", &[1, 2, 3]).unwrap();
    let bytes = writer.finish().ok().unwrap().into_inner();
    assert_eq!(
        bytes,
        build_grp(&[
            ("HELLO.TXT", b"world"),
            ("DEF.CON", b"def"),
            ("EXTRA.BIN", &[1, 2, 3]),
        ])
    );
}

#[test]
fn a_finished_target_can_be_opened_at_once() {
    let mut writer = Writer::new(Cursor::new(Vec::new()));
    writer.add_file("DEFS.CON", b"def").unwrap();
    let target = writer.finish().ok().unwrap();
    // The target is left at the end of the archive.
    assert_eq!(target.position(), 35);
    let mut writer = Writer::open(target).ok().unwrap();
    writer.add_file("EXTRA.BIN", &[1, 2, 3]).unwrap();
    let bytes = writer.finish().ok().unwrap().into_inner();
    assert_eq!(
        files_of(bytes),
        pairs(&[("DEFS.CON", b"def"), ("EXTRA.BIN", &[1, 2, 3])])
    );
}

#[test]
fn opening_and_finishing_changes_nothing() {
    let mut bytes = build_grp(&[("A.TXT", b"123"), ("B.TXT", b"4")]);
    bytes.extend_from_slice(b"trailing");
    let writer = Writer::open(Cursor::new(bytes.clone())).ok().unwrap();
    assert_eq!(writer.finish().ok().unwrap().into_inner(), bytes);
}

#[test]
fn open_refuses_what_is_not_an_archive() {
    let error = Writer::open(Cursor::new(b"definitely not a grp".to_vec()))
        .err()
        .unwrap();
    assert!(matches!(error, Error::BadSignature { found } if &found == b"definitely n"));
    let error = Writer::open(Cursor::new(vec![1, 2, 3])).err().unwrap();
    assert!(matches!(error, Error::TooSmall(3)));
}

#[test]
fn names_are_limited_to_twelve_bytes() {
    assert!(validate_name("ABCDEFGH.TXT").is_ok());
    assert!(validate_name("").is_ok());
    let error = validate_name("ABCDEFGHI.TXT").unwrap_err();
    assert!(
        matches!(error, Error::NameTooLong { ref name, max: 12 } if name == "ABCDEFGHI.TXT")
    );
    // Seven characters of two bytes each.
    assert!(matches!(
        validate_name("\u{e4}\u{e4}\u{e4}\u{e4}\u{e4}\u{e4}\u{e4}"),
        Err(Error::NameTooLong { .. })
    ));
    assert!(validate_name("\u{e4}\u{e4}\u{e4}\u{e4}\u{e4}\u{e4}").is_ok());
}

#[test]
fn names_must_not_contain_nul() {
    let mut writer = Writer::new(Cursor::new(Vec::new()));
    let error = writer.add_file("A\0B", b"").unwrap_err();
    assert!(matches!(error, Error::NameContainsNull { ref name } if name == "A\0B"));
    // The length is checked first.
    let error = writer.add_file("A\0BCDEFGHIJKL", b"").unwrap_err();
    assert!(matches!(error, Error::NameTooLong { .. }));
    // A refused file is not staged.
    let bytes = writer.finish().ok().unwrap().into_inner();
    assert_eq!(bytes, build_grp(&[]));
}

#[test]
fn names_that_are_not_utf8_are_carried_through() {
    // One empty file whose name field is six bytes that are not UTF-8.
    let mut grp = b"KenSilverman\x01\0\0\0".to_vec();
    grp.extend_from_slice(&[0xFF; 6]);
    grp.extend_from_slice(&[0; 6]);
    grp.extend_from_slice(&[0; 4]);
    let writer = Writer::open(Cursor::new(grp.clone())).ok().unwrap();
    assert_eq!(writer.finish().ok().unwrap().into_inner(), grp);

    // A full field, with a file appended.
    let mut grp = build_grp(&[("ABCDEFGHIJKL", b"1")]);
    for byte in &mut grp[16..28] {
        *byte = 0xFF;
    }
    let record = grp[16..32].to_vec();
    let mut writer = Writer::open(Cursor::new(grp)).ok().unwrap();
    writer.add_file("NEW", b"22").unwrap();
    let bytes = writer.finish().ok().unwrap().into_inner();
    assert_eq!(bytes[16..32], record);
    let files = files_of(bytes);
    assert_eq!(files[0].0, "\u{FFFD}".repeat(12));
    assert_eq!(files[0].1, b"1");
    assert_eq!(files[1], ("NEW".to_owned(), b"22".to_vec()));
}

#[test]
fn what_follows_the_nul_in_a_name_field_becomes_nuls() {
    let clean = build_grp(&[("A.TXT", b"1"), ("B.TXT", b"22")]);
    let mut grp = clean.clone();
    grp[16..28].copy_from_slice(b"A.TXT\0GARBAG");
    assert_eq!(files_of(grp.clone()), pairs(&[("A.TXT", b"1"), ("B.TXT", b"22")]));
    let writer = Writer::open(Cursor::new(grp)).ok().unwrap();
    assert_eq!(writer.finish().ok().unwrap().into_inner(), clean);
}

#[test]
fn a_borrowed_target_is_written_and_opened() {
    // Create an archive with two files.
    let mut out = Cursor::new(Vec::new());
    {
        let mut writer = Writer::new(&mut out);
        writer.add_file("DEFS.CON", b"def").unwrap();
        writer.add_file("HELLO.TXT", b"world").unwrap();
        assert!(writer.finish().is_ok());
    }
    // Append to it.
    {
        let mut writer = Writer::open(&mut out).ok().unwrap();
        writer.add_file("EXTRA.BIN", &[1, 2, 3]).unwrap();
        assert!(writer.finish().is_ok());
    }
    let archive = Archive::new(Cursor::new(out.into_inner())).ok().unwrap();
    assert_eq!(archive.len(), 3);
}

#[test]
fn a_target_survives_a_failed_open() {
    let mut out = Cursor::new(b"not an archive at all".to_vec());
    assert!(Writer::open(&mut out).is_err());
    assert_eq!(out.into_inner(), b"not an archive at all");
}

#[test]
fn writing_past_the_end_fills_with_zeros() {
    let mut archive = Archive::new(Cursor::new(build_grp(&[("A", b"xyz")]))).ok().unwrap();
    let mut sink = Cursor::new(vec![1]);
    sink.seek(SeekFrom::Start(3)).unwrap();
    assert_eq!(archive.extract(0, &mut sink).unwrap(), 3);
    assert_eq!(sink.into_inner(), [1, 0, 0, b'x', b'y', b'z']);
}

#[test]
fn finish_reports_each_kind_of_failure() {
    let staged = |target: FlakyWriter| {
        let mut writer = Writer::new(target);
        writer.add_file("A.TXT", b"1").unwrap();
        writer
    };
    let fresh = || FlakyWriter::new(Vec::new());
    for target in [
        fresh().failing_start_seeks(),
        fresh().failing_writes_at(0),
        fresh().failing_writes_at(16),
        fresh().failing_writes_at(32),
        fresh().failing_flush(),
    ] {
        let error = staged(target).finish().err().unwrap();
        assert!(
            matches!(error, Error::Io(ref cause) if cause.message == "forced I/O error")
        );
    }
    assert!(staged(fresh().failing_end_seeks()).finish().is_ok());
    assert!(staged(fresh().failing_position_seeks()).finish().is_ok());
}

/// A target that fails to flush, with an error of its own.
struct Unflushed(Cursor);

// What a stream is like is only asked in specifications.
impl Stream for Unflushed {
    fn wf(&self) -> bool {
        true
    }

    fn device(&self) -> Device {
        unreachable!()
    }

    fn lemma_fits(&self) {}
}

impl Read for Unflushed {
    fn read(&mut self, buf: &mut [u8]) -> Result<usize, IoError> {
        self.0.read(buf)
    }
}

impl Seek for Unflushed {
    fn seek(&mut self, to: SeekFrom) -> Result<u64, IoError> {
        self.0.seek(to)
    }
}

impl Write for Unflushed {
    fn write(&mut self, data: &[u8]) -> Result<usize, IoError> {
        self.0.write(data)
    }

    fn flush(&mut self) -> Result<(), IoError> {
        Err(IoError::new(IoErrorKind::InvalidInput, "held back"))
    }
}

#[test]
fn finish_hands_on_the_error_of_the_target() {
    let writer = Writer::new(Unflushed(Cursor::new(Vec::new())));
    let error = writer.finish().err().unwrap();
    assert!(matches!(
        error,
        Error::Io(cause) if cause.kind == IoErrorKind::InvalidInput && cause.message == "held back"
    ));
}

#[test]
fn open_reports_read_and_seek_failures() {
    let grp = build_grp(&[("A.TXT", b"1")]);
    for target in [
        FlakyWriter::new(grp.clone()).failing_reads_at(0),
        FlakyWriter::new(grp.clone()).failing_reads_at(16),
        FlakyWriter::new(grp.clone()).failing_reads_at(32),
        FlakyWriter::new(grp.clone()).failing_start_seeks(),
        FlakyWriter::new(grp.clone()).failing_end_seeks(),
    ] {
        assert!(matches!(Writer::open(target).err(), Some(Error::Io(_))));
    }
    assert!(Writer::open(FlakyWriter::new(grp)).is_ok());
}

#[test]
fn cursor_reads_writes_and_seeks() {
    let mut cursor = Cursor::new(vec![1, 2, 3]);
    assert_eq!(cursor.seek(SeekFrom::End(-1)).unwrap(), 2);
    assert_eq!(cursor.write(&[9, 8]).unwrap(), 2);
    assert_eq!(cursor.position(), 4);
    assert!(cursor.seek(SeekFrom::Current(-5)).is_err());
    assert_eq!(cursor.seek(SeekFrom::Start(6)).unwrap(), 6);
    // A gap is filled with zeros.
    assert_eq!(cursor.write(&[7]).unwrap(), 1);
    cursor.rewind().unwrap();
    let mut all = Vec::new();
    assert_eq!(cursor.read_to_end(&mut all).unwrap(), 7);
    assert_eq!(all, [1, 2, 9, 8, 0, 0, 7]);
    assert_eq!(cursor.into_inner(), all);
}

#[test]
fn a_vector_is_written_at_its_end() {
    let mut out = vec![1];
    out.write_all(&[2, 3]).unwrap();
    out.flush().unwrap();
    assert_eq!(out, [1, 2, 3]);
}
