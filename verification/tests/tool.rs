use grper::archive::read_all_entries;
use grper::extract::{Extraction, Step, WriteFailure};
use grper::io::{Read, Seek};
use grper::plan::{
    archive_bytes, count_status, dedup_sources, plan_lines, plan_update, Status,
};
use grper::report;
use grper::{Archive, Cursor, FlakyReader};

/// Build an in-memory GRP archive from `(name, data)` pairs.
fn build_grp(files: &[(&str, &[u8])]) -> Vec<u8> {
    let mut buf = Vec::new();
    buf.extend_from_slice(b"KenSilverman");
    buf.extend_from_slice(&(files.len() as u32).to_le_bytes());
    for (name, data) in files {
        let mut field = [0u8; 12];
        let len = name.len().min(12);
        field[..len].copy_from_slice(&name.as_bytes()[..len]);
        buf.extend_from_slice(&field);
        buf.extend_from_slice(&(data.len() as u32).to_le_bytes());
    }
    for (_, data) in files {
        buf.extend_from_slice(data);
    }
    buf
}

/// What an extraction did.
#[derive(Default)]
struct Extracted {
    out_dir_created: bool,
    files: Vec<(String, Vec<u8>)>,
    lines: Vec<String>,
    warnings: Vec<String>,
    summary: String,
}

/// Extract an archive into memory, or return the message that it failed with
/// and what was done before.
fn run_with<R: Read + Seek>(
    reader: R,
    label: &str,
    out_dir_exists: bool,
    only: &[String],
    strict: bool,
    dry_run: bool,
) -> Result<Extracted, (String, Extracted)> {
    let mut done = Extracted::default();
    let archive = match Archive::new(reader) {
        Ok(archive) => archive,
        Err(_) => return Err((report::invalid_archive(label), done)),
    };
    let extraction = match Extraction::new(archive, only, dry_run) {
        Ok(extraction) => extraction,
        Err(error) => return Err((error.message(), done)),
    };
    done.warnings = extraction.warnings().to_vec();
    let (mut steps, creates_out_dir) = match extraction.begin(strict, out_dir_exists) {
        Ok(begun) => begun,
        Err(message) => return Err((message, done)),
    };
    done.out_dir_created = creates_out_dir;
    loop {
        match steps.next_step() {
            Step::List { line } => done.lines.push(line),
            Step::Refuse { name } => return Err((report::unsafe_path(&name, "\"out\""), done)),
            Step::Write { index, name } => {
                let mut data = Vec::new();
                match steps.write_entry(index, &mut data) {
                    Ok(line) => {
                        done.lines.push(line);
                        done.files.push((name, data));
                    }
                    Err(WriteFailure::Failed(_)) => {
                        return Err((report::failed_to_extract(&name, label), done));
                    }
                    Err(WriteFailure::Truncated { declared, present }) => {
                        return Err((report::truncated(label, &name, declared, present), done));
                    }
                }
            }
            Step::Done { count } => {
                done.summary = report::extraction_summary(dry_run, count, label, "\"out\"");
                return Ok(done);
            }
        }
    }
}

/// Source files as pairs of a name and data.
fn sources(files: &[(&str, &[u8])]) -> Vec<(String, Vec<u8>)> {
    files
        .iter()
        .map(|(name, data)| (name.to_string(), data.to_vec()))
        .collect()
}

/// Build a new archive from sources, or return the message that it failed
/// with.
fn create(files: &[(&str, &[u8])]) -> Result<Vec<u8>, String> {
    let plan = plan_update(Vec::new(), dedup_sources(sources(files)))
        .map_err(|conflict| conflict.message())?;
    archive_bytes(&plan).map_err(|error| error.message())
}

/// What an update gives: the new archive, the lines that describe it, and the
/// summary.
#[derive(Debug)]
struct Updated {
    bytes: Vec<u8>,
    lines: Vec<String>,
    summary: String,
}

/// Update an archive with sources, or return the message that it failed with.
fn update_with<R: Read + Seek>(
    reader: R,
    label: &str,
    files: &[(&str, &[u8])],
) -> Result<Updated, String> {
    let mut archive = match Archive::new(reader) {
        Ok(archive) => archive,
        Err(_) => return Err(report::invalid_archive(label)),
    };
    let existing = read_all_entries(&mut archive)
        .map_err(|failure| report::failed_to_read_entry(&failure.name))?;
    let plan = plan_update(existing, dedup_sources(sources(files)))
        .map_err(|conflict| conflict.message())?;
    let bytes = archive_bytes(&plan).map_err(|error| error.message())?;
    Ok(Updated {
        bytes,
        lines: plan_lines(&plan, true),
        summary: report::update_summary(
            false,
            label,
            count_status(&plan, Status::Replaced),
            count_status(&plan, Status::Added),
        ),
    })
}

/// The entry names and data of an archive, in table order.
fn read_archive(bytes: Vec<u8>) -> Vec<(String, Vec<u8>)> {
    let mut archive = Archive::new(FlakyReader::new(bytes)).expect("valid archive");
    read_all_entries(&mut archive).expect("reads all entries")
}

// Data for a single-entry archive starts right after the 16-byte header
// plus the one 16-byte table entry.
const DATA_START: u64 = 32;

#[test]
fn main_run_should_extract_all_entries_with_their_stored_names() {
    let grp = build_grp(&[("A.TXT", b"123"), ("B.CON", b"45")]);
    // The output directory already exists, so it is not created.
    let done = run_with(Cursor::new(grp), "\"all.grp\"", true, &[], false, false)
        .ok()
        .expect("extracts all");
    assert!(!done.out_dir_created);
    assert_eq!(
        done.files,
        vec![
            ("A.TXT".to_owned(), b"123".to_vec()),
            ("B.CON".to_owned(), b"45".to_vec()),
        ]
    );
    assert_eq!(done.lines, vec!["A.TXT        3 bytes", "B.CON        2 bytes"]);
    assert_eq!(
        done.summary,
        "extracted 2 file(s) from \"all.grp\" to \"out\""
    );
}

#[test]
fn main_run_should_extract_only_selected_entries_and_warn_on_case() {
    let grp = build_grp(&[("DEFS.CON", b"abc"), ("DUB.MAP", b"")]);
    // The output directory does not exist yet, so it must be created.
    let only = ["defs.con".to_owned()];
    let done = run_with(Cursor::new(grp), "\"sel.grp\"", false, &only, false, false)
        .ok()
        .expect("extracts selection");
    assert!(done.out_dir_created);
    // Only the selected entry was written, under its stored spelling.
    assert_eq!(done.files, vec![("DEFS.CON".to_owned(), b"abc".to_vec())]);
    assert_eq!(
        done.warnings,
        vec!["\"defs.con\" is stored in the archive as \"DEFS.CON\""]
    );
}

#[test]
fn main_run_should_extract_zero_entries_from_an_empty_archive() {
    let grp = build_grp(&[]);
    let done = run_with(Cursor::new(grp), "\"empty.grp\"", false, &[], false, false)
        .ok()
        .expect("no entries to extract");
    assert!(done.out_dir_created);
    assert!(done.files.is_empty());
}

#[test]
fn main_run_should_error_when_a_requested_name_is_missing() {
    let grp = build_grp(&[("A.TXT", b"1")]);
    let only = ["MISS.CON".to_owned()];
    let (message, _) = run_with(Cursor::new(grp), "\"miss.grp\"", true, &only, false, false)
        .err()
        .unwrap();
    assert!(message.contains("MISS.CON"));
}

#[test]
fn main_run_should_error_when_the_archive_is_not_valid_grp() {
    let grp = b"definitely not a grp file".to_vec();
    let (message, _) = run_with(Cursor::new(grp), "\"bad.grp\"", true, &[], false, false)
        .err()
        .unwrap();
    assert!(message.contains("not a valid GRP archive"));
}

#[test]
fn main_run_should_refuse_an_unsafe_entry_name() {
    // A name with a separator is not a single ordinary component.
    let grp = build_grp(&[("A/B.TXT", b"1")]);
    let only = ["A/B.TXT".to_owned()];
    let (message, done) = run_with(Cursor::new(grp), "\"deep.grp\"", true, &only, false, false)
        .err()
        .unwrap();
    assert!(message.contains("unsafe path"));
    assert!(done.files.is_empty());
}

#[test]
fn main_run_should_error_when_entry_data_is_truncated() {
    let data = build_grp(&[("A.TXT", b"12345")]);
    // The file is complete, but the first data read returns zero as if
    // the file ended right after the table: the written byte count falls
    // short of the declared size.
    let reader = FlakyReader::new(data).zero_reads_at(DATA_START);
    let (message, _) = run_with(reader, "\"short.grp\"", true, &[], false, false)
        .err()
        .unwrap();
    assert!(message.contains("truncated"));
    assert_eq!(
        message,
        "\"short.grp\" is truncated: \"A.TXT\" declares 5 bytes but only 0 are present"
    );
}

#[test]
fn main_run_should_propagate_extraction_read_errors() {
    let data = build_grp(&[("A.TXT", b"12345")]);
    let reader = FlakyReader::new(data).failing_reads_from(DATA_START);
    let (message, _) = run_with(reader, "\"flaky.grp\"", true, &[], false, false)
        .err()
        .unwrap();
    assert!(message.contains("failed to extract"));
}

#[test]
fn main_run_should_propagate_a_single_failing_read() {
    let data = build_grp(&[("A.TXT", b"12345")]);
    let reader = FlakyReader::new(data).failing_reads_at(DATA_START);
    let (message, _) = run_with(reader, "\"flaky.grp\"", true, &[], false, false)
        .err()
        .unwrap();
    assert!(message.contains("failed to extract"));
}

#[test]
fn main_run_should_propagate_repositioning_seek_errors() {
    let data = build_grp(&[("A.TXT", b"12345")]);
    let reader = FlakyReader::new(data).failing_start_seeks();
    let (message, _) = run_with(reader, "\"flaky.grp\"", true, &[], false, false)
        .err()
        .unwrap();
    assert!(message.contains("failed to extract"));
}

#[test]
fn main_run_should_fail_to_open_when_end_seeks_fail() {
    let data = build_grp(&[("A.TXT", b"12345")]);
    // Opening probes the archive length with an End seek.
    let reader = FlakyReader::new(data).failing_end_seeks();
    let (message, _) = run_with(reader, "\"end.grp\"", true, &[], false, false)
        .err()
        .unwrap();
    assert!(message.contains("not a valid GRP archive"));
}

#[test]
fn main_run_should_succeed_when_position_seeks_fail() {
    let data = build_grp(&[("A.TXT", b"123")]);
    // The reader's position is never probed, so position-seek failures are
    // harmless.
    let reader = FlakyReader::new(data).failing_position_seeks();
    let done = run_with(reader, "\"pos.grp\"", false, &[], false, false)
        .ok()
        .expect("extracts despite failing position seeks");
    assert_eq!(done.files, vec![("A.TXT".to_owned(), b"123".to_vec())]);
}

#[test]
fn main_run_should_abort_in_strict_mode_when_a_warning_is_raised() {
    let grp = build_grp(&[("DEFS.CON", b"abc")]);
    // `defs.con` differs in case, which raises a warning; in strict mode
    // that must abort the extraction.
    let only = ["defs.con".to_owned()];
    let (message, done) = run_with(Cursor::new(grp), "\"sel.grp\"", false, &only, true, false)
        .err()
        .unwrap();
    assert!(message.contains("--strict mode"));
    // Aborted before the output directory was created, so nothing was written.
    assert!(!done.out_dir_created);
    assert!(done.files.is_empty());
}

#[test]
fn main_run_should_proceed_in_strict_mode_without_warnings() {
    let grp = build_grp(&[("DEFS.CON", b"abc")]);
    // The requested case matches the stored spelling, so no warning is
    // raised and strict mode proceeds normally.
    let only = ["DEFS.CON".to_owned()];
    let done = run_with(Cursor::new(grp), "\"sel.grp\"", false, &only, true, false)
        .ok()
        .expect("extracts in strict mode");
    assert_eq!(done.files, vec![("DEFS.CON".to_owned(), b"abc".to_vec())]);
}

#[test]
fn main_create_should_build_an_archive_from_source_files() {
    let bytes = create(&[("A.TXT", b"12345"), ("B.CON", b"45")]).expect("creates archive");
    assert_eq!(
        read_archive(bytes),
        vec![
            ("A.TXT".to_owned(), b"12345".to_vec()),
            ("B.CON".to_owned(), b"45".to_vec()),
        ]
    );
}

#[test]
fn main_create_should_build_an_empty_archive_with_no_sources() {
    let bytes = create(&[]).expect("creates empty archive");
    assert!(read_archive(bytes).is_empty());
}

#[test]
fn main_create_should_deduplicate_repeated_sources() {
    // The same source twice: only one entry, first-seen data wins.
    let bytes = create(&[("A.TXT", b"12345"), ("A.TXT", b"other")]).expect("creates archive");
    let entries = read_archive(bytes);
    assert_eq!(entries.len(), 1);
    assert_eq!(entries[0].0, "A.TXT");
    assert_eq!(entries[0].1, b"12345");
}

#[test]
fn main_create_should_error_when_an_entry_name_is_too_long() {
    // A 13-character base name exceeds the format's 12-byte limit.
    let message = create(&[("ABCDEFGHIJKLM", b"1")]).unwrap_err();
    assert!(message.contains("too long"));
}

#[test]
fn main_create_should_error_when_source_names_conflict_in_case() {
    // Two sources differing only in case conflict: the format's 8.3 names
    // do not distinguish case.
    let message = create(&[("A.TXT", b"1"), ("a.txt", b"2")]).unwrap_err();
    assert!(message.contains("conflicts with"));
}

#[test]
fn main_update_should_replace_matching_and_append_new_entries() {
    // Base archive: A.TXT and B.CON.
    let grp = build_grp(&[("A.TXT", b"old-a"), ("B.CON", b"keep-b")]);
    // Replace A.TXT (exact match) and add C.MAP; B.CON is untouched.
    let updated = update_with(
        Cursor::new(grp),
        "\"base.grp\"",
        &[("A.TXT", b"new-a"), ("C.MAP", b"map")],
    )
    .expect("updates archive");
    assert_eq!(
        read_archive(updated.bytes),
        vec![
            ("A.TXT".to_owned(), b"new-a".to_vec()),
            ("B.CON".to_owned(), b"keep-b".to_vec()),
            ("C.MAP".to_owned(), b"map".to_vec()),
        ]
    );
    assert_eq!(
        updated.lines,
        vec![
            "A.TXT        5 bytes replaced",
            "B.CON        6 bytes unchanged",
            "C.MAP        3 bytes added",
        ]
    );
    assert_eq!(updated.summary, "updated \"base.grp\": 1 replaced, 1 added");
}

#[test]
fn main_update_should_error_on_a_case_only_match() {
    // The archive stores "A.TXT".
    let grp = build_grp(&[("A.TXT", b"old-a")]);
    // A source named "a.txt" differs only in case: it must be rejected
    // rather than silently creating a case-duplicate.
    let message = update_with(Cursor::new(grp), "\"base.grp\"", &[("a.txt", b"new-a")])
        .unwrap_err();
    assert!(message.contains("conflicts with"));
}

#[test]
fn main_update_should_error_when_the_archive_is_not_grp() {
    let grp = b"not a grp file".to_vec();
    let message = update_with(Cursor::new(grp), "\"bad.grp\"", &[("A.TXT", b"1")]).unwrap_err();
    assert!(message.contains("not a valid GRP archive"));
}

#[test]
fn main_update_should_add_to_an_empty_archive() {
    // Updating an archive that holds no entries reads nothing and appends
    // the staged file as its first entry.
    let grp = build_grp(&[]);
    let updated = update_with(Cursor::new(grp), "\"empty.grp\"", &[("A.TXT", b"1")])
        .expect("updates archive");
    assert_eq!(
        read_archive(updated.bytes),
        vec![("A.TXT".to_owned(), b"1".to_vec())]
    );
}

#[test]
fn main_update_with_should_reject_an_invalid_archive() {
    let reader = FlakyReader::new(b"definitely not a grp file".to_vec());
    let message = update_with(reader, "\"bad.grp\"", &[]).unwrap_err();
    assert!(message.contains("not a valid GRP archive"));
}

#[test]
fn main_update_with_should_propagate_entry_read_errors() {
    // The table parses, but reading the data of the first file (which
    // starts at 32) fails.
    let data = build_grp(&[("A.TXT", b"12345")]);
    let reader = FlakyReader::new(data).failing_reads_from(DATA_START);
    let message = update_with(reader, "\"bad.grp\"", &[]).unwrap_err();
    assert!(message.contains("failed to read entry"));
}

#[test]
fn main_update_should_error_when_an_entry_name_is_too_long() {
    let grp = build_grp(&[("A.TXT", b"123")]);
    // A 13-character base name exceeds the format's 12-byte limit.
    let message = update_with(Cursor::new(grp), "\"base.grp\"", &[("ABCDEFGHIJKLM", b"1")])
        .unwrap_err();
    assert!(message.contains("too long"));
}

#[test]
fn tests_run_should_extract_all_entries_with_their_stored_names() {
    let grp = build_grp(&[("A.TXT", b"123"), ("B.CON", b"45")]);
    // The output directory already exists, so it is not created.
    let done = run_with(Cursor::new(grp), "\"all.grp\"", true, &[], false, false)
        .ok()
        .expect("extracts all");
    assert!(!done.out_dir_created);
    assert_eq!(
        done.files,
        vec![
            ("A.TXT".to_owned(), b"123".to_vec()),
            ("B.CON".to_owned(), b"45".to_vec()),
        ]
    );
    assert_eq!(done.lines, vec!["A.TXT        3 bytes", "B.CON        2 bytes"]);
    assert_eq!(
        done.summary,
        "extracted 2 file(s) from \"all.grp\" to \"out\""
    );
}

#[test]
fn tests_run_should_extract_only_selected_entries_and_warn_on_case() {
    let grp = build_grp(&[("DEFS.CON", b"abc"), ("DUB.MAP", b"")]);
    // The output directory does not exist yet, so it must be created.
    let only = ["defs.con".to_owned()];
    let done = run_with(Cursor::new(grp), "\"sel.grp\"", false, &only, false, false)
        .ok()
        .expect("extracts selection");
    assert!(done.out_dir_created);
    // Only the selected entry was written, under its stored spelling.
    assert_eq!(done.files, vec![("DEFS.CON".to_owned(), b"abc".to_vec())]);
    assert_eq!(
        done.warnings,
        vec!["\"defs.con\" is stored in the archive as \"DEFS.CON\""]
    );
}

#[test]
fn tests_run_should_extract_zero_entries_from_an_empty_archive() {
    let grp = build_grp(&[]);
    let done = run_with(Cursor::new(grp), "\"empty.grp\"", false, &[], false, false)
        .ok()
        .expect("no entries to extract");
    assert!(done.out_dir_created);
    assert!(done.files.is_empty());
}

#[test]
fn tests_run_should_error_when_a_requested_name_is_missing() {
    let grp = build_grp(&[("A.TXT", b"1")]);
    let only = ["MISS.CON".to_owned()];
    let (message, _) = run_with(Cursor::new(grp), "\"miss.grp\"", true, &only, false, false)
        .err()
        .unwrap();
    assert!(message.contains("MISS.CON"));
}

#[test]
fn tests_run_should_error_when_the_archive_is_not_valid_grp() {
    let grp = b"definitely not a grp file".to_vec();
    let (message, _) = run_with(Cursor::new(grp), "\"bad.grp\"", true, &[], false, false)
        .err()
        .unwrap();
    assert!(message.contains("not a valid GRP archive"));
}

#[test]
fn tests_run_should_refuse_an_unsafe_entry_name() {
    // A name with a separator is not a single ordinary component.
    let grp = build_grp(&[("A/B.TXT", b"1")]);
    let only = ["A/B.TXT".to_owned()];
    let (message, done) = run_with(Cursor::new(grp), "\"deep.grp\"", true, &only, false, false)
        .err()
        .unwrap();
    assert!(message.contains("unsafe path"));
    assert!(done.files.is_empty());
}

#[test]
fn tests_run_should_error_when_entry_data_is_truncated() {
    let data = build_grp(&[("A.TXT", b"12345")]);
    // The file is complete, but the first data read returns zero as if
    // the file ended right after the table: the written byte count falls
    // short of the declared size.
    let reader = FlakyReader::new(data).zero_reads_at(DATA_START);
    let (message, _) = run_with(reader, "\"short.grp\"", true, &[], false, false)
        .err()
        .unwrap();
    assert!(message.contains("truncated"));
    assert_eq!(
        message,
        "\"short.grp\" is truncated: \"A.TXT\" declares 5 bytes but only 0 are present"
    );
}

#[test]
fn tests_run_should_propagate_extraction_read_errors() {
    let data = build_grp(&[("A.TXT", b"12345")]);
    let reader = FlakyReader::new(data).failing_reads_from(DATA_START);
    let (message, _) = run_with(reader, "\"flaky.grp\"", true, &[], false, false)
        .err()
        .unwrap();
    assert!(message.contains("failed to extract"));
}

#[test]
fn tests_run_should_propagate_a_single_failing_read() {
    let data = build_grp(&[("A.TXT", b"12345")]);
    let reader = FlakyReader::new(data).failing_reads_at(DATA_START);
    let (message, _) = run_with(reader, "\"flaky.grp\"", true, &[], false, false)
        .err()
        .unwrap();
    assert!(message.contains("failed to extract"));
}

#[test]
fn tests_run_should_propagate_repositioning_seek_errors() {
    let data = build_grp(&[("A.TXT", b"12345")]);
    let reader = FlakyReader::new(data).failing_start_seeks();
    let (message, _) = run_with(reader, "\"flaky.grp\"", true, &[], false, false)
        .err()
        .unwrap();
    assert!(message.contains("failed to extract"));
}

#[test]
fn tests_run_should_fail_to_open_when_end_seeks_fail() {
    let data = build_grp(&[("A.TXT", b"12345")]);
    // Opening probes the archive length with an End seek.
    let reader = FlakyReader::new(data).failing_end_seeks();
    let (message, _) = run_with(reader, "\"end.grp\"", true, &[], false, false)
        .err()
        .unwrap();
    assert!(message.contains("not a valid GRP archive"));
}

#[test]
fn tests_run_should_succeed_when_position_seeks_fail() {
    let data = build_grp(&[("A.TXT", b"123")]);
    // The reader's position is never probed, so position-seek failures are
    // harmless.
    let reader = FlakyReader::new(data).failing_position_seeks();
    let done = run_with(reader, "\"pos.grp\"", false, &[], false, false)
        .ok()
        .expect("extracts despite failing position seeks");
    assert_eq!(done.files, vec![("A.TXT".to_owned(), b"123".to_vec())]);
}

#[test]
fn tests_run_should_abort_in_strict_mode_when_a_warning_is_raised() {
    let grp = build_grp(&[("DEFS.CON", b"abc")]);
    // `defs.con` differs in case, which raises a warning; in strict mode
    // that must abort the extraction.
    let only = ["defs.con".to_owned()];
    let (message, done) = run_with(Cursor::new(grp), "\"sel.grp\"", false, &only, true, false)
        .err()
        .unwrap();
    assert!(message.contains("--strict mode"));
    // Aborted before the output directory was created, so nothing was written.
    assert!(!done.out_dir_created);
    assert!(done.files.is_empty());
}

#[test]
fn tests_run_should_proceed_in_strict_mode_without_warnings() {
    let grp = build_grp(&[("DEFS.CON", b"abc")]);
    // The requested case matches the stored spelling, so no warning is
    // raised and strict mode proceeds normally.
    let only = ["DEFS.CON".to_owned()];
    let done = run_with(Cursor::new(grp), "\"sel.grp\"", false, &only, true, false)
        .ok()
        .expect("extracts in strict mode");
    assert_eq!(done.files, vec![("DEFS.CON".to_owned(), b"abc".to_vec())]);
}

#[test]
fn tests_create_should_build_an_archive_from_source_files() {
    let bytes = create(&[("A.TXT", b"12345"), ("B.CON", b"45")]).expect("creates archive");
    assert_eq!(
        read_archive(bytes),
        vec![
            ("A.TXT".to_owned(), b"12345".to_vec()),
            ("B.CON".to_owned(), b"45".to_vec()),
        ]
    );
}

#[test]
fn tests_create_should_build_an_empty_archive_with_no_sources() {
    let bytes = create(&[]).expect("creates empty archive");
    assert!(read_archive(bytes).is_empty());
}

#[test]
fn tests_create_should_deduplicate_repeated_sources() {
    // The same source twice: only one entry, first-seen data wins.
    let bytes = create(&[("A.TXT", b"12345"), ("A.TXT", b"other")]).expect("creates archive");
    let entries = read_archive(bytes);
    assert_eq!(entries.len(), 1);
    assert_eq!(entries[0].0, "A.TXT");
    assert_eq!(entries[0].1, b"12345");
}

#[test]
fn tests_create_should_error_when_an_entry_name_is_too_long() {
    // A 13-character base name exceeds the format's 12-byte limit.
    let message = create(&[("ABCDEFGHIJKLM", b"1")]).unwrap_err();
    assert!(message.contains("too long"));
}

#[test]
fn tests_create_should_error_when_source_names_conflict_in_case() {
    // Two sources differing only in case conflict: the format's 8.3 names
    // do not distinguish case.
    let message = create(&[("A.TXT", b"1"), ("a.txt", b"2")]).unwrap_err();
    assert!(message.contains("conflicts with"));
}

#[test]
fn tests_update_should_replace_matching_and_append_new_entries() {
    // Base archive: A.TXT and B.CON.
    let grp = build_grp(&[("A.TXT", b"old-a"), ("B.CON", b"keep-b")]);
    // Replace A.TXT (exact match) and add C.MAP; B.CON is untouched.
    let updated = update_with(
        Cursor::new(grp),
        "\"base.grp\"",
        &[("A.TXT", b"new-a"), ("C.MAP", b"map")],
    )
    .expect("updates archive");
    assert_eq!(
        read_archive(updated.bytes),
        vec![
            ("A.TXT".to_owned(), b"new-a".to_vec()),
            ("B.CON".to_owned(), b"keep-b".to_vec()),
            ("C.MAP".to_owned(), b"map".to_vec()),
        ]
    );
    assert_eq!(
        updated.lines,
        vec![
            "A.TXT        5 bytes replaced",
            "B.CON        6 bytes unchanged",
            "C.MAP        3 bytes added",
        ]
    );
    assert_eq!(updated.summary, "updated \"base.grp\": 1 replaced, 1 added");
}

#[test]
fn tests_update_should_error_on_a_case_only_match() {
    // The archive stores "A.TXT".
    let grp = build_grp(&[("A.TXT", b"old-a")]);
    // A source named "a.txt" differs only in case: it must be rejected
    // rather than silently creating a case-duplicate.
    let message = update_with(Cursor::new(grp), "\"base.grp\"", &[("a.txt", b"new-a")])
        .unwrap_err();
    assert!(message.contains("conflicts with"));
}

#[test]
fn tests_update_should_error_when_the_archive_is_not_grp() {
    let grp = b"not a grp file".to_vec();
    let message = update_with(Cursor::new(grp), "\"bad.grp\"", &[("A.TXT", b"1")]).unwrap_err();
    assert!(message.contains("not a valid GRP archive"));
}

#[test]
fn tests_update_should_add_to_an_empty_archive() {
    // Updating an archive that holds no entries reads nothing and appends
    // the staged file as its first entry.
    let grp = build_grp(&[]);
    let updated = update_with(Cursor::new(grp), "\"empty.grp\"", &[("A.TXT", b"1")])
        .expect("updates archive");
    assert_eq!(
        read_archive(updated.bytes),
        vec![("A.TXT".to_owned(), b"1".to_vec())]
    );
}

#[test]
fn tests_update_with_should_reject_an_invalid_archive() {
    let reader = FlakyReader::new(b"definitely not a grp file".to_vec());
    let message = update_with(reader, "\"bad.grp\"", &[]).unwrap_err();
    assert!(message.contains("not a valid GRP archive"));
}

#[test]
fn tests_update_with_should_propagate_entry_read_errors() {
    // The table parses, but reading the data of the first file (which
    // starts at 32) fails.
    let data = build_grp(&[("A.TXT", b"12345")]);
    let reader = FlakyReader::new(data).failing_reads_from(DATA_START);
    let message = update_with(reader, "\"bad.grp\"", &[]).unwrap_err();
    assert!(message.contains("failed to read entry"));
}

#[test]
fn tests_update_should_error_when_an_entry_name_is_too_long() {
    let grp = build_grp(&[("A.TXT", b"123")]);
    // A 13-character base name exceeds the format's 12-byte limit.
    let message = update_with(Cursor::new(grp), "\"base.grp\"", &[("ABCDEFGHIJKLM", b"1")])
        .unwrap_err();
    assert!(message.contains("too long"));
}

#[test]
fn dry_run_lists_without_writing() {
    let grp = build_grp(&[("A.TXT", b"123"), ("LONGNAME.DAT", b"4")]);
    let done = run_with(Cursor::new(grp), "\"a.grp\"", false, &[], false, true)
        .ok()
        .unwrap();
    assert!(!done.out_dir_created);
    assert!(done.files.is_empty());
    assert_eq!(
        done.lines,
        vec!["A.TXT        3 bytes", "LONGNAME.DAT 1 bytes"]
    );
    assert_eq!(
        done.summary,
        "would extract 2 file(s) from \"a.grp\" to \"out\""
    );
}

#[test]
fn dry_run_in_strict_mode_aborts_on_a_warning() {
    let grp = build_grp(&[("DEFS.CON", b"abc"), ("B.CON", b"")]);
    let only = ["defs.con".to_owned(), "b.con".to_owned()];
    let (message, done) = run_with(Cursor::new(grp), "\"a.grp\"", false, &only, true, true)
        .err()
        .unwrap();
    assert_eq!(message, "2 warning(s) raised; aborting in --strict mode");
    assert!(done.lines.is_empty());
}

#[test]
fn special_and_absolute_names_are_refused() {
    for name in [
        ".", "..", "/ETC", "A/B", "../A", "", "A/B/C", "A/..", "./A", "//", "A//B", "A/./..",
    ] {
        let grp = build_grp(&[("GOOD.TXT", b"1"), (name, b"2"), ("LATER.TXT", b"3")]);
        let (message, done) = run_with(Cursor::new(grp), "\"a.grp\"", true, &[], false, false)
            .err()
            .unwrap();
        assert_eq!(
            message,
            format!("refusing to extract entry with unsafe path {name:?} into \"out\"")
        );
        // The entries before it have been written, and none after it.
        assert_eq!(done.files, vec![("GOOD.TXT".to_owned(), b"1".to_vec())]);
    }
}

#[test]
fn a_refused_entry_stays_refused() {
    let grp = build_grp(&[("..", b"1")]);
    let archive = Archive::new(Cursor::new(grp)).ok().unwrap();
    let extraction = Extraction::new(archive, &[], false).ok().unwrap();
    let (mut steps, _) = extraction.begin(false, true).ok().unwrap();
    assert!(matches!(steps.next_step(), Step::Refuse { name } if name == ".."));
    assert!(matches!(steps.next_step(), Step::Refuse { name } if name == ".."));
}

#[test]
fn an_extraction_begins_only_past_the_strict_check() {
    let begin = |only: &[&str], dry_run: bool, strict: bool, is_dir: bool| {
        let grp = build_grp(&[("DEFS.CON", b"abc")]);
        let archive = Archive::new(Cursor::new(grp)).ok().unwrap();
        let only: Vec<String> = only.iter().map(|name| name.to_string()).collect();
        let extraction = Extraction::new(archive, &only, dry_run).ok().unwrap();
        extraction.begin(strict, is_dir).map(|(_, creates_out_dir)| creates_out_dir)
    };
    let aborted = Err("1 warning(s) raised; aborting in --strict mode".to_owned());
    assert_eq!(begin(&["defs.con"], false, true, false), aborted);
    assert_eq!(begin(&["defs.con"], true, true, true), aborted);
    // Without a warning, or where it is not fatal, the directory is created
    // unless it is there or nothing is written.
    assert_eq!(begin(&["DEFS.CON"], false, true, false), Ok(true));
    assert_eq!(begin(&["defs.con"], false, false, false), Ok(true));
    assert_eq!(begin(&[], false, true, true), Ok(false));
    assert_eq!(begin(&[], true, false, false), Ok(false));
}

#[test]
fn summaries_of_create_and_update() {
    assert_eq!(
        report::create_summary(true, "\"a.grp\"", 0),
        "would create \"a.grp\" with 0 file(s)"
    );
    assert_eq!(
        report::create_summary(false, "\"a.grp\"", 12),
        "created \"a.grp\" with 12 file(s)"
    );
    assert_eq!(
        report::update_summary(true, "\"a.grp\"", 2, 10),
        "would update \"a.grp\": 2 replaced, 10 added"
    );
    assert_eq!(
        report::already_exists("\"a.grp\""),
        "\"a.grp\" already exists; use grper update"
    );
}

#[test]
fn plan_lines_without_status() {
    let plan = plan_update(Vec::new(), sources(&[("A.TXT", b"123")])).unwrap();
    assert_eq!(plan_lines(&plan, false), vec!["A.TXT        3 bytes"]);
    assert_eq!(plan_lines(&plan, true), vec!["A.TXT        3 bytes added"]);
}

#[test]
fn updating_and_reopening_gives_the_planned_files() {
    let grp = build_grp(&[("A.TXT", b"1"), ("B.TXT", b"2"), ("A.TXT", b"3")]);
    let updated = update_with(
        Cursor::new(grp),
        "\"a.grp\"",
        &[("NEW.TXT", b"new"), ("A.TXT", b"replaced")],
    )
    .unwrap();
    // Of two entries of one name the first is replaced.
    assert_eq!(
        read_archive(updated.bytes),
        sources(&[
            ("A.TXT", b"replaced"),
            ("B.TXT", b"2"),
            ("A.TXT", b"3"),
            ("NEW.TXT", b"new"),
        ])
    );
}

#[test]
fn a_conflict_names_the_first_planned_spelling() {
    let conflict = plan_update(
        sources(&[("Other", b""), ("Name", b""), ("NAME", b"")]),
        sources(&[("Fine", b""), ("name", b"")]),
    )
    .unwrap_err();
    assert_eq!(conflict.name, "name");
    assert_eq!(conflict.conflict, "Name");
    assert_eq!(
        conflict.message(),
        "\"name\" conflicts with \"Name\"; names differing only in case are not allowed"
    );
}

#[test]
fn deduplication_keeps_the_first_of_each_name() {
    assert_eq!(
        dedup_sources(sources(&[("B", b"1"), ("A", b"2"), ("B", b"3"), ("b", b"4")])),
        sources(&[("B", b"1"), ("A", b"2"), ("b", b"4")])
    );
}

#[test]
fn a_trailing_slash_is_not_a_separator() {
    for name in ["A/", "A/.", "A//"] {
        let grp = build_grp(&[(name, b"1")]);
        let archive = Archive::new(Cursor::new(grp)).ok().unwrap();
        let extraction = Extraction::new(archive, &[], false).ok().unwrap();
        let (mut steps, _) = extraction.begin(false, true).ok().unwrap();
        assert!(matches!(
            steps.next_step(),
            Step::Write { index: 0, name: found } if found == name
        ));
    }
}
