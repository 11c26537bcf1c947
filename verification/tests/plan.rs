use grper::archive::read_all_entries;
use grper::plan::{build_archive, plan_update, temp_path, Status};
use grper::{Archive, FlakyReader, FlakyWriter};

/// Build an in-memory GRP archive from `(name, data)` pairs.
fn build_grp(files: &[(&str, &[u8])]) -> Vec<u8> {
    let mut buf = Vec::new();
    buf.extend_from_slice(b"KenSilverman");
    buf.extend_from_slice(&(files.len() as u32).to_le_bytes());
    for (name, data) in files {
        let mut field = [0u8; 12];
        let len = name.len().min(12);
        field[..len].copy_from_slice(&name.as_bytes()[..len]);
        buf.extend_from_slice(&field);
        buf.extend_from_slice(&(data.len() as u32).to_le_bytes());
    }
    for (_, data) in files {
        buf.extend_from_slice(data);
    }
    buf
}

#[test]
fn main_plan_update_should_replace_an_exact_match_in_place() {
    let existing = vec![
        ("A.TXT".to_owned(), b"old-a".to_vec()),
        ("B.CON".to_owned(), b"keep-b".to_vec()),
    ];
    let incoming = vec![("A.TXT".to_owned(), b"new-a".to_vec())];
    let plan = plan_update(existing, incoming).unwrap();
    assert_eq!(
        plan,
        vec![
            ("A.TXT".to_owned(), b"new-a".to_vec(), Status::Replaced),
            ("B.CON".to_owned(), b"keep-b".to_vec(), Status::Unchanged),
        ]
    );
}

#[test]
fn main_plan_update_should_append_new_entries_in_request_order() {
    let existing = vec![("A.TXT".to_owned(), b"old-a".to_vec())];
    let incoming = vec![
        ("C.MAP".to_owned(), b"c".to_vec()),
        ("B.CON".to_owned(), b"b".to_vec()),
    ];
    let plan = plan_update(existing, incoming).unwrap();
    assert_eq!(
        plan,
        vec![
            ("A.TXT".to_owned(), b"old-a".to_vec(), Status::Unchanged),
            ("C.MAP".to_owned(), b"c".to_vec(), Status::Added),
            ("B.CON".to_owned(), b"b".to_vec(), Status::Added),
        ]
    );
}

#[test]
fn main_plan_update_should_mark_all_entries_added_when_creating() {
    let incoming = vec![
        ("A.TXT".to_owned(), b"a".to_vec()),
        ("B.CON".to_owned(), b"b".to_vec()),
    ];
    let plan = plan_update(Vec::new(), incoming).unwrap();
    assert!(plan.iter().all(|(_, _, status)| *status == Status::Added));
}

#[test]
fn main_plan_update_should_error_when_incoming_conflicts_with_existing_case() {
    let existing = vec![("A.TXT".to_owned(), b"old".to_vec())];
    let incoming = vec![("a.txt".to_owned(), b"new".to_vec())];
    let err = plan_update(existing, incoming).unwrap_err();
    assert!(err.message().contains("conflicts with"));
}

#[test]
fn main_plan_update_should_error_when_incoming_entries_conflict_in_case() {
    // Two new entries differing only in case collide with each other.
    let incoming = vec![
        ("A.TXT".to_owned(), b"a".to_vec()),
        ("a.txt".to_owned(), b"b".to_vec()),
    ];
    let err = plan_update(Vec::new(), incoming).unwrap_err();
    assert!(err.message().contains("conflicts with"));
}

#[test]
fn main_read_all_entries_should_return_names_and_data_in_order() {
    let mut archive = Archive::new(FlakyReader::new(build_grp(&[
        ("A.TXT", b"123"),
        ("B.CON", b"45"),
    ])))
    .unwrap();
    assert_eq!(
        read_all_entries(&mut archive).unwrap(),
        vec![
            ("A.TXT".to_owned(), b"123".to_vec()),
            ("B.CON".to_owned(), b"45".to_vec()),
        ]
    );
}

#[test]
fn main_read_all_entries_should_return_empty_for_an_empty_archive() {
    // An archive with no entries yields no staged data; the per-entry
    // read loop runs zero times.
    let mut archive = Archive::new(FlakyReader::new(build_grp(&[]))).expect("valid archive");
    assert!(
        read_all_entries(&mut archive)
            .expect("reads all entries")
            .is_empty()
    );
}

#[test]
fn main_build_archive_should_propagate_finish_errors() {
    // A faulted target (a failing flush) makes `finish` error, and the
    // error propagates out of the build.
    let plan = vec![("A.TXT".to_owned(), b"1".to_vec(), Status::Added)];
    let writer = FlakyWriter::new(Vec::new()).failing_flush();
    let err = build_archive(writer, &plan).err().unwrap();
    assert!(err.message().contains("forced I/O error"));
}

#[test]
fn main_temp_path_should_append_a_suffix_in_the_same_directory() {
    assert_eq!(
        temp_path("dir/archive.grp"),
        "dir/archive.grp.grper-tmp"
    );
}

#[test]
fn tests_plan_update_should_replace_an_exact_match_in_place() {
    let existing = vec![
        ("A.TXT".to_owned(), b"old-a".to_vec()),
        ("B.CON".to_owned(), b"keep-b".to_vec()),
    ];
    let incoming = vec![("A.TXT".to_owned(), b"new-a".to_vec())];
    let plan = plan_update(existing, incoming).unwrap();
    assert_eq!(
        plan,
        vec![
            ("A.TXT".to_owned(), b"new-a".to_vec(), Status::Replaced),
            ("B.CON".to_owned(), b"keep-b".to_vec(), Status::Unchanged),
        ]
    );
}

#[test]
fn tests_plan_update_should_append_new_entries_in_request_order() {
    let existing = vec![("A.TXT".to_owned(), b"old-a".to_vec())];
    let incoming = vec![
        ("C.MAP".to_owned(), b"c".to_vec()),
        ("B.CON".to_owned(), b"b".to_vec()),
    ];
    let plan = plan_update(existing, incoming).unwrap();
    assert_eq!(
        plan,
        vec![
            ("A.TXT".to_owned(), b"old-a".to_vec(), Status::Unchanged),
            ("C.MAP".to_owned(), b"c".to_vec(), Status::Added),
            ("B.CON".to_owned(), b"b".to_vec(), Status::Added),
        ]
    );
}

#[test]
fn tests_plan_update_should_mark_all_entries_added_when_creating() {
    let incoming = vec![
        ("A.TXT".to_owned(), b"a".to_vec()),
        ("B.CON".to_owned(), b"b".to_vec()),
    ];
    let plan = plan_update(Vec::new(), incoming).unwrap();
    assert!(plan.iter().all(|(_, _, status)| *status == Status::Added));
}

#[test]
fn tests_plan_update_should_error_when_incoming_conflicts_with_existing_case() {
    let existing = vec![("A.TXT".to_owned(), b"old".to_vec())];
    let incoming = vec![("a.txt".to_owned(), b"new".to_vec())];
    let err = plan_update(existing, incoming).unwrap_err();
    assert!(err.message().contains("conflicts with"));
}

#[test]
fn tests_plan_update_should_error_when_incoming_entries_conflict_in_case() {
    // Two new entries differing only in case collide with each other.
    let incoming = vec![
        ("A.TXT".to_owned(), b"a".to_vec()),
        ("a.txt".to_owned(), b"b".to_vec()),
    ];
    let err = plan_update(Vec::new(), incoming).unwrap_err();
    assert!(err.message().contains("conflicts with"));
}

#[test]
fn tests_read_all_entries_should_return_names_and_data_in_order() {
    let mut archive = Archive::new(FlakyReader::new(build_grp(&[
        ("A.TXT", b"123"),
        ("B.CON", b"45"),
    ])))
    .unwrap();
    assert_eq!(
        read_all_entries(&mut archive).unwrap(),
        vec![
            ("A.TXT".to_owned(), b"123".to_vec()),
            ("B.CON".to_owned(), b"45".to_vec()),
        ]
    );
}

#[test]
fn tests_read_all_entries_should_return_empty_for_an_empty_archive() {
    // An archive with no entries yields no staged data; the per-entry
    // read loop runs zero times.
    let mut archive = Archive::new(FlakyReader::new(build_grp(&[]))).expect("valid archive");
    assert!(
        read_all_entries(&mut archive)
            .expect("reads all entries")
            .is_empty()
    );
}

#[test]
fn tests_build_archive_should_propagate_finish_errors() {
    // A faulted target (a failing flush) makes `finish` error, and the
    // error propagates out of the build.
    let plan = vec![("A.TXT".to_owned(), b"1".to_vec(), Status::Added)];
    let writer = FlakyWriter::new(Vec::new()).failing_flush();
    let err = build_archive(writer, &plan).err().unwrap();
    assert!(err.message().contains("forced I/O error"));
}

#[test]
fn tests_temp_path_should_append_a_suffix_in_the_same_directory() {
    assert_eq!(
        temp_path("dir/archive.grp"),
        "dir/archive.grp.grper-tmp"
    );
}
