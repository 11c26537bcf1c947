use grper::select::pick;
use grper::Error;

/// The error from a `pick` call that is expected to fail.
fn pick_err(names: &[&str], only: &[String]) -> Error {
    match pick(names, only) {
        Ok(_) => panic!("pick should have failed"),
        Err(err) => err,
    }
}

#[test]
fn main_pick_should_return_all_indices_when_no_names_given() {
    let names = ["A.TXT", "B.CON", "C.MAP"];
    let selection = pick(&names, &[]).unwrap();
    assert_eq!(selection.indices, vec![0, 1, 2]);
    assert!(selection.warnings.is_empty());
}

#[test]
fn main_pick_should_return_requested_indices_in_request_order() {
    let names = ["A.TXT", "B.CON", "C.MAP"];
    let only = vec!["C.MAP".to_owned(), "A.TXT".to_owned()];
    assert_eq!(pick(&names, &only).unwrap().indices, vec![2, 0]);
}

#[test]
fn main_pick_should_deduplicate_repeated_names() {
    let names = ["A.TXT", "B.CON"];
    let only = vec!["A.TXT".to_owned(), "A.TXT".to_owned()];
    assert_eq!(pick(&names, &only).unwrap().indices, vec![0]);
}

#[test]
fn main_pick_should_error_when_a_name_is_missing() {
    let names = ["A.TXT"];
    let only = vec!["MISS.CON".to_owned()];
    let err = pick_err(&names, &only);
    assert!(err.message().contains("MISS.CON"));
}

#[test]
fn main_pick_should_match_names_case_insensitively_and_warn() {
    let names = ["DEFS.CON", "DUB.MAP"];
    let only = vec!["defs.con".to_owned()];
    let selection = pick(&names, &only).unwrap();
    assert_eq!(selection.indices, vec![0]);
    assert_eq!(selection.warnings.len(), 1);
    assert!(selection.warnings[0].contains("defs.con"));
    assert!(selection.warnings[0].contains("DEFS.CON"));
}

#[test]
fn main_pick_should_not_warn_when_the_case_matches() {
    let names = ["DEFS.CON"];
    let only = vec!["DEFS.CON".to_owned()];
    let selection = pick(&names, &only).unwrap();
    assert_eq!(selection.indices, vec![0]);
    assert!(selection.warnings.is_empty());
}

#[test]
fn main_pick_should_pick_first_of_case_variants_and_warn() {
    // Duplicates differing only in case resolve to the first entry, with
    // a warning naming the archive's spelling.
    let names = ["A.TXT", "a.txt"];
    let only = vec!["a.txt".to_owned()];
    let selection = pick(&names, &only).unwrap();
    assert_eq!(selection.indices, vec![0]);
    assert_eq!(selection.warnings.len(), 1);
}

#[test]
fn main_pick_should_deduplicate_names_that_differ_only_in_case() {
    let names = ["A.TXT"];
    let only = vec!["A.TXT".to_owned(), "a.txt".to_owned()];
    let selection = pick(&names, &only).unwrap();
    assert_eq!(selection.indices, vec![0]);
    assert_eq!(selection.warnings.len(), 1);
}

#[test]
fn main_pick_should_not_case_fold_non_ascii_names() {
    // 8.3 names are ASCII in practice; only ASCII letters fold.
    let names = ["ÜBER.CON"];
    let only = vec!["über.con".to_owned()];
    let err = pick_err(&names, &only);
    assert!(err.message().contains("über.con"));
}

#[test]
fn tests_pick_should_return_all_indices_when_no_names_given() {
    let names = ["A.TXT", "B.CON", "C.MAP"];
    let selection = pick(&names, &[]).unwrap();
    assert_eq!(selection.indices, vec![0, 1, 2]);
    assert!(selection.warnings.is_empty());
}

#[test]
fn tests_pick_should_return_requested_indices_in_request_order() {
    let names = ["A.TXT", "B.CON", "C.MAP"];
    let only = vec!["C.MAP".to_owned(), "A.TXT".to_owned()];
    assert_eq!(pick(&names, &only).unwrap().indices, vec![2, 0]);
}

#[test]
fn tests_pick_should_deduplicate_repeated_names() {
    let names = ["A.TXT", "B.CON"];
    let only = vec!["A.TXT".to_owned(), "A.TXT".to_owned()];
    assert_eq!(pick(&names, &only).unwrap().indices, vec![0]);
}

#[test]
fn tests_pick_should_error_when_a_name_is_missing() {
    let names = ["A.TXT"];
    let only = vec!["MISS.CON".to_owned()];
    let err = pick_err(&names, &only);
    assert!(err.message().contains("MISS.CON"));
}

#[test]
fn tests_pick_should_match_names_case_insensitively_and_warn() {
    let names = ["DEFS.CON", "DUB.MAP"];
    let only = vec!["defs.con".to_owned()];
    let selection = pick(&names, &only).unwrap();
    assert_eq!(selection.indices, vec![0]);
    assert_eq!(selection.warnings.len(), 1);
    assert!(selection.warnings[0].contains("defs.con"));
    assert!(selection.warnings[0].contains("DEFS.CON"));
}

#[test]
fn tests_pick_should_not_warn_when_the_case_matches() {
    let names = ["DEFS.CON"];
    let only = vec!["DEFS.CON".to_owned()];
    let selection = pick(&names, &only).unwrap();
    assert_eq!(selection.indices, vec![0]);
    assert!(selection.warnings.is_empty());
}

#[test]
fn tests_pick_should_pick_first_of_case_variants_and_warn() {
    // Duplicates differing only in case resolve to the first entry, with
    // a warning naming the archive's spelling.
    let names = ["A.TXT", "a.txt"];
    let only = vec!["a.txt".to_owned()];
    let selection = pick(&names, &only).unwrap();
    assert_eq!(selection.indices, vec![0]);
    assert_eq!(selection.warnings.len(), 1);
}

#[test]
fn tests_pick_should_deduplicate_names_that_differ_only_in_case() {
    let names = ["A.TXT"];
    let only = vec!["A.TXT".to_owned(), "a.txt".to_owned()];
    let selection = pick(&names, &only).unwrap();
    assert_eq!(selection.indices, vec![0]);
    assert_eq!(selection.warnings.len(), 1);
}

#[test]
fn tests_pick_should_not_case_fold_non_ascii_names() {
    // 8.3 names are ASCII in practice; only ASCII letters fold.
    let names = ["ÜBER.CON"];
    let only = vec!["über.con".to_owned()];
    let err = pick_err(&names, &only);
    assert!(err.message().contains("über.con"));
}
