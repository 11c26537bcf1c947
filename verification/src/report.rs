//! The messages of a command-line tool around archives.
//!
//! Where a message speaks of a path, the path is passed in the form in which
//! it is to be shown.

#[allow(unused_imports)]
use crate::text::{self, decimal_text, quote};
use vstd::prelude::*;
use vstd::string::*;

verus! {

/// The message for a file that is not an archive.
pub fn invalid_archive(label: &str) -> (message: String)
    ensures
        message@ == label@ + " is not a valid GRP archive"@,
{
    let mut message = label.to_owned();
    message.append(" is not a valid GRP archive");
    message
}

/// The message for an archive that is to be created where there is a file.
pub fn already_exists(archive: &str) -> (message: String)
    ensures
        message@ == archive@ + " already exists; use grper update"@,
{
    let mut message = archive.to_owned();
    message.append(" already exists; use grper update");
    message
}

/// The message for an entry whose name is refused.
pub fn unsafe_path(name: &str, out_dir: &str) -> (message: String)
    ensures
        message@ == "refusing to extract entry with unsafe path "@ + text::quoted(name@)
            + " into "@ + out_dir@,
{
    let mut message = "refusing to extract entry with unsafe path ".to_owned();
    message.append(quote(name).as_str());
    message.append(" into ");
    message.append(out_dir);
    message
}

/// The message for an entry that could not be extracted.
pub fn failed_to_extract(name: &str, label: &str) -> (message: String)
    ensures
        message@ == "failed to extract "@ + text::quoted(name@) + " from "@ + label@,
{
    let mut message = "failed to extract ".to_owned();
    message.append(quote(name).as_str());
    message.append(" from ");
    message.append(label);
    message
}

/// The message for an entry that could not be read.
pub fn failed_to_read_entry(name: &str) -> (message: String)
    ensures
        message@ == "failed to read entry "@ + text::quoted(name@),
{
    let mut message = "failed to read entry ".to_owned();
    message.append(quote(name).as_str());
    message
}

/// The message for an entry whose data ended early.
pub fn truncated(label: &str, name: &str, declared: u64, present: u64) -> (message: String)
    ensures
        message@ == label@ + " is truncated: "@ + text::quoted(name@) + " declares "@
            + text::decimal(declared as nat) + " bytes but only "@ + text::decimal(
            present as nat,
        ) + " are present"@,
{
    let mut message = label.to_owned();
    message.append(" is truncated: ");
    message.append(quote(name).as_str());
    message.append(" declares ");
    message.append(decimal_text(declared).as_str());
    message.append(" bytes but only ");
    message.append(decimal_text(present).as_str());
    message.append(" are present");
    message
}

/// What an extraction did, or would do.
pub fn extraction_summary(dry_run: bool, count: usize, label: &str, out_dir: &str) -> (summary:
    String)
    ensures
        summary@ == (if dry_run {
            "would extract"@
        } else {
            "extracted"@
        }) + " "@ + text::decimal(count as nat) + " file(s) from "@ + label@ + " to "@ + out_dir@,
{
    let mut summary = if dry_run {
        "would extract".to_owned()
    } else {
        "extracted".to_owned()
    };
    summary.append(" ");
    summary.append(decimal_text(count as u64).as_str());
    summary.append(" file(s) from ");
    summary.append(label);
    summary.append(" to ");
    summary.append(out_dir);
    summary
}

/// What creating an archive did, or would do.
pub fn create_summary(dry_run: bool, archive: &str, count: usize) -> (summary: String)
    ensures
        summary@ == (if dry_run {
            "would create "@
        } else {
            "created "@
        }) + archive@ + " with "@ + text::decimal(count as nat) + " file(s)"@,
{
    let mut summary = if dry_run {
        "would create ".to_owned()
    } else {
        "created ".to_owned()
    };
    summary.append(archive);
    summary.append(" with ");
    summary.append(decimal_text(count as u64).as_str());
    summary.append(" file(s)");
    summary
}

/// What updating an archive did, or would do.
pub fn update_summary(dry_run: bool, archive: &str, replaced: usize, added: usize) -> (summary:
    String)
    ensures
        summary@ == (if dry_run {
            "would update "@
        } else {
            "updated "@
        }) + archive@ + ": "@ + text::decimal(replaced as nat) + " replaced, "@ + text::decimal(
            added as nat,
        ) + " added"@,
{
    let mut summary = if dry_run {
        "would update ".to_owned()
    } else {
        "updated ".to_owned()
    };
    summary.append(archive);
    summary.append(": ");
    summary.append(decimal_text(replaced as u64).as_str());
    summary.append(" replaced, ");
    summary.append(decimal_text(added as u64).as_str());
    summary.append(" added");
    summary
}

} // verus!
