//! The errors of this crate.

use crate::io::IoError;
#[allow(unused_imports)]
use crate::text::{self, decimal_text, quote};
use vstd::prelude::*;
use vstd::string::*;

verus! {

/// Errors returned when opening, reading, or writing a GRP archive.
#[derive(Debug)]
pub enum Error {
    /// The first 12 bytes of the file are not the `"KenSilverman"` signature.
    BadSignature {
        /// The 12 signature bytes that were found.
        found: [u8; 12],
    },
    /// The file is shorter than the 16-byte header.
    TooSmall(usize),
    /// The file table declares more entries than the archive contains.
    TableTruncated {
        /// Index of the first entry that could not be read in full.
        index: usize,
    },
    /// The archive ends before the last declared file's data.
    DataTruncated {
        /// Offset where the declared file data ends, or `u64::MAX` if it ends
        /// beyond that.
        declared: u64,
        /// Actual length of the archive file.
        actual: u64,
    },
    /// The entry index does not address an entry in the archive.
    IndexOutOfBounds {
        /// The requested index.
        index: usize,
        /// Number of entries in the archive.
        len: usize,
    },
    /// No entry with the requested name is present in the archive.
    EntryNotFound {
        /// The requested name.
        name: String,
    },
    /// A file name is longer than the 12 bytes the format can store.
    NameTooLong {
        /// The offending file name.
        name: String,
        /// The maximum name length in bytes.
        max: usize,
    },
    /// A file name contains a NUL byte, which the format cannot store.
    NameContainsNull {
        /// The offending file name.
        name: String,
    },
    /// An underlying I/O error from the wrapped reader.
    Io(IoError),
}

/// `bytes` in decimal notation, separated by commas.
pub open spec fn joined(bytes: Seq<u8>) -> Seq<char>
    decreases bytes.len(),
{
    if bytes.len() == 0 {
        Seq::empty()
    } else if bytes.len() == 1 {
        text::decimal(bytes[0] as nat)
    } else {
        joined(bytes.drop_last()) + ", "@ + text::decimal(bytes.last() as nat)
    }
}

/// A list of bytes as it is shown in messages.
fn list_text(bytes: &[u8]) -> (list: String)
    ensures
        list@ == "["@ + joined(bytes@) + "]"@,
{
    let mut list = String::new();
    list.append("[");
    let mut i: usize = 0;
    proof {
        assert(list@ =~= "["@ + joined(bytes@.take(0)));
    }
    while i < bytes.len()
        invariant
            i <= bytes@.len(),
            list@ == "["@ + joined(bytes@.take(i as int)),
        decreases bytes@.len() - i,
    {
        if i > 0 {
            list.append(", ");
        }
        list.append(decimal_text(bytes[i] as u64).as_str());
        proof {
            assert(bytes@.take(i + 1).drop_last() =~= bytes@.take(i as int));
            assert(list@ =~= "["@ + joined(bytes@.take(i + 1)));
        }
        i = i + 1;
    }
    assert(bytes@.take(bytes@.len() as int) =~= bytes@);
    list.append("]");
    list
}

impl Error {
    /// What the error is described as.
    pub open spec fn described(self) -> Seq<char> {
        match self {
            Error::BadSignature { found } => "not a GRP archive: signature "@ + ("["@ + joined(
                found@,
            ) + "]"@) + ", expected \"KenSilverman\""@,
            Error::TooSmall(len) => "file too small to be a GRP archive: "@ + text::decimal(
                len as nat,
            ) + " bytes, need at least 16"@,
            Error::TableTruncated { index } => "archive truncated in file table at entry "@
                + text::decimal(index as nat),
            Error::DataTruncated { declared, actual } => "archive ends at byte "@ + text::decimal(
                actual as nat,
            ) + " but its file table declares data until byte "@ + text::decimal(declared as nat),
            Error::IndexOutOfBounds { index, len } => "entry index "@ + text::decimal(
                index as nat,
            ) + " out of range: archive has "@ + text::decimal(len as nat) + " entries"@,
            Error::EntryNotFound { name } => "no entry named "@ + text::quoted(name@)
                + " in archive"@,
            Error::NameTooLong { name, max } => "file name "@ + text::quoted(name@)
                + " is too long; GRP names are limited to "@ + text::decimal(max as nat)
                + " bytes"@,
            Error::NameContainsNull { name } => "file name "@ + text::quoted(name@)
                + " contains a NUL byte"@,
            Error::Io(error) => error.message@,
        }
    }

    /// A description of the error.
    pub fn message(&self) -> (message: String)
        ensures
            message@ == self.described(),
    {
        let mut message = String::new();
        match self {
            Error::BadSignature { found } => {
                message.append("not a GRP archive: signature ");
                message.append(list_text(found.as_slice()).as_str());
                message.append(", expected \"KenSilverman\"");
            },
            Error::TooSmall(len) => {
                message.append("file too small to be a GRP archive: ");
                message.append(decimal_text(*len as u64).as_str());
                message.append(" bytes, need at least 16");
            },
            Error::TableTruncated { index } => {
                message.append("archive truncated in file table at entry ");
                message.append(decimal_text(*index as u64).as_str());
            },
            Error::DataTruncated { declared, actual } => {
                message.append("archive ends at byte ");
                message.append(decimal_text(*actual).as_str());
                message.append(" but its file table declares data until byte ");
                message.append(decimal_text(*declared).as_str());
            },
            Error::IndexOutOfBounds { index, len } => {
                message.append("entry index ");
                message.append(decimal_text(*index as u64).as_str());
                message.append(" out of range: archive has ");
                message.append(decimal_text(*len as u64).as_str());
                message.append(" entries");
            },
            Error::EntryNotFound { name } => {
                message.append("no entry named ");
                message.append(quote(name.as_str()).as_str());
                message.append(" in archive");
            },
            Error::NameTooLong { name, max } => {
                message.append("file name ");
                message.append(quote(name.as_str()).as_str());
                message.append(" is too long; GRP names are limited to ");
                message.append(decimal_text(*max as u64).as_str());
                message.append(" bytes");
            },
            Error::NameContainsNull { name } => {
                message.append("file name ");
                message.append(quote(name.as_str()).as_str());
                message.append(" contains a NUL byte");
            },
            Error::Io(error) => {
                message.append(error.message.as_str());
            },
        }
        assert(message@ =~= self.described());
        message
    }
}

/// Bytes are listed in their order, in decimal notation, with commas between
/// them.
pub proof fn bytes_are_listed_in_order(bytes: Seq<u8>, byte: u8)
    ensures
        joined(Seq::empty()) == Seq::<char>::empty(),
        joined(seq![byte]) == text::decimal(byte as nat),
        bytes.len() > 0 ==> joined(bytes.push(byte)) == joined(bytes) + ", "@ + text::decimal(
            byte as nat,
        ),
{
    assert(bytes.push(byte).drop_last() =~= bytes);
}

/// What each error is described as, with the values that it carries.
pub proof fn errors_are_described_with_their_values(error: Error)
    ensures
        error matches Error::BadSignature { found } ==> error.described()
            == "not a GRP archive: signature ["@ + joined(found@)
            + "], expected \"KenSilverman\""@,
        error matches Error::TooSmall(len) ==> error.described()
            == "file too small to be a GRP archive: "@ + text::decimal(len as nat)
            + " bytes, need at least 16"@,
        error matches Error::TableTruncated { index } ==> error.described()
            == "archive truncated in file table at entry "@ + text::decimal(index as nat),
        error matches Error::DataTruncated { declared, actual } ==> error.described()
            == "archive ends at byte "@ + text::decimal(actual as nat)
            + " but its file table declares data until byte "@ + text::decimal(declared as nat),
        error matches Error::IndexOutOfBounds { index, len } ==> error.described()
            == "entry index "@ + text::decimal(index as nat) + " out of range: archive has "@
            + text::decimal(len as nat) + " entries"@,
        error matches Error::EntryNotFound { name } ==> error.described() == "no entry named "@
            + text::quoted(name@) + " in archive"@,
        error matches Error::NameTooLong { name, max } ==> error.described() == "file name "@
            + text::quoted(name@) + " is too long; GRP names are limited to "@ + text::decimal(
            max as nat,
        ) + " bytes"@,
        error matches Error::NameContainsNull { name } ==> error.described() == "file name "@
            + text::quoted(name@) + " contains a NUL byte"@,
        error matches Error::Io(cause) ==> error.described() == cause.message@,
{
    reveal_strlit("not a GRP archive: signature [");
    reveal_strlit("not a GRP archive: signature ");
    reveal_strlit("[");
    reveal_strlit("]");
    reveal_strlit(", expected \"KenSilverman\"");
    reveal_strlit("], expected \"KenSilverman\"");
    if let Error::BadSignature { found } = error {
        assert(error.described() =~= "not a GRP archive: signature ["@ + joined(found@)
            + "], expected \"KenSilverman\""@);
    }
}

} // verus!
