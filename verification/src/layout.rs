//! The GRP format.
//!
//! | Data type  | Name      | Description                              |
//! | ---------- | --------- | ---------------------------------------- |
//! | `char[12]` | signature | `"KenSilverman"` (not NUL-terminated)    |
//! | `u32le`    | fileCount | number of files                          |
//! | ...        | entries   | `fileCount` x (12-byte name + `u32le` size) |
//!
//! File data starts immediately after the last table entry; a file's offset
//! is the sum of the sizes of all files before it.

#[allow(unused_imports)]
use crate::text;
use vstd::prelude::*;
#[allow(unused_imports)]
use vstd::utf8::*;

verus! {

/// The length of the header, in bytes.
pub const HEADER_LEN: usize = 16;

/// The length of one record of the file table, in bytes.
pub const ENTRY_LEN: usize = 16;

/// The maximum length of a file name, in bytes: the 12-byte name field.
pub const MAX_NAME_LEN: usize = 12;

/// The signature that every archive starts with: `KenSilverman`.
pub open spec fn signature() -> Seq<u8> {
    seq![0x4b, 0x65, 0x6e, 0x53, 0x69, 0x6c, 0x76, 0x65, 0x72, 0x6d, 0x61, 0x6e]
}

/// The number in the four bytes of `image` at `at`, least significant first.
pub open spec fn number_at(image: Seq<u8>, at: int) -> nat {
    (image[at] + 0x100 * image[at + 1] + 0x1_0000 * image[at + 2] + 0x100_0000 * image[at
        + 3]) as nat
}

/// The bytes of a name field up to its first NUL.
pub open spec fn before_nul(field: Seq<u8>) -> Seq<u8> {
    match field.index_of_first(0u8) {
        Some(end) => field.take(end),
        None => field,
    }
}

/// The name that a name field holds.
pub open spec fn stored_name(field: Seq<u8>) -> Seq<char> {
    text::text_of(before_nul(field))
}

/// A file of an archive: its name, its size, and where its data starts.
#[verifier::ext_equal]
pub struct EntryModel {
    pub name: Seq<char>,
    pub size: nat,
    pub offset: nat,
}

/// How many files an image declares.
pub open spec fn file_count(image: Seq<u8>) -> nat {
    number_at(image, 12)
}

/// Where the record of file `index` starts.
pub open spec fn record_start(index: int) -> int {
    16 * (index + 1)
}

/// The declared size of file `index`.
pub open spec fn file_size(image: Seq<u8>, index: int) -> nat {
    number_at(image, record_start(index) + 12)
}

/// The sizes of the first `count` files, added up.
pub open spec fn total_size(image: Seq<u8>, count: nat) -> nat
    decreases count,
{
    if count == 0 {
        0
    } else {
        total_size(image, (count - 1) as nat) + file_size(image, count - 1)
    }
}

/// Where the data of file `index` starts in the archive.
pub open spec fn data_offset(image: Seq<u8>, index: nat) -> nat {
    (record_start(file_count(image) as int) + total_size(image, index)) as nat
}

/// Where the data of the last file ends in the archive.
pub open spec fn declared_end(image: Seq<u8>) -> nat {
    data_offset(image, file_count(image))
}

/// The name field of file `index`.
pub open spec fn name_field_of(image: Seq<u8>, index: int) -> Seq<u8> {
    image.subrange(record_start(index), record_start(index) + 12)
}

/// File `index` of an image.
pub open spec fn entry(image: Seq<u8>, index: int) -> EntryModel {
    EntryModel {
        name: stored_name(name_field_of(image, index)),
        size: file_size(image, index),
        offset: data_offset(image, index as nat),
    }
}

/// The file table of an image.
pub open spec fn table(image: Seq<u8>) -> Seq<EntryModel> {
    Seq::new(file_count(image), |index: int| entry(image, index))
}

/// What opening an archive finds.
pub enum Opened {
    /// Too few bytes for the header.
    TooSmall,
    /// These twelve bytes in place of the signature.
    BadSignature(Seq<u8>),
    /// A table that ends in the record of this file.
    TableTruncated(nat),
    /// Data that is declared until `declared`, in `actual` bytes.
    DataTruncated { declared: nat, actual: nat },
    /// An archive with these files.
    Archive(Seq<EntryModel>),
}

/// What is found on opening the archive in `bytes` whose header starts at
/// `at`. Offsets count from the start of `bytes`.
pub open spec fn opened(bytes: Seq<u8>, at: nat) -> Opened {
    let image = if at <= bytes.len() {
        bytes.skip(at as int)
    } else {
        Seq::empty()
    };
    if image.len() < 16 {
        Opened::TooSmall
    } else if image.take(12) != signature() {
        Opened::BadSignature(image.take(12))
    } else if image.len() < record_start(file_count(image) as int) {
        Opened::TableTruncated((image.len() / 16 - 1) as nat)
    } else if bytes.len() < declared_end(image) {
        Opened::DataTruncated { declared: declared_end(image), actual: bytes.len() }
    } else {
        Opened::Archive(table(image))
    }
}

/// A file to be stored: its name and its data.
#[verifier::ext_equal]
pub struct FileModel {
    pub name: Seq<char>,
    pub data: Seq<u8>,
}

/// Whether a name is longer than its field.
pub open spec fn name_too_long(name: Seq<char>) -> bool {
    encode_utf8(name).len() > 12
}

/// Whether a name contains a NUL byte.
pub open spec fn name_has_nul(name: Seq<char>) -> bool {
    encode_utf8(name).contains(0u8)
}

/// Whether a name can be stored.
pub open spec fn valid_name(name: Seq<char>) -> bool {
    !name_too_long(name) && !name_has_nul(name)
}

/// The four bytes of a number, least significant first. Of a number that
/// does not fit, the bytes that do.
pub open spec fn number_bytes(value: nat) -> Seq<u8> {
    seq![
        (value % 0x100) as u8,
        (value / 0x100 % 0x100) as u8,
        (value / 0x1_0000 % 0x100) as u8,
        (value / 0x100_0000 % 0x100) as u8,
    ]
}

/// The field for a name of the given bytes: these bytes, then NULs.
pub open spec fn padded_field(bytes: Seq<u8>) -> Seq<u8> {
    Seq::new(
        12,
        |i: int|
            if i < bytes.len() {
                bytes[i]
            } else {
                0u8
            },
    )
}

/// The field for a name.
pub open spec fn name_field(name: Seq<char>) -> Seq<u8> {
    padded_field(encode_utf8(name))
}

/// Whether there are only NULs behind the name in a name field.
pub open spec fn is_padded(field: Seq<u8>) -> bool {
    field == padded_field(before_nul(field))
}

/// The header of an archive of `count` files.
pub open spec fn header(count: nat) -> Seq<u8> {
    signature() + number_bytes(count)
}

/// A file as it is stored: its name field and its data.
#[verifier::ext_equal]
pub struct StoredFile {
    pub field: Seq<u8>,
    pub data: Seq<u8>,
}

/// How a file is stored under its name.
pub open spec fn stored(file: FileModel) -> StoredFile {
    StoredFile { field: name_field(file.name), data: file.data }
}

/// How files are stored under their names.
pub open spec fn stored_all(files: Seq<FileModel>) -> Seq<StoredFile> {
    Seq::new(files.len(), |i: int| stored(files[i]))
}

/// The file that a stored file stands for.
pub open spec fn named(file: StoredFile) -> FileModel {
    FileModel { name: stored_name(file.field), data: file.data }
}

/// How a file of an archive is stored again: with the same name and the same
/// data, and with nothing but NULs behind the name.
pub open spec fn carried(file: StoredFile) -> StoredFile {
    StoredFile { field: padded_field(before_nul(file.field)), data: file.data }
}

/// How files of an archive are stored again.
pub open spec fn carried_all(files: Seq<StoredFile>) -> Seq<StoredFile> {
    Seq::new(files.len(), |i: int| carried(files[i]))
}

/// The table record of a file.
pub open spec fn record(file: StoredFile) -> Seq<u8> {
    file.field + number_bytes(file.data.len())
}

/// The table records of `files`, one after the other.
pub open spec fn records(files: Seq<StoredFile>) -> Seq<u8>
    decreases files.len(),
{
    if files.len() == 0 {
        Seq::empty()
    } else {
        records(files.drop_last()) + record(files.last())
    }
}

/// The data of `files`, one after the other.
pub open spec fn contents(files: Seq<StoredFile>) -> Seq<u8>
    decreases files.len(),
{
    if files.len() == 0 {
        Seq::empty()
    } else {
        contents(files.drop_last()) + files.last().data
    }
}

/// The archive that stores `files`.
pub open spec fn image(files: Seq<StoredFile>) -> Seq<u8> {
    header(files.len()) + records(files) + contents(files)
}

/// Whether `files` fit the format: there are few enough of them, each is
/// small enough, and each has a name field of the right length.
pub open spec fn storable(files: Seq<StoredFile>) -> bool {
    &&& files.len() < 0x1_0000_0000
    &&& forall|i: int|
        0 <= i < files.len() ==> {
            &&& (#[trigger] files[i]).data.len() < 0x1_0000_0000
            &&& files[i].field.len() == 12
        }
}

/// Whether `files` can be stored under their names.
pub open spec fn nameable(files: Seq<FileModel>) -> bool {
    &&& files.len() < 0x1_0000_0000
    &&& forall|i: int|
        0 <= i < files.len() ==> {
            &&& (#[trigger] files[i]).data.len() < 0x1_0000_0000
            &&& valid_name(files[i].name)
        }
}

/// The files that are stored in the archive in `bytes` whose header starts at
/// `at`.
pub open spec fn contained(bytes: Seq<u8>, at: nat) -> Seq<StoredFile> {
    let image = bytes.skip(at as int);
    Seq::new(
        file_count(image),
        |i: int|
            StoredFile {
                field: name_field_of(image, i),
                data: bytes.subrange(
                    data_offset(image, i as nat) as int,
                    (data_offset(image, i as nat) + file_size(image, i)) as int,
                ),
            },
    )
}

/// Sizes add up to more the more files there are.
pub proof fn lemma_total_size_grows(image: Seq<u8>, few: nat, many: nat)
    requires
        few <= many,
    ensures
        total_size(image, few) <= total_size(image, many),
    decreases many,
{
    if few < many {
        lemma_total_size_grows(image, few, (many - 1) as nat);
    }
}

/// Every file of a table lies before the declared end.
pub proof fn lemma_files_fit(image: Seq<u8>)
    ensures
        forall|i: int|
            0 <= i < table(image).len() ==> (#[trigger] table(image)[i]).offset + table(
                image,
            )[i].size <= declared_end(image),
{
    assert forall|i: int| 0 <= i < table(image).len() implies (#[trigger] table(image)[i]).offset
        + table(image)[i].size <= declared_end(image) by {
        lemma_total_size_grows(image, (i + 1) as nat, file_count(image));
    }
}

/// The files that the entries of a table stand for, with their data in
/// `bytes`.
pub open spec fn stored_files(bytes: Seq<u8>, files: Seq<EntryModel>) -> Seq<FileModel> {
    Seq::new(
        files.len(),
        |i: int|
            FileModel {
                name: files[i].name,
                data: bytes.subrange(
                    files[i].offset as int,
                    (files[i].offset + files[i].size) as int,
                ),
            },
    )
}

/// A number that fits is read back from its four bytes.
pub proof fn lemma_number_round_trip(bytes: Seq<u8>, at: int, value: nat)
    requires
        value < 0x1_0000_0000,
        0 <= at,
        at + 4 <= bytes.len(),
        bytes.subrange(at, at + 4) == number_bytes(value),
    ensures
        number_at(bytes, at) == value,
{
    let four = bytes.subrange(at, at + 4);
    assert(bytes[at] == four[0]);
    assert(bytes[at + 1] == four[1]);
    assert(bytes[at + 2] == four[2]);
    assert(bytes[at + 3] == four[3]);
}

/// A valid name is read back from its field.
pub proof fn lemma_name_round_trip(name: Seq<char>)
    requires
        valid_name(name),
    ensures
        stored_name(name_field(name)) == name,
{
    let encoded = encode_utf8(name);
    let field = name_field(name);
    field.index_of_first_ensures(0u8);
    assert forall|i: int| 0 <= i < encoded.len() implies field[i] != 0u8 by {
        assert(encoded.contains(encoded[i]));
    }
    if encoded.len() < 12 {
        assert(field[encoded.len() as int] == 0u8);
        assert(field.contains(0u8));
    } else {
        assert(!field.contains(0u8));
    }
    assert(before_nul(field) =~= encoded);
    encode_utf8_valid_utf8(name);
    encode_utf8_decode_utf8(name);
}

/// The records of a table all have the same length, so that each is found by
/// its index.
pub proof fn lemma_record_found(files: Seq<StoredFile>, index: int)
    requires
        storable(files),
        0 <= index < files.len(),
    ensures
        records(files).len() == 16 * files.len(),
        records(files).subrange(16 * index, 16 * index + 16) == record(files[index]),
    decreases files.len(),
{
    assert(files[files.len() - 1] == files.last());
    assert(storable(files.drop_last()));
    lemma_records_len(files.drop_last());
    if index < files.len() - 1 {
        lemma_record_found(files.drop_last(), index);
        assert(records(files).subrange(16 * index, 16 * index + 16) =~= records(
            files.drop_last(),
        ).subrange(16 * index, 16 * index + 16));
    } else {
        assert(records(files).subrange(16 * index, 16 * index + 16) =~= record(files[index]));
    }
}

/// The records of `files` take 16 bytes each.
pub proof fn lemma_records_len(files: Seq<StoredFile>)
    requires
        storable(files),
    ensures
        records(files).len() == 16 * files.len(),
    decreases files.len(),
{
    if files.len() > 0 {
        assert(files[files.len() - 1] == files.last());
        assert(storable(files.drop_last()));
        lemma_records_len(files.drop_last());
    }
}

/// The records and the data of the first files come first.
pub proof fn lemma_beginnings(files: Seq<StoredFile>, count: int)
    requires
        0 <= count <= files.len(),
    ensures
        records(files.take(count)).is_prefix_of(records(files)),
        contents(files.take(count)).is_prefix_of(contents(files)),
    decreases files.len(),
{
    if count < files.len() {
        let fewer = files.drop_last();
        lemma_beginnings(fewer, count);
        assert(fewer.take(count) =~= files.take(count));
        assert(records(fewer) =~= records(files).take(records(fewer).len() as int));
        assert(contents(fewer) =~= contents(files).take(contents(fewer).len() as int));
    } else {
        assert(files.take(count) =~= files);
    }
}

/// The data of file `index` stands after the data of the files before it.
pub proof fn lemma_content_found(files: Seq<StoredFile>, index: int)
    requires
        0 <= index < files.len(),
    ensures
        contents(files.take(index)).len() + files[index].data.len() <= contents(files).len(),
        contents(files).subrange(
            contents(files.take(index)).len() as int,
            (contents(files.take(index)).len() + files[index].data.len()) as int,
        ) == files[index].data,
    decreases files.len(),
{
    let start = contents(files.take(index)).len() as int;
    let end = start + files[index].data.len();
    if index < files.len() - 1 {
        let fewer = files.drop_last();
        lemma_content_found(fewer, index);
        assert(fewer.take(index) =~= files.take(index));
        assert(contents(files).subrange(start, end) =~= contents(fewer).subrange(start, end));
    } else {
        assert(files.take(index) =~= files.drop_last());
        assert(contents(files).subrange(start, end) =~= files[index].data);
    }
}

/// The header of the archive that stores `files` is read back.
pub proof fn lemma_header_round_trip(files: Seq<StoredFile>, trailing: Seq<u8>)
    requires
        storable(files),
    ensures
        (image(files) + trailing).take(12) == signature(),
        file_count(image(files) + trailing) == files.len(),
        image(files).len() == record_start(files.len() as int) + contents(files).len(),
{
    let bytes = image(files) + trailing;
    lemma_records_len(files);
    assert(header(files.len()).len() == 16);
    assert(bytes.take(12) =~= signature());
    assert(bytes.subrange(12, 16) =~= number_bytes(files.len()));
    lemma_number_round_trip(bytes, 12, files.len());
}

/// The record of file `index` in the archive that stores `files` is read
/// back.
pub proof fn lemma_record_round_trip(files: Seq<StoredFile>, trailing: Seq<u8>, index: int)
    requires
        storable(files),
        0 <= index < files.len(),
    ensures
        name_field_of(image(files) + trailing, index) == files[index].field,
        file_size(image(files) + trailing, index) == files[index].data.len(),
{
    let bytes = image(files) + trailing;
    let start = record_start(index);
    let stored = record(files[index]);
    lemma_record_found(files, index);
    assert(header(files.len()).len() == 16);
    assert(bytes.subrange(start, start + 16) =~= records(files).subrange(
        16 * index,
        16 * index + 16,
    ));
    assert(bytes.subrange(start, start + 12) =~= bytes.subrange(start, start + 16).take(12));
    assert(stored.take(12) =~= files[index].field);
    assert(bytes.subrange(start + 12, start + 16) =~= bytes.subrange(start, start + 16).skip(12));
    assert(stored.skip(12) =~= number_bytes(files[index].data.len()));
    lemma_number_round_trip(bytes, start + 12, files[index].data.len());
}

/// The data of file `index` in the archive that stores `files` is read back.
pub proof fn lemma_data_round_trip(files: Seq<StoredFile>, trailing: Seq<u8>, index: int)
    requires
        storable(files),
        0 <= index < files.len(),
    ensures
        ({
            let bytes = image(files) + trailing;
            let from = data_offset(bytes, index as nat) as int;
            &&& from + files[index].data.len() <= bytes.len()
            &&& bytes.subrange(from, from + files[index].data.len()) == files[index].data
        }),
{
    let bytes = image(files) + trailing;
    lemma_header_round_trip(files, trailing);
    lemma_sizes_round_trip(files, trailing, index as nat);
    lemma_content_found(files, index);
    let data_start = record_start(files.len() as int);
    let from = contents(files.take(index)).len() as int;
    let to = from + files[index].data.len();
    assert(header(files.len()) + records(files) == image(files).take(data_start)) by {
        lemma_records_len(files);
        assert(header(files.len()) + records(files) =~= image(files).take(data_start));
    }
    assert(bytes.subrange(data_start + from, data_start + to) =~= contents(files).subrange(from, to));
}

/// The sizes in the archive that stores `files` add up to the length of the
/// data.
pub proof fn lemma_sizes_round_trip(files: Seq<StoredFile>, trailing: Seq<u8>, count: nat)
    requires
        storable(files),
        count <= files.len(),
    ensures
        total_size(image(files) + trailing, count) == contents(files.take(count as int)).len(),
    decreases count,
{
    if count > 0 {
        lemma_sizes_round_trip(files, trailing, (count - 1) as nat);
        lemma_record_round_trip(files, trailing, count - 1);
        assert(files.take(count as int).drop_last() =~= files.take(count - 1));
    }
}

/// Reading gives back what was written: the archive that stores `files`,
/// whatever follows it, opens as an archive of just these files, with their
/// name fields and their data, in their order.
pub proof fn image_round_trip(files: Seq<StoredFile>, trailing: Seq<u8>)
    requires
        storable(files),
    ensures
        opened(image(files) + trailing, 0) is Archive,
        contained(image(files) + trailing, 0) == files,
{
    let bytes = image(files) + trailing;
    let count = files.len();
    lemma_header_round_trip(files, trailing);
    lemma_sizes_round_trip(files, trailing, count);
    assert(files.take(count as int) =~= files);
    assert(bytes.skip(0) =~= bytes);
    assert(opened(bytes, 0) == Opened::Archive(table(bytes)));
    assert forall|i: int| 0 <= i < count implies contained(bytes, 0)[i] == #[trigger] files[i] by {
        lemma_record_round_trip(files, trailing, i);
        lemma_data_round_trip(files, trailing, i);
    }
    assert(contained(bytes, 0) =~= files);
}

/// The entries of an archive describe what it holds: each has the name that
/// its field holds, and its data.
pub proof fn entries_describe_contents(bytes: Seq<u8>, at: nat)
    requires
        opened(bytes, at) is Archive,
    ensures
        opened(bytes, at) matches Opened::Archive(entries) && stored_files(bytes, entries)
            == Seq::new(contained(bytes, at).len(), |i: int| named(contained(bytes, at)[i])),
{
    let entries = table(bytes.skip(at as int));
    assert(stored_files(bytes, entries) =~= Seq::new(
        contained(bytes, at).len(),
        |i: int| named(contained(bytes, at)[i]),
    ));
}

/// Reading gives back names as well: files that were stored under valid names
/// are found under them.
pub proof fn names_round_trip(files: Seq<FileModel>, trailing: Seq<u8>)
    requires
        nameable(files),
    ensures
        storable(stored_all(files)),
        opened(image(stored_all(files)) + trailing, 0) matches Opened::Archive(entries)
            && stored_files(image(stored_all(files)) + trailing, entries) == files,
{
    let kept = stored_all(files);
    let bytes = image(kept) + trailing;
    assert forall|i: int| 0 <= i < kept.len() implies {
        &&& (#[trigger] kept[i]).data.len() < 0x1_0000_0000
        &&& kept[i].field.len() == 12
    } by {
        assert(files[i].data.len() < 0x1_0000_0000);
    }
    image_round_trip(kept, trailing);
    entries_describe_contents(bytes, 0);
    assert forall|i: int| 0 <= i < files.len() implies named(kept[i]) == #[trigger] files[i] by {
        lemma_name_round_trip(files[i].name);
    }
    assert(Seq::new(contained(bytes, 0).len(), |i: int| named(contained(bytes, 0)[i])) =~= files);
}

/// Whatever an archive holds can be stored again.
pub proof fn contents_are_storable(bytes: Seq<u8>, at: nat)
    requires
        opened(bytes, at) is Archive,
    ensures
        storable(contained(bytes, at)),
{
    let image = bytes.skip(at as int);
    let files = contained(bytes, at);
    lemma_files_fit(image);
    assert forall|i: int| 0 <= i < files.len() implies {
        &&& (#[trigger] files[i]).data.len() < 0x1_0000_0000
        &&& files[i].field.len() == 12
    } by {
        let entry = table(image)[i];
        assert(entry.offset + entry.size <= bytes.len());
    }
}

/// The files of an archive, one after the other, are the bytes from the end of
/// its table to the end of its data.
pub proof fn contents_are_the_data_region(bytes: Seq<u8>, at: nat, count: nat)
    requires
        opened(bytes, at) is Archive,
        count <= contained(bytes, at).len(),
    ensures
        ({
            let image = bytes.skip(at as int);
            contents(contained(bytes, at).take(count as int)) == bytes.subrange(
                data_offset(image, 0) as int,
                data_offset(image, count) as int,
            )
        }),
    decreases count,
{
    let image = bytes.skip(at as int);
    let files = contained(bytes, at);
    lemma_total_size_grows(image, count, file_count(image));
    if count > 0 {
        contents_are_the_data_region(bytes, at, (count - 1) as nat);
        lemma_total_size_grows(image, 0, (count - 1) as nat);
        assert(files.take(count as int).drop_last() =~= files.take(count - 1));
        let from = data_offset(image, 0) as int;
        let mid = data_offset(image, (count - 1) as nat) as int;
        let to = data_offset(image, count) as int;
        assert(bytes.subrange(from, to) =~= bytes.subrange(from, mid) + bytes.subrange(mid, to));
    } else {
        assert(bytes.subrange(data_offset(image, 0) as int, data_offset(image, 0) as int)
            =~= Seq::empty());
    }
}

/// Bytes that follow the header and the records do not change what these
/// say.
pub proof fn lemma_table_unchanged(image: Seq<u8>, trailing: Seq<u8>, count: nat)
    requires
        record_start(count as int) <= image.len(),
    ensures
        file_count(image + trailing) == file_count(image),
        total_size(image + trailing, count) == total_size(image, count),
    decreases count,
{
    if count > 0 {
        lemma_table_unchanged(image, trailing, (count - 1) as nat);
    }
}

/// Bytes beyond the declared data are ignored: an archive that is followed by
/// anything opens as the same archive, with the same data.
pub proof fn trailing_bytes_are_ignored(bytes: Seq<u8>, at: nat, trailing: Seq<u8>)
    requires
        opened(bytes, at) is Archive,
    ensures
        opened(bytes + trailing, at) == opened(bytes, at),
        contained(bytes + trailing, at) == contained(bytes, at),
        opened(bytes, at) matches Opened::Archive(entries) && stored_files(
            bytes + trailing,
            entries,
        ) == stored_files(bytes, entries),
{
    let image = bytes.skip(at as int);
    let longer = (bytes + trailing).skip(at as int);
    assert(longer =~= image + trailing);
    assert(longer.take(12) =~= image.take(12));
    lemma_table_unchanged(image, trailing, 0);
    lemma_table_unchanged(image, trailing, file_count(image));
    assert forall|i: int| 0 <= i < file_count(image) implies #[trigger] entry(longer, i) == entry(
        image,
        i,
    ) by {
        lemma_table_unchanged(image, trailing, i as nat);
        lemma_table_unchanged(image, trailing, (i + 1) as nat);
        let start = record_start(i);
        assert(longer.subrange(start, start + 12) =~= image.subrange(start, start + 12));
    }
    assert(table(longer) =~= table(image));
    lemma_files_fit(image);
    let entries = table(image);
    assert forall|i: int| 0 <= i < entries.len() implies #[trigger] stored_files(
        bytes + trailing,
        entries,
    )[i] == stored_files(bytes, entries)[i] by {
        let from = entries[i].offset as int;
        let to = from + entries[i].size;
        assert((bytes + trailing).subrange(from, to) =~= bytes.subrange(from, to));
    }
    assert(stored_files(bytes + trailing, entries) =~= stored_files(bytes, entries));
    assert forall|i: int| 0 <= i < file_count(image) implies #[trigger] contained(
        bytes + trailing,
        at,
    )[i] == contained(bytes, at)[i] by {
        assert(entry(longer, i) == entry(image, i));
        let start = record_start(i);
        assert(longer.subrange(start, start + 12) =~= image.subrange(start, start + 12));
        assert(stored_files(bytes + trailing, entries)[i] == stored_files(bytes, entries)[i]);
    }
    assert(contained(bytes + trailing, at) =~= contained(bytes, at));
}

/// File data follows the table without a gap: the first file starts right
/// after the last record, each other file where the one before it ends, and
/// the last one ends within the archive.
pub proof fn data_is_contiguous(bytes: Seq<u8>, at: nat)
    requires
        opened(bytes, at) is Archive,
    ensures
        opened(bytes, at) matches Opened::Archive(entries) && {
            &&& entries.len() > 0 ==> entries[0].offset == 16 * (entries.len() + 1)
            &&& forall|i: int|
                0 < i < entries.len() ==> (#[trigger] entries[i]).offset == entries[i - 1].offset
                    + entries[i - 1].size
            &&& forall|i: int|
                0 <= i < entries.len() ==> (#[trigger] entries[i]).offset + entries[i].size
                    <= bytes.len()
        },
{
    let image = bytes.skip(at as int);
    lemma_files_fit(image);
    assert(total_size(image, 0) == 0);
    assert forall|i: int| 0 < i < table(image).len() implies (#[trigger] table(image)[i]).offset
        == table(image)[i - 1].offset + table(image)[i - 1].size by {
        assert(total_size(image, i as nat) == total_size(image, (i - 1) as nat) + file_size(
            image,
            i - 1,
        ));
    }
}

/// The bytes before the first NUL of a field hold no NUL, and stay what they
/// are when they are followed by NULs alone.
pub proof fn lemma_padding(field: Seq<u8>)
    requires
        field.len() == 12,
    ensures
        before_nul(field).len() <= 12,
        !before_nul(field).contains(0u8),
        before_nul(padded_field(before_nul(field))) == before_nul(field),
{
    let kept = before_nul(field);
    field.index_of_first_ensures(0u8);
    assert(!kept.contains(0u8)) by {
        if kept.contains(0u8) {
            let i = choose|i: int| 0 <= i < kept.len() && kept[i] == 0u8;
            assert(field[i] == 0u8);
            assert(field.contains(0u8));
        }
    }
    let again = padded_field(kept);
    again.index_of_first_ensures(0u8);
    assert forall|i: int| 0 <= i < kept.len() implies again[i] != 0u8 by {
        assert(kept.contains(kept[i]));
    }
    if kept.len() < 12 {
        assert(again[kept.len() as int] == 0u8);
        assert(again.contains(0u8));
    }
    assert(before_nul(again) =~= kept);
}

/// A file that is stored again keeps its name and its data.
pub proof fn carrying_keeps_names(file: StoredFile)
    requires
        file.field.len() == 12,
    ensures
        named(carried(file)) == named(file),
        is_padded(carried(file).field),
{
    lemma_padding(file.field);
}

/// A name that was stored as UTF-8 is a valid name, and storing it anew gives
/// the field that it is carried through in.
pub proof fn stored_name_is_valid(field: Seq<u8>)
    requires
        field.len() == 12,
        valid_utf8(before_nul(field)),
    ensures
        valid_name(stored_name(field)),
        name_field(stored_name(field)) == padded_field(before_nul(field)),
{
    lemma_padding(field);
    decode_utf8_encode_utf8(before_nul(field));
}

/// The four bytes of a number are those that it was read from.
pub proof fn lemma_number_bytes(bytes: Seq<u8>, at: int)
    requires
        0 <= at,
        at + 4 <= bytes.len(),
    ensures
        number_bytes(number_at(bytes, at)) == bytes.subrange(at, at + 4),
{
    let a = bytes[at] as nat;
    let b = bytes[at + 1] as nat;
    let c = bytes[at + 2] as nat;
    let d = bytes[at + 3] as nat;
    let value = number_at(bytes, at);
    assert(value == a + 0x100 * b + 0x1_0000 * c + 0x100_0000 * d);
    assert(value % 0x100 == a);
    assert(value / 0x100 == b + 0x100 * c + 0x1_0000 * d);
    assert(value / 0x1_0000 == c + 0x100 * d);
    assert(value / 0x100_0000 == d);
    assert(number_bytes(value) =~= bytes.subrange(at, at + 4));
}

/// The records of the first files of an archive are the bytes of its table.
#[verifier::spinoff_prover]
#[verifier::rlimit(40)]
pub proof fn lemma_records_are_the_table(bytes: Seq<u8>, count: nat)
    requires
        opened(bytes, 0) is Archive,
        count <= contained(bytes, 0).len(),
    ensures
        records(contained(bytes, 0).take(count as int)) == bytes.subrange(
            16,
            record_start(count as int),
        ),
    decreases count,
{
    let files = contained(bytes, 0);
    assert(bytes.skip(0) =~= bytes);
    lemma_files_fit(bytes);
    if count > 0 {
        let index = count - 1;
        lemma_records_are_the_table(bytes, index as nat);
        assert(files.take(count as int).drop_last() =~= files.take(index));
        let start = record_start(index);
        lemma_number_bytes(bytes, start + 12);
        assert(table(bytes)[index].offset + table(bytes)[index].size <= bytes.len());
        assert(files[index].data.len() == file_size(bytes, index));
        assert(record(files[index]) =~= bytes.subrange(start, start + 16));
        assert(bytes.subrange(16, start + 16) =~= bytes.subrange(16, start) + bytes.subrange(
            start,
            start + 16,
        ));
    } else {
        assert(bytes.subrange(16, 16) =~= Seq::empty());
    }
}

/// The image of what an archive holds is the archive itself, up to the end of
/// its data.
#[verifier::spinoff_prover]
#[verifier::rlimit(40)]
pub proof fn image_is_the_archive(bytes: Seq<u8>)
    requires
        opened(bytes, 0) is Archive,
    ensures
        image(contained(bytes, 0)) == bytes.take(declared_end(bytes) as int),
        declared_end(bytes) <= bytes.len(),
{
    let files = contained(bytes, 0);
    let count = file_count(bytes);
    assert(bytes.skip(0) =~= bytes);
    lemma_records_are_the_table(bytes, count);
    contents_are_the_data_region(bytes, 0, count);
    lemma_number_bytes(bytes, 12);
    assert(files.take(count as int) =~= files);
    let data = record_start(count as int);
    assert(total_size(bytes, 0) == 0);
    assert(header(count) =~= bytes.subrange(0, 16));
    assert(image(files) =~= bytes.subrange(0, 16) + bytes.subrange(16, data) + bytes.subrange(
        data,
        declared_end(bytes) as int,
    ));
    assert(image(files) =~= bytes.take(declared_end(bytes) as int));
}

/// The sizes of the first files add up to the sum of the numbers that stand in
/// their records.
pub proof fn sizes_add_up(bytes: Seq<u8>, at: nat, count: nat)
    requires
        at + 16 * (count + 1) <= bytes.len(),
    ensures
        total_size(bytes.skip(at as int), count) == Seq::new(
            count,
            |i: int|
                bytes[at + 16 * (i + 1) + 12] + 0x100 * bytes[at + 16 * (i + 1) + 13] + 0x1_0000
                    * bytes[at + 16 * (i + 1) + 14] + 0x100_0000 * bytes[at + 16 * (i + 1) + 15],
        ).fold_left(0int, |sum: int, size: int| sum + size),
    decreases count,
{
    let image = bytes.skip(at as int);
    let sizes = Seq::new(
        count,
        |i: int|
            bytes[at + 16 * (i + 1) + 12] + 0x100 * bytes[at + 16 * (i + 1) + 13] + 0x1_0000
                * bytes[at + 16 * (i + 1) + 14] + 0x100_0000 * bytes[at + 16 * (i + 1) + 15],
    );
    reveal(Seq::fold_left);
    if count > 0 {
        sizes_add_up(bytes, at, (count - 1) as nat);
        let fewer = Seq::new(
            (count - 1) as nat,
            |i: int|
                bytes[at + 16 * (i + 1) + 12] + 0x100 * bytes[at + 16 * (i + 1) + 13] + 0x1_0000
                    * bytes[at + 16 * (i + 1) + 14] + 0x100_0000 * bytes[at + 16 * (i + 1) + 15],
        );
        assert(sizes.drop_last() =~= fewer);
        assert(sizes.last() == file_size(image, count - 1));
    }
}

/// The bytes before the first NUL of a field are those up to it: they are a
/// beginning of the field, hold no NUL, and either are all of it or are
/// followed by a NUL. The name that the field holds is encoded in them, if they
/// are UTF-8, and is otherwise what stands for them.
pub proof fn a_name_ends_at_the_first_nul(field: Seq<u8>)
    ensures
        before_nul(field).is_prefix_of(field),
        forall|i: int| 0 <= i < before_nul(field).len() ==> #[trigger] before_nul(field)[i] != 0,
        before_nul(field).len() < field.len() ==> field[before_nul(field).len() as int] == 0,
        valid_utf8(before_nul(field)) ==> encode_utf8(stored_name(field)) == before_nul(field),
        !valid_utf8(before_nul(field)) ==> stored_name(field) == text::repaired_text(
            before_nul(field),
        ),
{
    text::text_is_what_its_bytes_encode(before_nul(field));
    field.index_of_first_ensures(0u8);
    match field.index_of_first(0u8) {
        Some(end) => {
            assert(before_nul(field) =~= field.take(end));
        },
        None => {
            assert(field.take(field.len() as int) =~= field);
            assert forall|i: int| 0 <= i < field.len() implies #[trigger] before_nul(field)[i]
                != 0 by {
                assert(field.contains(field[i]));
            }
        },
    }
}

/// A field for a name is twelve bytes long: the bytes of the name, as far as
/// they fit, then NULs. The name that it holds is encoded in those bytes.
pub proof fn a_field_holds_a_name_and_nuls(bytes: Seq<u8>, name: Seq<char>)
    ensures
        padded_field(bytes).len() == 12,
        forall|i: int|
            0 <= i < 12 ==> #[trigger] padded_field(bytes)[i] == if i < bytes.len() {
                bytes[i]
            } else {
                0
            },
        name_field(name) == padded_field(encode_utf8(name)),
        bytes.len() <= 12 && !bytes.contains(0u8) ==> before_nul(padded_field(bytes)) == bytes,
        bytes.len() <= 12 && !bytes.contains(0u8) && valid_utf8(bytes) ==> encode_utf8(
            stored_name(padded_field(bytes)),
        ) == bytes,
{
    let field = padded_field(bytes);
    if bytes.len() <= 12 && !bytes.contains(0u8) {
        field.index_of_first_ensures(0u8);
        assert forall|i: int| 0 <= i < bytes.len() implies field[i] != 0u8 by {
            assert(bytes.contains(bytes[i]));
        }
        if bytes.len() < 12 {
            assert(field[bytes.len() as int] == 0u8);
            assert(field.contains(0u8));
        }
        assert(before_nul(field) =~= bytes);
        text::text_is_what_its_bytes_encode(bytes);
    }
}

/// A number takes four bytes, the least significant first.
pub proof fn numbers_are_little_endian(value: nat, bytes: Seq<u8>, at: int)
    ensures
        number_bytes(value).len() == 4,
        number_bytes(value)[0] == value % 0x100,
        number_bytes(value)[1] == value / 0x100 % 0x100,
        number_bytes(value)[2] == value / 0x1_0000 % 0x100,
        number_bytes(value)[3] == value / 0x100_0000 % 0x100,
        number_at(bytes, at) == bytes[at] + 0x100 * bytes[at + 1] + 0x1_0000 * bytes[at + 2]
            + 0x100_0000 * bytes[at + 3],
{
}

/// What the entries of an archive are, in terms of its bytes. There are as many
/// as the header says. Each has the size that its record says, and the name that
/// its field holds up to the first NUL. The first starts right after the table
/// and each other one where the one before it ends, all within the bytes.
#[verifier::spinoff_prover]
#[verifier::rlimit(40)]
pub proof fn entries_are_what_the_bytes_say(bytes: Seq<u8>, at: nat)
    requires
        opened(bytes, at) is Archive,
    ensures
        ({
            let number = |k: int|
                bytes[k] + 0x100 * bytes[k + 1] + 0x1_0000 * bytes[k + 2] + 0x100_0000 * bytes[k
                    + 3];
            let entries = opened(bytes, at)->Archive_0;
            &&& at + 16 * (entries.len() + 1) <= bytes.len()
            &&& bytes.subrange(at as int, at + 12int) == seq![0x4bu8, 0x65, 0x6e, 0x53, 0x69, 0x6c, 0x76, 0x65, 0x72, 0x6d, 0x61, 0x6e]
            &&& entries.len() == number(at + 12int)
            &&& forall|i: int|
                0 <= i < entries.len() ==> (#[trigger] entries[i]).size == number(
                    at + 16 * (i + 1) + 12,
                )
            &&& forall|i: int|
                0 <= i < entries.len() ==> (#[trigger] entries[i]).offset == if i == 0 {
                    16 * (entries.len() + 1)
                } else {
                    entries[i - 1].offset + entries[i - 1].size
                }
            &&& forall|i: int|
                0 <= i < entries.len() ==> (#[trigger] entries[i]).offset + entries[i].size
                    <= bytes.len()
            &&& forall|i: int, end: int|
                #![trigger entries[i], bytes.subrange(at + 16 * (i + 1), end)]
                0 <= i < entries.len() && at + 16 * (i + 1) <= end <= at + 16 * (i + 1) + 12 && (
                forall|k: int| at + 16 * (i + 1) <= k < end ==> #[trigger] bytes[k] != 0) && (end
                    == at + 16 * (i + 1) + 12 || bytes[end] == 0) ==> {
                    let name = bytes.subrange(at + 16 * (i + 1), end);
                    &&& valid_utf8(name) ==> encode_utf8(entries[i].name) == name
                    &&& !valid_utf8(name) ==> entries[i].name == text::repaired_text(name)
                }
        }),
{
    let image = bytes.skip(at as int);
    let entries = opened(bytes, at)->Archive_0;
    assert(image.take(12) =~= bytes.subrange(at as int, at + 12int));
    data_is_contiguous(bytes, at);
    assert forall|i: int, end: int|
        #![trigger entries[i], bytes.subrange(at + 16 * (i + 1), end)]
        0 <= i < entries.len() && at + 16 * (i + 1) <= end <= at + 16 * (i + 1) + 12 && (forall|
            k: int,
        | at + 16 * (i + 1) <= k < end ==> #[trigger] bytes[k] != 0) && (end == at + 16 * (i + 1)
            + 12 || bytes[end] == 0) implies {
        let name = bytes.subrange(at + 16 * (i + 1), end);
        &&& valid_utf8(name) ==> encode_utf8(entries[i].name) == name
        &&& !valid_utf8(name) ==> entries[i].name == text::repaired_text(name)
    } by {
        let start = at + 16 * (i + 1);
        let field = name_field_of(image, i);
        let name = bytes.subrange(start, end);
        a_name_ends_at_the_first_nul(field);
        assert forall|k: int| 0 <= k < 12 implies #[trigger] field[k] == bytes[start + k] by {}
        let kept = before_nul(field);
        if kept.len() < end - start {
            assert(field[kept.len() as int] == bytes[start + kept.len()]);
        }
        if kept.len() > end - start {
            assert(kept[end - start] == field[end - start]);
        }
        assert(kept =~= name);
        text::text_is_what_its_bytes_encode(name);
    }
}

/// Bytes are an archive exactly if the header and the table are there in full,
/// the signature is right, and all of the declared data is there.
pub proof fn archives_are_told_by_their_bytes(bytes: Seq<u8>, at: nat)
    ensures
        opened(bytes, at) is TooSmall <==> bytes.len() < at + 16,
        ({
            let number = |k: int|
                bytes[k] + 0x100 * bytes[k + 1] + 0x1_0000 * bytes[k + 2] + 0x100_0000 * bytes[k
                    + 3];
            let count = number(at + 12int);
            opened(bytes, at) is Archive <==> {
                &&& bytes.len() - at >= 16
                &&& bytes.subrange(at as int, at + 12int) == seq![0x4bu8, 0x65, 0x6e, 0x53, 0x69, 0x6c, 0x76, 0x65, 0x72, 0x6d, 0x61, 0x6e]
                &&& bytes.len() - at >= 16 * (count + 1)
                &&& bytes.len() >= 16 * (count + 1) + Seq::new(
                    count as nat,
                    |i: int| number(at + 16 * (i + 1) + 12),
                ).fold_left(0int, |sum: int, size: int| sum + size)
            }
        }),
{
    let image = bytes.skip(at as int);
    if at <= bytes.len() && image.len() >= 16 {
        assert(image.take(12) =~= bytes.subrange(at as int, at + 12int));
        let count = file_count(image);
        if image.len() >= record_start(count as int) {
            let number = |k: int|
                bytes[k] + 0x100 * bytes[k + 1] + 0x1_0000 * bytes[k + 2] + 0x100_0000 * bytes[k
                    + 3];
            sizes_add_up(bytes, at, count);
            assert(Seq::new(count, |i: int| number(at + 16 * (i + 1) + 12)) =~= Seq::new(
                count,
                |i: int|
                    bytes[at + 16 * (i + 1) + 12] + 0x100 * bytes[at + 16 * (i + 1) + 13] + 0x1_0000
                        * bytes[at + 16 * (i + 1) + 14] + 0x100_0000 * bytes[at + 16 * (i + 1) + 15],
            ));
        }
    }
}

/// What an archive of files consists of: the signature, the number of files,
/// the name field and the length of each file, and the data of each file, all in
/// the order of the files and with nothing in between.
pub proof fn an_image_is_header_table_and_data(files: Seq<StoredFile>)
    ensures
        ({
            let number = |value: nat|
                seq![
                    (value % 0x100) as u8,
                    (value / 0x100 % 0x100) as u8,
                    (value / 0x1_0000 % 0x100) as u8,
                    (value / 0x100_0000 % 0x100) as u8,
                ];
            image(files) == seq![0x4bu8, 0x65, 0x6e, 0x53, 0x69, 0x6c, 0x76, 0x65, 0x72, 0x6d, 0x61, 0x6e] + number(files.len()) + files.map_values(
                |file: StoredFile| file.field + number(file.data.len()),
            ).flatten() + files.map_values(|file: StoredFile| file.data).flatten()
        }),
{
    let number = |value: nat|
        seq![
            (value % 0x100) as u8,
            (value / 0x100 % 0x100) as u8,
            (value / 0x1_0000 % 0x100) as u8,
            (value / 0x100_0000 % 0x100) as u8,
        ];
    let table = files.map_values(|file: StoredFile| file.field + number(file.data.len()));
    let data = files.map_values(|file: StoredFile| file.data);
    lemma_flattened(files);
    assert(table =~= files.map_values(|file: StoredFile| record(file)));
    table.lemma_flatten_and_flatten_alt_are_equivalent();
    data.lemma_flatten_and_flatten_alt_are_equivalent();
}

/// Records and data that stand one after the other are their sequences
/// flattened.
proof fn lemma_flattened(files: Seq<StoredFile>)
    ensures
        records(files) == files.map_values(|file: StoredFile| record(file)).flatten_alt(),
        contents(files) == files.map_values(|file: StoredFile| file.data).flatten_alt(),
    decreases files.len(),
{
    if files.len() > 0 {
        let table = files.map_values(|file: StoredFile| record(file));
        let data = files.map_values(|file: StoredFile| file.data);
        lemma_flattened(files.drop_last());
        assert(table.drop_last() =~= files.drop_last().map_values(|file: StoredFile| record(file)));
        assert(data.drop_last() =~= files.drop_last().map_values(|file: StoredFile| file.data));
    }
}

/// What files stand for in their different forms: a stored file has the field
/// for its name and all of its data; what is carried through keeps its data and
/// the bytes of its name; and what is read from an archive is the bytes that an
/// entry says, under the entry's name.
pub proof fn files_keep_their_data_in_every_form(
    files: Seq<FileModel>,
    kept: Seq<StoredFile>,
    bytes: Seq<u8>,
    entries: Seq<EntryModel>,
)
    ensures
        stored_all(files).len() == files.len(),
        forall|i: int|
            0 <= i < files.len() ==> {
                &&& (#[trigger] stored_all(files)[i]) == stored(files[i])
                &&& stored_all(files)[i].data == files[i].data
                &&& stored_all(files)[i].field == padded_field(encode_utf8(files[i].name))
            },
        carried_all(kept).len() == kept.len(),
        forall|i: int|
            0 <= i < kept.len() ==> {
                &&& (#[trigger] carried_all(kept)[i]).data == kept[i].data
                &&& carried_all(kept)[i].field == padded_field(before_nul(kept[i].field))
            },
        forall|i: int|
            0 <= i < kept.len() ==> {
                &&& named(#[trigger] kept[i]).name == text::text_of(before_nul(kept[i].field))
                &&& named(kept[i]).data == kept[i].data
            },
        stored_files(bytes, entries).len() == entries.len(),
        forall|i: int|
            0 <= i < entries.len() ==> {
                &&& (#[trigger] stored_files(bytes, entries)[i]).name == entries[i].name
                &&& stored_files(bytes, entries)[i].data == bytes.subrange(
                    entries[i].offset as int,
                    (entries[i].offset + entries[i].size) as int,
                )
            },
{
}

/// What an archive holds is, for each entry, the twelve bytes of its field in
/// the table and the bytes that the entry says are its data.
pub proof fn contents_are_fields_and_data(bytes: Seq<u8>, at: nat)
    requires
        opened(bytes, at) is Archive,
    ensures
        ({
            let entries = opened(bytes, at)->Archive_0;
            &&& contained(bytes, at).len() == entries.len()
            &&& forall|i: int|
                0 <= i < entries.len() ==> {
                    &&& (#[trigger] contained(bytes, at)[i]).field == bytes.subrange(
                        at + 16 * (i + 1),
                        at + 16 * (i + 1) + 12,
                    )
                    &&& contained(bytes, at)[i].data == bytes.subrange(
                        entries[i].offset as int,
                        (entries[i].offset + entries[i].size) as int,
                    )
                }
        }),
{
    let image = bytes.skip(at as int);
    assert forall|i: int| 0 <= i < file_count(image) implies (#[trigger] contained(
        bytes,
        at,
    )[i]).field == bytes.subrange(at + 16 * (i + 1), at + 16 * (i + 1) + 12) by {
        assert(name_field_of(image, i) =~= bytes.subrange(
            at + 16 * (i + 1),
            at + 16 * (i + 1) + 12,
        ));
    }
}

/// Which names and files fit the format.
pub proof fn limits_of_the_format(name: Seq<char>, files: Seq<StoredFile>, models: Seq<FileModel>)
    ensures
        valid_name(name) <==> encode_utf8(name).len() <= 12 && !encode_utf8(name).contains(0u8),
        storable(files) <==> files.len() < 0x1_0000_0000 && forall|i: int|
            0 <= i < files.len() ==> (#[trigger] files[i]).data.len() < 0x1_0000_0000
                && files[i].field.len() == 12,
        nameable(models) <==> models.len() < 0x1_0000_0000 && forall|i: int|
            0 <= i < models.len() ==> (#[trigger] models[i]).data.len() < 0x1_0000_0000
                && encode_utf8(models[i].name).len() <= 12 && !encode_utf8(
                models[i].name,
            ).contains(0u8),
{
    if nameable(models) {
        assert forall|i: int| 0 <= i < models.len() implies (
        #[trigger] models[i]).data.len() < 0x1_0000_0000 && encode_utf8(models[i].name).len() <= 12
            && !encode_utf8(models[i].name).contains(0u8) by {
            assert(valid_name(models[i].name));
        }
    }
}

/// The data of files, one after the other, is the sequence of their data
/// flattened.
pub proof fn contents_are_flattened(files: Seq<StoredFile>)
    ensures
        contents(files) == files.map_values(|file: StoredFile| file.data).flatten(),
{
    lemma_flattened(files);
    files.map_values(
        |file: StoredFile| file.data,
    ).lemma_flatten_and_flatten_alt_are_equivalent();
}

/// A field is padded exactly if nothing but NULs follows its first NUL.
pub proof fn a_padded_field_ends_in_nuls(field: Seq<u8>)
    requires
        field.len() == 12,
    ensures
        is_padded(field) <==> forall|i: int, j: int|
            0 <= i < j < 12 && #[trigger] field[i] == 0 ==> #[trigger] field[j] == 0,
{
    let kept = before_nul(field);
    a_name_ends_at_the_first_nul(field);
    assert forall|i: int| 0 <= i < kept.len() implies field[i] != 0 by {
        assert(kept[i] == field[i]);
    }
    if is_padded(field) {
        assert forall|i: int, j: int| 0 <= i < j < 12 && #[trigger] field[i] == 0 implies
            #[trigger] field[j] == 0 by {
            assert(padded_field(kept)[j] == 0);
        }
    }
    if forall|i: int, j: int|
        0 <= i < j < 12 && #[trigger] field[i] == 0 ==> #[trigger] field[j] == 0 {
        assert forall|j: int| 0 <= j < 12 implies #[trigger] field[j] == padded_field(kept)[j] by {
            if j < kept.len() {
                assert(kept[j] == field[j]);
            } else if j > kept.len() {
                assert(field[kept.len() as int] == 0);
            }
        }
        assert(field =~= padded_field(kept));
    }
}

} // verus!
