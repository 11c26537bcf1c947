//! Opening and reading archives.

use crate::error::Error;
use crate::file::File;
#[allow(unused_imports)]
use crate::io::{
    Device, Faults, IoErrorKind, Probe, Read, Seek, SeekFrom, Stream, Write,
};
#[allow(unused_imports)]
use crate::layout::{
    self, EntryModel, FileModel, Opened, StoredFile, ENTRY_LEN, HEADER_LEN,
};
#[allow(unused_imports)]
use crate::select::{self, find_exact, Named};
use crate::text::decode_lossy;
use vstd::prelude::*;
use vstd::slice::slice_subrange;

verus! {

broadcast use File::reader_resolves;

/// The signature that every archive starts with.
pub(crate) fn signature_bytes() -> (bytes: [u8; 12])
    ensures
        bytes@ == layout::signature(),
{
    let bytes: [u8; 12] = [
        0x4b,
        0x65,
        0x6e,
        0x53,
        0x69,
        0x6c,
        0x76,
        0x65,
        0x72,
        0x6d,
        0x61,
        0x6e,
    ];
    assert(bytes@ =~= layout::signature());
    bytes
}

/// The number in the four bytes at `at`.
fn number_from(bytes: &[u8], at: usize) -> (value: u32)
    requires
        at + 4 <= bytes@.len(),
    ensures
        value == layout::number_at(bytes@, at as int),
{
    bytes[at] as u32 + 0x100 * bytes[at + 1] as u32 + 0x1_0000 * bytes[at + 2] as u32
        + 0x100_0000 * bytes[at + 3] as u32
}

/// Where the name in a name field ends: at the first NUL.
pub(crate) fn name_end(raw: &[u8]) -> (end: usize)
    ensures
        end <= raw@.len(),
        raw@.take(end as int) == layout::before_nul(raw@),
        !raw@.take(end as int).contains(0u8),
{
    let mut end: usize = 0;
    proof {
        raw@.index_of_first_ensures(0u8);
    }
    while end < raw.len() && raw[end] != 0
        invariant
            end <= raw@.len(),
            forall|k: int| 0 <= k < end ==> raw@[k] != 0,
        decreases raw@.len() - end,
    {
        end = end + 1;
    }
    assert(raw@.take(end as int) =~= layout::before_nul(raw@));
    end
}

/// The name in a name field: the text before the first NUL.
pub fn parse_name(raw: &[u8]) -> (name: String)
    ensures
        name@ == layout::stored_name(raw@),
        name@.len() <= raw@.len(),
        !name@.contains('\0'),
{
    let end: usize = name_end(raw);
    assert(raw@.subrange(0, end as int) =~= raw@.take(end as int));
    decode_lossy(slice_subrange(raw, 0, end))
}

/// A file stored inside an [`Archive`]: its 8.3-style name, its size, and the
/// offset of its data within the archive file.
#[derive(Debug, Clone, PartialEq, Eq)]
pub struct Entry {
    name: String,
    size: u64,
    offset: u64,
}

impl View for Entry {
    type V = EntryModel;

    closed spec fn view(&self) -> EntryModel {
        EntryModel { name: self.name@, size: self.size as nat, offset: self.offset as nat }
    }
}

impl Entry {
    /// The 8.3-style name of the file.
    pub fn name(&self) -> (name: &str)
        ensures
            name@ == self@.name,
    {
        self.name.as_str()
    }

    /// The size of the file's data in bytes.
    pub fn size(&self) -> (size: u64)
        ensures
            size == self@.size,
    {
        self.size
    }

    /// The offset of the file's data within the archive, in bytes.
    pub fn offset(&self) -> (offset: u64)
        ensures
            offset == self@.offset,
    {
        self.offset
    }
}

impl Named for Entry {
    open spec fn text(&self) -> Seq<char> {
        self@.name
    }

    fn as_text(&self) -> (name: &str) {
        self.name()
    }
}

/// The files that the entries of a table stand for.
pub open spec fn models(entries: Seq<Entry>) -> Seq<EntryModel> {
    Seq::new(entries.len(), |i: int| entries[i]@)
}

/// Why opening an archive from the stream `before` can fail with `error`.
///
/// A sound stream decides between the errors. A stream that is not sound can
/// also end early, which looks like a truncated file, and it can fail.
pub open spec fn refusal(before: Device, error: Error) -> bool {
    let found = layout::opened(before.bytes, before.pos);
    match error {
        Error::TooSmall(len) => before.sound ==> {
            &&& found is TooSmall
            &&& len == if before.pos > before.bytes.len() {
                before.pos as usize
            } else {
                before.bytes.len() as usize
            }
        },
        Error::BadSignature { found: bytes } => found == Opened::BadSignature(bytes@),
        Error::TableTruncated { index } => {
            &&& before.sound ==> found == Opened::TableTruncated(index as nat)
            &&& found !is TooSmall
            &&& found !is BadSignature
            &&& index < layout::file_count(before.bytes.skip(before.pos as int))
        },
        Error::DataTruncated { declared, actual } => {
            &&& found matches Opened::DataTruncated { declared: end, actual: len }
            &&& declared == if end > u64::MAX {
                u64::MAX as nat
            } else {
                end
            }
            &&& actual == len
        },
        Error::Io(_) => !before.sound,
        _ => false,
    }
}

/// Whether the stream can have ended between `before` and `after`: it has
/// reported no fault, or that it ended.
pub open spec fn can_have_ended(before: Device, after: Device) -> bool {
    before.fault(after) matches Some(reported) ==> reported.kind == IoErrorKind::UnexpectedEof
}

/// Whether `error` tells what happened to the stream between `before` and
/// `after`: that the file is too small or its table truncated is only reported
/// of a stream that has ended, and any other failure is reported as it is.
pub open spec fn is_reason(before: Device, error: Error, after: Device) -> bool {
    match error {
        Error::TooSmall(len) => len == after.pos as usize && can_have_ended(before, after),
        Error::TableTruncated { .. } => can_have_ended(before, after),
        Error::BadSignature { .. } => before.fault(after) is None,
        Error::DataTruncated { .. } => before.fault(after) is None,
        Error::Io(error) => before.reported(error, after),
        _ => false,
    }
}

/// What becomes of reading record `index` of the archive that starts at the
/// position of `before`, where this stream fails in a known way.
pub open spec fn record_probe(before: Device, faults: Faults, index: int) -> Probe {
    Probe::of(before.bytes, faults, (before.pos + layout::record_start(index)) as nat, 16)
}

/// Whether record `index` is the first that cannot be read.
pub open spec fn first_unreadable(before: Device, faults: Faults, index: int) -> bool {
    &&& record_probe(before, faults, index) !is Whole
    &&& forall|k: int| 0 <= k < index ==> #[trigger] record_probe(before, faults, k) is Whole
}

/// Whether an operation failed with one of the failures `faults`.
pub open spec fn is_forced(faults: Faults, error: Option<Error>) -> bool {
    error matches Some(Error::Io(error)) && faults.is_forced(error)
}

/// Where the stream ended in an attempt to fill a buffer, if it did: a failure
/// can also say that the stream has ended.
pub open spec fn end_of(faults: Faults, probe: Probe) -> Option<nat> {
    match probe {
        Probe::Whole => None,
        Probe::Ended(end) => Some(end),
        Probe::Failed(at) => if faults.kind == IoErrorKind::UnexpectedEof {
            Some(at)
        } else {
            None
        },
    }
}

/// What opening an archive from the stream `before` results in, where it is
/// known how this stream fails: with this error, or with none.
pub open spec fn opening(before: Device, faults: Faults, error: Option<Error>) -> bool {
    let image = before.bytes.skip(before.pos as int);
    let probe = Probe::of(before.bytes, faults, before.pos, 16);
    if probe !is Whole {
        match end_of(faults, probe) {
            None => is_forced(faults, error),
            Some(end) => if faults.position_seeks {
                is_forced(faults, error)
            } else {
                error matches Some(Error::TooSmall(len)) && len == end as usize
            },
        }
    } else {
        if image.take(12) != layout::signature() {
            error matches Some(Error::BadSignature { .. })
        } else {
            &&& forall|i: int|
                0 <= i < layout::file_count(image) && #[trigger] first_unreadable(
                    before,
                    faults,
                    i,
                ) ==> if end_of(faults, record_probe(before, faults, i)) is None {
                    is_forced(faults, error)
                } else {
                    error matches Some(Error::TableTruncated { index }) && index == i
                }
            &&& (forall|i: int|
                0 <= i < layout::file_count(image) ==> #[trigger] record_probe(
                    before,
                    faults,
                    i,
                ) is Whole) ==> if faults.end_seeks {
                is_forced(faults, error)
            } else if layout::opened(before.bytes, before.pos) is Archive {
                error is None
            } else {
                error matches Some(Error::DataTruncated { .. })
            }
        }
    }
}

/// The header and the file table of an archive, as they were read.
#[derive(Debug)]
pub struct Table {
    entries: Vec<Entry>,
    fields: Vec<[u8; 12]>,
}

impl Table {
    /// The files of the table.
    pub closed spec fn files(&self) -> Seq<EntryModel> {
        models(self.entries@)
    }

    /// The name fields of the files.
    pub closed spec fn fields(&self) -> Seq<Seq<u8>> {
        Seq::new(self.fields@.len(), |i: int| self.fields@[i]@)
    }
}

/// Whether every name can have come from a name field: it has no more than
/// twelve characters, and no NUL.
pub open spec fn names_are_short(files: Seq<EntryModel>) -> bool {
    forall|i: int|
        0 <= i < files.len() ==> (#[trigger] files[i]).name.len() <= 12 && !files[i].name.contains(
            '\0',
        )
}

/// What reading the header and the file table from the stream `before`
/// results in, where it leaves the stream as `after`.
///
/// An archive is accepted only if it is one, and its table is then given in
/// full.
pub open spec fn table_read(before: Device, result: Result<Table, Error>, after: Device) -> bool {
    let image = before.bytes.skip(before.pos as int);
    &&& match result {
        Ok(table) => {
            &&& layout::opened(before.bytes, before.pos) == Opened::Archive(table.files())
            &&& names_are_short(table.files())
            &&& table.fields() == Seq::new(
                table.files().len(),
                |i: int| layout::name_field_of(image, i),
            )
            &&& before.fault(after) is None
            &&& after.seeks == before.seeks.push(SeekFrom::End(0))
            &&& after.reach == Device::asked(
                before.reach,
                before.pos,
                16 * (table.files().len() + 1),
            )
        },
        Err(error) => refusal(before, error) && is_reason(before, error, after),
    }
    &&& before.exact matches Some(faults) ==> opening(
        before,
        faults,
        match result {
            Ok(_) => None,
            Err(error) => Some(error),
        },
    )
}

/// Read the header and the file table from the reader's position on, and
/// check that the stream is long enough for the declared data.
pub fn read_table<R: Read + Seek>(reader: &mut R) -> (result: Result<Table, Error>)
    requires
        (*old(reader)).wf(),
    ensures
        (*final(reader)).wf(),
        (*old(reader)).device().continues_as((*final(reader)).device()),
        (*final(reader)).device().bytes == (*old(reader)).device().bytes,
        (*final(reader)).device().flushed == (*old(reader)).device().flushed,
        table_read((*old(reader)).device(), result, (*final(reader)).device()),
{
    let ghost before = reader.device();
    let mut header: Vec<u8> = vec![0; HEADER_LEN];
    match reader.read_exact(header.as_mut_slice()) {
        Ok(()) => {},
        Err(error) => {
            if error.kind != IoErrorKind::UnexpectedEof {
                return Err(Error::Io(error));
            }
            proof {
                reader.lemma_fits();
            }
            return match reader.stream_position() {
                Ok(pos) => Err(Error::TooSmall(pos as usize)),
                Err(error) => Err(Error::Io(error)),
            };
        },
    }
    let ghost image = before.bytes.skip(before.pos as int);
    assert(header@.len() == 16);
    assert(before.pos + 16 <= before.bytes.len());
    assert(header@ =~= image.take(16));
    assert(header@.take(12) =~= image.take(12));

    let found: [u8; 12] = [
        header[0],
        header[1],
        header[2],
        header[3],
        header[4],
        header[5],
        header[6],
        header[7],
        header[8],
        header[9],
        header[10],
        header[11],
    ];
    assert(found@ =~= image.take(12));
    let expected = signature_bytes();
    let mut i: usize = 0;
    while i < 12
        invariant
            i <= 12,
            found@.len() == 12,
            expected@ == layout::signature(),
            found@ == image.take(12),
            image == before.bytes.skip(before.pos as int),
            image.len() >= 16,
            before.pos <= before.bytes.len(),
            before == (*old(reader)).device(),
            before.continues_as(reader.device()),
            before.fault(reader.device()) is None,
            reader.wf(),
            reader.device().bytes == before.bytes,
            reader.device().flushed == before.flushed,
            before.exact matches Some(faults) ==> Probe::of(
                before.bytes,
                faults,
                before.pos,
                16,
            ) is Whole,
            forall|k: int| 0 <= k < i ==> found@[k] == expected@[k],
        decreases 12 - i,
    {
        if found[i] != expected[i] {
            assert(found@[i as int] != layout::signature()[i as int]);
            return Err(Error::BadSignature { found });
        }
        i = i + 1;
    }
    assert(image.take(12) =~= layout::signature());

    let count: u32 = number_from(header.as_slice(), 12);
    assert(count == layout::file_count(image));

    // File data starts right after the last table entry, so a file's offset
    // is the data start plus the sizes of all files before it.
    let mut next: u128 = 16 * (count as u128 + 1);
    let mut entries: Vec<Entry> = Vec::new();
    let mut fields: Vec<[u8; 12]> = Vec::new();
    let mut index: u32 = 0;
    while index < count
        invariant
            reader.wf(),
            before == (*old(reader)).device(),
            before.continues_as(reader.device()),
            before.fault(reader.device()) is None,
            reader.device().bytes == before.bytes,
            reader.device().flushed == before.flushed,
            reader.device().seeks == before.seeks,
            reader.device().reach == Device::asked(
                before.reach,
                before.pos,
                (16 * (index + 1)) as nat,
            ),
            before.exact matches Some(faults) ==> {
                &&& Probe::of(before.bytes, faults, before.pos, 16) is Whole
                &&& forall|k: int|
                    0 <= k < index ==> #[trigger] record_probe(before, faults, k) is Whole
            },
            before.pos <= before.bytes.len(),
            image == before.bytes.skip(before.pos as int),
            image.len() >= 16,
            image.take(12) == layout::signature(),
            count == layout::file_count(image),
            index <= count,
            reader.device().pos == before.pos + layout::record_start(index as int),
            layout::record_start(index as int) <= image.len(),
            next == layout::data_offset(image, index as nat),
            next <= 16 * 0x1_0000_0000 + index * 0x1_0000_0000,
            entries@.len() == index,
            fields@.len() == index,
            names_are_short(models(entries@)),
            forall|k: int|
                0 <= k < index ==> (#[trigger] fields@[k])@ == layout::name_field_of(image, k),
            forall|k: int|
                0 <= k < index ==> {
                    let model = layout::entry(image, k);
                    &&& (#[trigger] entries@[k])@.name == model.name
                    &&& entries@[k]@.size == model.size
                    &&& model.offset <= u64::MAX ==> entries@[k]@.offset == model.offset
                },
        decreases count - index,
    {
        let ghost current = reader.device();
        let mut record: Vec<u8> = vec![0; ENTRY_LEN];
        match reader.read_exact(record.as_mut_slice()) {
            Ok(()) => {},
            Err(error) => {
                if error.kind != IoErrorKind::UnexpectedEof {
                    proof {
                        if let Some(faults) = before.exact {
                            assert(end_of(faults, record_probe(before, faults, index as int))
                                is None);
                            assert forall|i: int|
                                0 <= i < count && #[trigger] first_unreadable(
                                    before,
                                    faults,
                                    i,
                                ) implies i == index by {
                                assert(record_probe(before, faults, i) !is Whole);
                            }
                        }
                    }
                    return Err(Error::Io(error));
                }
                proof {
                    if let Some(faults) = before.exact {
                        assert(first_unreadable(before, faults, index as int));
                        assert forall|i: int|
                            0 <= i < count && #[trigger] first_unreadable(
                                before,
                                faults,
                                i,
                            ) implies i == index by {
                            assert(record_probe(before, faults, i) !is Whole);
                            assert(record_probe(before, faults, index as int) !is Whole);
                        }
                    }
                }
                return Err(Error::TableTruncated { index: index as usize });
            },
        }
        proof {
            let start = layout::record_start(index as int);
            assert(record@.len() == 16);
            assert(record@ =~= image.subrange(start, start + 16));
            assert(record@.subrange(0, 12) =~= image.subrange(start, start + 12));
        }
        let size: u32 = number_from(record.as_slice(), 12);
        let name = parse_name(slice_subrange(record.as_slice(), 0, 12));
        let field: [u8; 12] = [
            record[0],
            record[1],
            record[2],
            record[3],
            record[4],
            record[5],
            record[6],
            record[7],
            record[8],
            record[9],
            record[10],
            record[11],
        ];
        proof {
            assert(field@ =~= layout::name_field_of(image, index as int));
            assert(name@ == layout::entry(image, index as int).name);
            assert(name@.len() <= 12);
        }
        fields.push(field);
        let ghost so_far = entries@;
        entries.push(Entry { name, size: size as u64, offset: next as u64 });
        assert forall|k: int| 0 <= k < models(entries@).len() implies (#[trigger] models(
            entries@,
        )[k]).name.len() <= 12 && !models(entries@)[k].name.contains('\0') by {
            if k < index {
                assert(entries@[k] == so_far[k]);
                assert(models(entries@)[k] == models(so_far)[k]);
            }
        }
        next = next + size as u128;
        index = index + 1;
    }

    // Trailing data beyond the declared files is ignored, but an archive
    // that ends early is corrupt.
    proof {
        reader.lemma_fits();
    }
    let end: u64 = match reader.seek(SeekFrom::End(0)) {
        Ok(end) => end,
        Err(error) => {
            return Err(Error::Io(error));
        },
    };
    if (end as u128) < next {
        let declared: u64 = if next > u64::MAX as u128 {
            u64::MAX
        } else {
            next as u64
        };
        return Err(Error::DataTruncated { declared, actual: end });
    }
    proof {
        assert forall|k: int| 0 <= k < count implies (#[trigger] layout::entry(image, k)).offset
            <= layout::declared_end(image) by {
            layout::lemma_total_size_grows(image, k as nat, count as nat);
        }
        assert(models(entries@) =~= layout::table(image));
        assert(Seq::new(fields@.len(), |i: int| fields@[i]@) =~= Seq::new(
            entries@.len(),
            |i: int| layout::name_field_of(image, i),
        ));
    }
    Ok(Table { entries, fields })
}

/// The names of a list of files.
pub open spec fn names(files: Seq<EntryModel>) -> Seq<Seq<char>> {
    Seq::new(files.len(), |i: int| files[i].name)
}

/// A GRP archive: a 16-byte header, a file table, and the files' data.
///
/// Opening an archive validates the signature and the file table, and checks
/// that the archive is long enough to contain every declared file. Trailing
/// bytes beyond the declared data are ignored.
///
/// File data is served lazily through [`File`] proxies: nothing is copied
/// into memory until it is read.
#[derive(Debug)]
pub struct Archive<R: Read + Seek> {
    reader: R,
    entries: Vec<Entry>,
    fields: Vec<[u8; 12]>,
}

impl<R: Read + Seek> Archive<R> {
    /// The reader that the archive is read from.
    pub closed spec fn reader(&self) -> R {
        self.reader
    }

    /// The file table, in archive order.
    pub closed spec fn files(&self) -> Seq<EntryModel> {
        models(self.entries@)
    }

    /// The name fields of the files.
    pub closed spec fn fields(&self) -> Seq<Seq<u8>> {
        Seq::new(self.fields@.len(), |i: int| self.fields@[i]@)
    }

    /// Whether the reader is consistent and holds the data of every file, and
    /// the names are as the format has them.
    pub open spec fn wf(&self) -> bool {
        &&& self.reader().wf()
        &&& names_are_short(self.files())
        &&& self.fields().len() == self.files().len()
        &&& forall|i: int|
            0 <= i < self.fields().len() ==> (#[trigger] self.fields()[i]).len() == 12
        &&& forall|i: int|
            0 <= i < self.files().len() ==> (#[trigger] self.files()[i]).offset
                + self.files()[i].size <= self.reader().device().bytes.len()
    }

    /// The data of file `index`.
    pub open spec fn data(&self, index: int) -> Seq<u8> {
        self.reader().device().bytes.subrange(
            self.files()[index].offset as int,
            (self.files()[index].offset + self.files()[index].size) as int,
        )
    }

    /// The files as they are stored.
    pub open spec fn contents(&self) -> Seq<StoredFile> {
        Seq::new(
            self.files().len(),
            |i: int| StoredFile { field: self.fields()[i], data: self.data(i) },
        )
    }

    /// Open an archive from any reader that can seek.
    ///
    /// The header is read from the reader's position on. No file data is
    /// read, and the only seek is one to the end.
    pub fn new(reader: R) -> (result: Result<Self, Error>)
        requires
            reader.wf(),
        ensures
            ({
                let before = reader.device();
                &&& match result {
                    Ok(archive) => {
                        let after = archive.reader().device();
                        &&& archive.wf()
                        &&& layout::opened(before.bytes, before.pos) == Opened::Archive(
                            archive.files(),
                        )
                        &&& archive.contents() == layout::contained(before.bytes, before.pos)
                        &&& after.bytes == before.bytes
                        &&& after.flushed == before.flushed
                        &&& before.continues_as(after)
                        &&& before.fault(after) is None
                        &&& after.seeks == before.seeks.push(SeekFrom::End(0))
                        &&& after.reach == Device::asked(
                            before.reach,
                            before.pos,
                            16 * (archive.files().len() + 1),
                        )
                    },
                    Err(error) => refusal(before, error) && exists|after: Device|
                        before.continues_as(after) && #[trigger] table_read(
                            before,
                            Err(error),
                            after,
                        ),
                }
                &&& before.exact matches Some(faults) ==> opening(
                    before,
                    faults,
                    match result {
                        Ok(_) => None,
                        Err(error) => Some(error),
                    },
                )
            }),
    {
        let mut reader = reader;
        let ghost before = reader.device();
        match read_table(&mut reader) {
            Ok(table) => {
                let archive = Archive { reader, entries: table.entries, fields: table.fields };
                proof {
                    let image = before.bytes.skip(before.pos as int);
                    layout::lemma_files_fit(image);
                    assert(archive.fields() == table.fields());
                    assert(archive.contents() =~= layout::contained(before.bytes, before.pos));
                }
                Ok(archive)
            },
            Err(error) => {
                assert(table_read(before, Err(error), reader.device()));
                Err(error)
            },
        }
    }

    /// The number of files in the archive.
    pub fn len(&self) -> (len: usize)
        ensures
            len == self.files().len(),
    {
        self.entries.len()
    }

    /// Whether the archive contains no files.
    pub fn is_empty(&self) -> (empty: bool)
        ensures
            empty == (self.files().len() == 0),
    {
        self.entries.len() == 0
    }

    /// The file table, in archive order.
    pub fn entries(&self) -> (entries: &[Entry])
        ensures
            models(entries@) == self.files(),
    {
        self.entries.as_slice()
    }

    /// The index of the first entry with the given name.
    fn find(&self, name: &str) -> (found: Option<usize>)
        ensures
            match found {
                Some(index) => {
                    &&& index < self.entries@.len()
                    &&& names(self.files()).index_of_first(name@) == Some(index as int)
                },
                None => names(self.files()).index_of_first(name@) is None,
            },
    {
        assert(select::texts(self.entries@) =~= names(self.files()));
        find_exact(self.entries.as_slice(), name)
    }

    /// Look up an entry's metadata by name, or `None` if absent.
    ///
    /// If the same name appears more than once, the first entry is returned.
    pub fn get_entry(&self, name: &str) -> (entry: Option<&Entry>)
        ensures
            match entry {
                Some(entry) => names(self.files()).index_of_first(name@) matches Some(first)
                    && entry@ == self.files()[first],
                None => !names(self.files()).contains(name@),
            },
            match entry {
                Some(entry) => entry@.name == name@ && exists|first: int|
                    {
                        &&& 0 <= first < self.files().len()
                        &&& #[trigger] self.files()[first] == entry@
                        &&& forall|k: int|
                            0 <= k < first ==> (#[trigger] self.files()[k]).name != name@
                    },
                None => forall|k: int|
                    0 <= k < self.files().len() ==> (#[trigger] self.files()[k]).name != name@,
            },
    {
        proof {
            names(self.files()).index_of_first_ensures(name@);
        }
        match self.find(name) {
            Some(index) => {
                proof {
                    assert(names(self.files())[index as int] == name@);
                    assert(self.files()[index as int] == self.entries@[index as int]@);
                    assert forall|k: int| 0 <= k < index implies (
                    #[trigger] self.files()[k]).name != name@ by {
                        assert(names(self.files())[k] != name@);
                    }
                }
                Some(&self.entries[index])
            },
            None => {
                assert forall|k: int| 0 <= k < self.files().len() implies (
                #[trigger] self.files()[k]).name != name@ by {
                    assert(names(self.files())[k] == self.files()[k].name);
                }
                None
            },
        }
    }

    /// What opening file `index` of the archive `before` gives.
    pub open spec fn opens_file(before: &Self, index: int, file: &File<'_, R>) -> bool {
        &&& file.wf()
        &&& *file.reader() == before.reader()
        &&& file.file_name() == before.files()[index].name
        &&& file.start() == before.files()[index].offset
        &&& file.declared_size() == before.files()[index].size
        &&& !file.in_place()
        &&& file.device() == File::<R>::untouched(
            before.reader().device(),
            before.files()[index].offset as u64,
            before.files()[index].size as u64,
        )
    }

    /// Open the file at `index` for lazy reading.
    ///
    /// The returned [`File`] borrows the archive, so it cannot be used while
    /// the archive is otherwise borrowed.
    ///
    /// Reading through the file keeps the archive usable: once the file is no
    /// longer used, the archive's reader is as the file left it (see
    /// [`File::reader_resolves`], which a proof brings into scope with
    /// `broadcast use`).
    pub fn entry(&mut self, index: usize) -> (result: Result<File<'_, R>, Error>)
        requires
            old(self).wf(),
        ensures
            final(self).files() == old(self).files(),
            final(self).fields() == old(self).fields(),
            match result {
                Ok(file) => {
                    &&& index < old(self).files().len()
                    &&& Self::opens_file(old(self), index as int, &file)
                    &&& final(self).reader() == *final(file.reader())
                },
                Err(error) => {
                    &&& index >= old(self).files().len()
                    &&& error == Error::IndexOutOfBounds {
                        index,
                        len: old(self).files().len() as usize,
                    }
                    &&& final(self).reader() == old(self).reader()
                },
            },
    {
        let len: usize = self.entries.len();
        if index >= len {
            return Err(Error::IndexOutOfBounds { index, len });
        }
        proof {
            self.reader.lemma_fits();
            assert(self.files()[index as int] == self.entries@[index as int]@);
        }
        let name = self.entries[index].name.clone();
        let start: u64 = self.entries[index].offset;
        let size: u64 = self.entries[index].size;
        Ok(File::new(&mut self.reader, name, start, size))
    }

    /// Open the file with the given name for lazy reading.
    pub fn entry_by_name(&mut self, name: &str) -> (result: Result<File<'_, R>, Error>)
        requires
            old(self).wf(),
        ensures
            final(self).files() == old(self).files(),
            final(self).fields() == old(self).fields(),
            match result {
                Ok(file) => {
                    &&& names(old(self).files()).index_of_first(name@) matches Some(first)
                    &&& Self::opens_file(old(self), first, &file)
                    &&& file.file_name() == name@
                    &&& final(self).reader() == *final(file.reader())
                },
                Err(error) => {
                    &&& forall|k: int|
                        0 <= k < old(self).files().len() ==> (
                        #[trigger] old(self).files()[k]).name != name@
                    &&& !names(old(self).files()).contains(name@)
                    &&& error matches Error::EntryNotFound { name: missing }
                    &&& missing@ == name@
                    &&& final(self).reader() == old(self).reader()
                },
            },
    {
        proof {
            names(self.files()).index_of_first_ensures(name@);
        }
        match self.find(name) {
            Some(index) => self.entry(index),
            None => {
                assert forall|k: int| 0 <= k < self.files().len() implies (
                #[trigger] self.files()[k]).name != name@ by {
                    assert(names(self.files())[k] == self.files()[k].name);
                }
                Err(Error::EntryNotFound { name: name.to_owned() })
            },
        }
    }

    /// Copy the file at `index` into `writer`.
    ///
    /// Unlike [`entry`](Self::entry), this copies the whole file and does not
    /// borrow it, which is what bulk extraction needs. Errors from opening
    /// the entry or copying its data propagate; the caller can compare the
    /// number of bytes written against [`Entry::size`] to detect a truncated
    /// archive.
    pub fn extract<W: Write>(&mut self, index: usize, writer: &mut W) -> (result: Result<
        u64,
        Error,
    >)
        requires
            old(self).wf(),
            (*old(writer)).wf(),
        ensures
            final(self).wf(),
            (*final(writer)).wf(),
            final(self).files() == old(self).files(),
            final(self).fields() == old(self).fields(),
            Self::extracts(
                old(self),
                index,
                (*old(writer)).device(),
                result,
                final(self).reader().device(),
                (*final(writer)).device(),
            ),
    {
        match self.entry(index) {
            Ok(mut file) => {
                let result = file.copy_to(writer);
                proof {
                    let data = old(self).data(index as int);
                    let entry = old(self).files()[index as int];
                    if let Some(faults) = old(self).reader().device().exact {
                        if !faults.start_seeks && faults.clear(
                            entry.offset,
                            entry.offset + entry.size,
                        ) {
                            faults.lemma_within(entry.offset, entry.size);
                        }
                    }
                    let put = writer.device().pos - (*old(writer)).device().pos;
                    assert(Device::window(data, 0, put) =~= data.take(put));
                }
                match result {
                    Ok(count) => Ok(count),
                    Err(error) => Err(Error::Io(error)),
                }
            },
            Err(error) => Err(error),
        }
    }

    /// What extracting file `index` of the archive `before` into `sink` does,
    /// where it leaves the reader and the sink as `reader_next` and
    /// `sink_next`.
    ///
    /// What is written is always the beginning of the file's data, and with a
    /// sound reader a success means all of it.
    pub open spec fn extracts(
        before: &Self,
        index: usize,
        sink: Device,
        result: Result<u64, Error>,
        reader_next: Device,
        sink_next: Device,
    ) -> bool {
        let reader = before.reader().device();
        if index >= before.files().len() {
            &&& result == Err::<u64, Error>(
                Error::IndexOutOfBounds { index, len: before.files().len() as usize },
            )
            &&& reader_next == reader
            &&& sink_next == sink
        } else {
            let entry = before.files()[index as int];
            let data = before.data(index as int);
            let put = sink_next.pos - sink.pos;
            &&& reader.continues_as(reader_next)
            &&& reader_next.bytes == reader.bytes
            &&& reader_next.flushed == reader.flushed
            &&& reader_next.reach <= Device::asked(reader.reach, entry.offset, entry.size)
            &&& if entry.size == 0 {
                &&& reader_next == reader
                &&& result == Ok::<u64, Error>(0)
            } else {
                &&& reader_next.seeks.len() > reader.seeks.len()
                &&& forall|k: int|
                    reader.seeks.len() <= k < reader_next.seeks.len()
                        ==> #[trigger] reader_next.seeks[k] == SeekFrom::Start(entry.offset as u64)
            }
            &&& sink.continues_as(sink_next)
            &&& sink_next.seeks == sink.seeks
            &&& 0 <= put <= data.len()
            &&& sink_next.bytes == Device::overwrite(
                sink.bytes,
                sink.pos as int,
                data.take(put),
            )
            &&& match result {
                Ok(count) => {
                    &&& count == put
                    &&& reader.fault(reader_next) is None
                    &&& sink.fault(sink_next) is None
                    &&& reader.sound ==> count == data.len()
                },
                Err(Error::Io(error)) => match reader.fault(reader_next) {
                    Some(reported) => !reader.sound && error == reported,
                    None => {
                        &&& !(sink.sound && sink.has_room(data.len()))
                        &&& match sink.fault(sink_next) {
                            Some(reported) => error == reported,
                            None => {
                                &&& error.kind == IoErrorKind::WriteZero
                                &&& error.message@ == "failed to write whole buffer"@
                            },
                        }
                    },
                },
                Err(_) => false,
            }
            &&& reader.exact matches Some(faults) ==> (reader.fault(reader_next) matches Some(
                reported,
            ) ==> faults.is_forced(reported))
            &&& reader.exact matches Some(faults) ==> entry.size > 0 ==> {
                &&& faults.start_seeks || faults.reads.contains(entry.offset) ==> {
                    &&& result matches Err(Error::Io(error))
                    &&& faults.is_forced(error)
                    &&& put == 0
                }
                &&& !faults.start_seeks && !faults.reads.contains(entry.offset)
                    && faults.zero_reads.contains(entry.offset) ==> result == Ok::<u64, Error>(0)
                &&& !faults.start_seeks && faults.clear(
                    entry.offset,
                    entry.offset + entry.size,
                ) ==> {
                    &&& reader.fault(reader_next) is None
                    &&& result matches Ok(count) ==> count == data.len()
                    &&& sink.exact matches Some(faults) ==> {
                        &&& faults.writes.contains(sink.pos) ==> {
                            &&& result matches Err(Error::Io(error))
                            &&& faults.is_forced(error)
                            &&& put == 0
                        }
                        &&& sink.has_room(data.len()) && faults.takes(
                            sink.pos,
                            sink.pos + data.len(),
                        ) ==> result is Ok
                    }
                }
            }
        }
    }

    /// Extraction does not depend on what was done before: whatever has been
    /// opened, read and extracted in between, a sound reader gives the same
    /// bytes each time.
    pub proof fn extraction_is_repeatable(
        first: &Self,
        second: &Self,
        index: usize,
        sink: Device,
        first_count: u64,
        first_reader: Device,
        first_sink: Device,
        second_count: u64,
        second_reader: Device,
        second_sink: Device,
    )
        requires
            first.wf(),
            second.files() == first.files(),
            second.reader().device().bytes == first.reader().device().bytes,
            first.reader().device().sound,
            second.reader().device().sound,
            Self::extracts(first, index, sink, Ok(first_count), first_reader, first_sink),
            Self::extracts(second, index, sink, Ok(second_count), second_reader, second_sink),
        ensures
            first_count == second_count,
            first_sink.bytes == second_sink.bytes,
            first_sink.pos == second_sink.pos,
    {
    }

    /// The reader that the archive was read from, and the name fields.
    pub(crate) fn into_parts(self) -> (parts: (R, Vec<[u8; 12]>))
        ensures
            parts.0 == self.reader(),
            Seq::new(parts.1@.len(), |i: int| parts.1@[i]@) == self.fields(),
    {
        (self.reader, self.fields)
    }
}

impl<R: Read + Seek> Archive<R> {
    /// Extracting appends a beginning of the file's data, taken from where its
    /// entry says, to a sink that stands at its end, and says how much that is.
    /// From a sound reader a success means all of it, and to a sound sink it
    /// succeeds. A file that is not there is refused, and nothing is touched.
    pub proof fn extraction_appends_the_data_of_the_file(
        before: &Self,
        index: usize,
        sink: Device,
        result: Result<u64, Error>,
        reader_after: Device,
        sink_after: Device,
    )
        requires
            before.wf(),
            sink.pos == sink.bytes.len(),
            Self::extracts(before, index, sink, result, reader_after, sink_after),
        ensures
            index >= before.files().len() ==> {
                &&& result matches Err(Error::IndexOutOfBounds { index: asked, len })
                &&& asked == index
                &&& len == before.files().len() as usize
                &&& reader_after == before.reader().device()
                &&& sink_after == sink
            },
            index < before.files().len() ==> {
                let entry = before.files()[index as int];
                let data = before.reader().device().bytes.subrange(
                    entry.offset as int,
                    (entry.offset + entry.size) as int,
                );
                &&& reader_after.bytes == before.reader().device().bytes
                &&& sink.bytes.is_prefix_of(sink_after.bytes)
                &&& sink_after.bytes.skip(sink.bytes.len() as int).is_prefix_of(data)
                &&& result matches Ok(count) ==> count == sink_after.bytes.len() - sink.bytes.len()
                &&& result is Ok && before.reader().device().sound ==> {
                    &&& result == Ok::<u64, Error>(entry.size as u64)
                    &&& sink_after.bytes == sink.bytes + data
                }
                &&& before.reader().device().sound && sink.sound ==> result is Ok
                &&& result matches Err(error) ==> error is Io
                &&& reader_after.reach <= before.reader().device().reach || reader_after.reach
                    <= entry.offset + entry.size
            },
    {
        if index < before.files().len() {
            let entry = before.files()[index as int];
            let data = before.data(index as int);
            let put = sink_after.pos - sink.pos;
            crate::io::an_overwrite_changes_only_its_range(
                sink.bytes,
                sink.pos as int,
                data.take(put),
            );
            assert(sink_after.bytes =~= sink.bytes + data.take(put));
            assert(sink_after.bytes.take(sink.bytes.len() as int) =~= sink.bytes);
            assert(sink_after.bytes.skip(sink.bytes.len() as int) =~= data.take(put));
            assert(data.take(data.len() as int) =~= data);
            before.reader().lemma_fits();
        }
    }

    /// A file that was opened serves the bytes that its entry says, from their
    /// start, and goes by the entry's name and size.
    pub proof fn an_opened_file_serves_its_entry(before: &Self, index: int, file: &File<'_, R>)
        requires
            before.wf(),
            0 <= index < before.files().len(),
            Self::opens_file(before, index, file),
        ensures
            file.file_name() == before.files()[index].name,
            file.declared_size() == before.files()[index].size,
            file.start() == before.files()[index].offset,
            !file.in_place(),
            file.device().pos == 0,
            file.device().bytes == before.reader().device().bytes.subrange(
                before.files()[index].offset as int,
                (before.files()[index].offset + before.files()[index].size) as int,
            ),
            file.device().sound == before.reader().device().sound,
    {
        before.reader().lemma_fits();
    }
}

/// What is known of the files of an archive holds of each of them: its name,
/// and where it starts and how long it is.
pub proof fn lists_hold_what_their_items_do(
    entries: Seq<Entry>,
    files: Seq<EntryModel>,
    pairs: Seq<(String, Vec<u8>)>,
)
    ensures
        models(entries).len() == entries.len(),
        forall|i: int| 0 <= i < entries.len() ==> #[trigger] models(entries)[i] == entries[i]@,
        names(files).len() == files.len(),
        forall|i: int| 0 <= i < files.len() ==> #[trigger] names(files)[i] == files[i].name,
        file_models(pairs).len() == pairs.len(),
        forall|i: int|
            0 <= i < pairs.len() ==> {
                &&& (#[trigger] file_models(pairs)[i]).name == pairs[i].0@
                &&& file_models(pairs)[i].data == pairs[i].1@
            },
{
}

/// What is left of files that can have ended early is every name, and a
/// beginning of each file's data.
pub proof fn a_beginning_is_of_every_file(got: Seq<FileModel>, whole: Seq<FileModel>, index: int)
    requires
        beginnings(got, whole),
        0 <= index < whole.len(),
    ensures
        got.len() == whole.len(),
        got[index].name == whole[index].name,
        got[index].data.len() <= whole[index].data.len(),
        got[index].data == whole[index].data.take(got[index].data.len() as int),
{
}

/// What opening an archive comes to on a stream with known failures. Where no
/// read is hindered it succeeds exactly for an archive, unless the seek to the
/// end fails. A failed read of the header is reported as it is, unless it says
/// that the stream has ended.
pub proof fn known_failures_decide_an_opening(
    before: Device,
    faults: Faults,
    error: Option<Error>,
)
    requires
        opening(before, faults, error),
        before.pos <= before.bytes.len(),
    ensures
        faults.reads.contains(before.pos) && faults.kind != IoErrorKind::UnexpectedEof ==> (
        error matches Some(Error::Io(cause)) && cause.kind == faults.kind && cause.message@
            == faults.message),
        (forall|at: nat| !faults.reads.contains(at) && !faults.zero_reads.contains(at)) ==> {
            &&& !faults.end_seeks && !faults.position_seeks ==> (error is None <==> layout::opened(
                before.bytes,
                before.pos,
            ) is Archive)
            &&& faults.end_seeks && layout::opened(before.bytes, before.pos) is Archive ==> (
            error matches Some(Error::Io(cause)) && cause.kind == faults.kind && cause.message@
                == faults.message)
        },
{
    let image = before.bytes.skip(before.pos as int);
    if (forall|at: nat| !faults.reads.contains(at) && !faults.zero_reads.contains(at))
        && image.len() >= 16 {
        let count = layout::file_count(image) as int;
        assert forall|i: int| 0 <= i < count && layout::record_start(i) + 16
            <= image.len() implies #[trigger] record_probe(before, faults, i) is Whole by {}
        if image.len() < layout::record_start(count) {
            let i = image.len() as int / 16 - 1;
            assert(record_probe(before, faults, i) !is Whole);
            assert forall|k: int| 0 <= k < i implies #[trigger] record_probe(
                before,
                faults,
                k,
            ) is Whole by {}
            assert(first_unreadable(before, faults, i));
        } else {
            assert forall|i: int| 0 <= i < count implies #[trigger] record_probe(
                before,
                faults,
                i,
            ) is Whole by {}
        }
    }
}

/// What is told of a stream that was refused is what happened to it: an error
/// of the stream is the last one that it reported, and that the stream ended is
/// told only if it reported no other fault.
pub proof fn a_refusal_tells_what_happened(before: Device, error: Error, after: Device)
    requires
        is_reason(before, error, after),
    ensures
        error matches Error::Io(cause) ==> after.failures.len() > before.failures.len()
            && after.failures.last() == cause,
        error matches Error::TooSmall(len) ==> len == after.pos as usize,
        error is TooSmall || error is TableTruncated ==> after.failures.len()
            <= before.failures.len() || after.failures.last().kind == IoErrorKind::Interrupted
            || after.failures.last().kind == IoErrorKind::UnexpectedEof,
        error is BadSignature || error is DataTruncated ==> after.failures.len()
            <= before.failures.len() || after.failures.last().kind == IoErrorKind::Interrupted,
{
}

/// Whether the data of a file is known to be read in full: it has none, or
/// neither the seek to it nor a read within it is hindered.
pub proof fn a_file_is_readable_where_nothing_hinders(
    file: EntryModel,
    reader: Device,
    faults: Faults,
    at: nat,
)
    requires
        reader.exact == Some(faults),
    ensures
        file.size == 0 ==> is_readable(file, reader),
        !faults.start_seeks && (forall|k: nat|
            file.offset <= k < file.offset + file.size ==> !faults.reads.contains(k)
                && !faults.zero_reads.contains(k)) ==> is_readable(file, reader),
        is_readable(file, reader) && file.offset <= at < file.offset + file.size ==> {
            &&& !faults.start_seeks
            &&& !faults.reads.contains(at)
            &&& !faults.zero_reads.contains(at)
        },
{
}

/// Why a sound stream is refused, in terms of its bytes: they are too few for
/// the header, start with something else than the signature, end within a
/// record of the table, or end before the declared data.
pub proof fn a_sound_stream_is_refused_for_its_bytes(before: Device, error: Error)
    requires
        before.sound,
        before.bytes.len() <= u64::MAX,
        refusal(before, error),
    ensures
        ({
            let bytes = before.bytes;
            let at = before.pos as int;
            let number = |k: int|
                bytes[k] + 0x100 * bytes[k + 1] + 0x1_0000 * bytes[k + 2] + 0x100_0000 * bytes[k
                    + 3];
            let signature = seq![
                0x4bu8,
                0x65,
                0x6e,
                0x53,
                0x69,
                0x6c,
                0x76,
                0x65,
                0x72,
                0x6d,
                0x61,
                0x6e,
            ];
            match error {
                Error::TooSmall(len) => {
                    &&& bytes.len() - at < 16
                    &&& len == if at > bytes.len() {
                        before.pos as usize
                    } else {
                        bytes.len() as usize
                    }
                },
                Error::BadSignature { found } => {
                    &&& bytes.len() - at >= 16
                    &&& found@ == bytes.subrange(at, at + 12)
                    &&& found@ != signature
                },
                Error::TableTruncated { index } => {
                    &&& bytes.len() - at >= 16
                    &&& bytes.subrange(at, at + 12) == signature
                    &&& index < number(at + 12)
                    &&& 16 * (index + 1) <= bytes.len() - at < 16 * (index + 2)
                },
                Error::DataTruncated { declared, actual } => {
                    let end = 16 * (number(at + 12) + 1) + Seq::new(
                        number(at + 12) as nat,
                        |i: int| number(at + 16 * (i + 1) + 12),
                    ).fold_left(0int, |sum: int, size: int| sum + size);
                    &&& bytes.len() - at >= 16 * (number(at + 12) + 1)
                    &&& bytes.subrange(at, at + 12) == signature
                    &&& bytes.len() < end
                    &&& actual == bytes.len()
                    &&& declared == if end > u64::MAX {
                        u64::MAX as int
                    } else {
                        end
                    }
                },
                _ => false,
            }
        }),
{
    let image = before.bytes.skip(before.pos as int);
    let at = before.pos as int;
    if before.pos <= before.bytes.len() && image.len() >= 16 {
        assert(image.take(12) =~= before.bytes.subrange(at, at + 12));
        if image.len() >= layout::record_start(layout::file_count(image) as int) {
            let count = layout::file_count(image);
            let bytes = before.bytes;
            let number = |k: int|
                bytes[k] + 0x100 * bytes[k + 1] + 0x1_0000 * bytes[k + 2] + 0x100_0000 * bytes[k
                    + 3];
            layout::sizes_add_up(bytes, before.pos, count);
            assert(Seq::new(count, |i: int| number(at + 16 * (i + 1) + 12)) =~= Seq::new(
                count,
                |i: int|
                    bytes[at + 16 * (i + 1) + 12] + 0x100 * bytes[at + 16 * (i + 1) + 13] + 0x1_0000
                        * bytes[at + 16 * (i + 1) + 14] + 0x100_0000 * bytes[at + 16 * (i + 1) + 15],
            ));
        }
    }
}

/// The files that pairs of a name and data stand for.
pub open spec fn file_models(files: Seq<(String, Vec<u8>)>) -> Seq<FileModel> {
    Seq::new(files.len(), |i: int| FileModel { name: files[i].0@, data: files[i].1@ })
}

/// An entry that could not be read, and why.
#[derive(Debug)]
pub struct UnreadableEntry {
    /// The name of the entry.
    pub name: String,
    /// What went wrong.
    pub error: Error,
}

/// Whether `got` is what is left of the files `whole` where reading a file
/// can have ended early: all the names, and the beginning of each file.
pub open spec fn beginnings(got: Seq<FileModel>, whole: Seq<FileModel>) -> bool {
    &&& got.len() == whole.len()
    &&& forall|i: int|
        0 <= i < got.len() ==> {
            &&& (#[trigger] got[i]).name == whole[i].name
            &&& got[i].data.is_prefix_of(whole[i].data)
        }
}

/// Whether it is known that the data of a file is read in full.
pub open spec fn is_readable(file: EntryModel, reader: Device) -> bool {
    reader.exact matches Some(faults) && (file.size == 0 || (!faults.start_seeks && faults.clear(
        file.offset,
        file.offset + file.size,
    )))
}

/// Whether it is known that the data of every file is read in full.
pub open spec fn all_readable(files: Seq<EntryModel>, reader: Device) -> bool {
    forall|i: int| 0 <= i < files.len() ==> is_readable(#[trigger] files[i], reader)
}

/// Whether reading stopped at the file `index`, which is named `name`: it has
/// data, the reader was last sent there, and it was not known to be readable.
pub open spec fn stopped_at(
    files: Seq<EntryModel>,
    index: int,
    before: Device,
    name: Seq<char>,
    after: Device,
) -> bool {
    let file = files[index];
    &&& 0 <= index < files.len()
    &&& name == file.name
    &&& file.size > 0
    &&& after.seeks.len() > before.seeks.len()
    &&& after.seeks.last() == SeekFrom::Start(file.offset as u64)
    &&& !is_readable(file, before)
}

/// Whether reading stopped at a file that is named `name`.
pub open spec fn stopped(
    files: Seq<EntryModel>,
    before: Device,
    name: Seq<char>,
    after: Device,
) -> bool {
    exists|index: int| #[trigger] stopped_at(files, index, before, name, after)
}

/// Read every entry of `archive` into memory as pairs of a name and data, in
/// table order.
///
/// From a sound reader this gives every file in full. Another reader can fail,
/// and a file of it can end early.
pub fn read_all_entries<R: Read + Seek>(archive: &mut Archive<R>) -> (result: Result<
    Vec<(String, Vec<u8>)>,
    UnreadableEntry,
>)
    requires
        old(archive).wf(),
    ensures
        final(archive).wf(),
        final(archive).files() == old(archive).files(),
        final(archive).fields() == old(archive).fields(),
        final(archive).reader().device().flushed == old(archive).reader().device().flushed,
        final(archive).reader().device().bytes == old(archive).reader().device().bytes,
        old(archive).reader().device().continues_as(final(archive).reader().device()),
        ({
            let before = old(archive).reader().device();
            let after = final(archive).reader().device();
            let whole = layout::stored_files(before.bytes, old(archive).files());
            match result {
                Ok(files) => {
                    &&& beginnings(file_models(files@), whole)
                    &&& before.sound || all_readable(old(archive).files(), before)
                        ==> file_models(files@) == whole
                    &&& before.fault(after) is None
                },
                Err(failure) => {
                    &&& !before.sound
                    &&& failure.error matches Error::Io(reported)
                    &&& before.fault(after) == Some(reported)
                    &&& before.exact matches Some(faults) ==> faults.is_forced(reported)
                    &&& stopped(old(archive).files(), before, failure.name@, after)
                },
            }
        }),
{
    let mut files: Vec<(String, Vec<u8>)> = Vec::new();
    let ghost before = archive.reader().device();
    let ghost whole = layout::stored_files(before.bytes, archive.files());
    let mut index: usize = 0;
    while index < archive.entries.len()
        invariant
            archive.wf(),
            archive.files() == old(archive).files(),
            archive.fields() == old(archive).fields(),
            archive.reader().device().flushed == before.flushed,
            before == old(archive).reader().device(),
            archive.reader().device().bytes == before.bytes,
            before.continues_as(archive.reader().device()),
            before.fault(archive.reader().device()) is None,
            whole == layout::stored_files(before.bytes, archive.files()),
            index == files@.len(),
            index <= archive.entries@.len(),
            forall|i: int|
                0 <= i < index ==> {
                    &&& (#[trigger] files@[i]).0@ == whole[i].name
                    &&& files@[i].1@.is_prefix_of(whole[i].data)
                    &&& before.sound || is_readable(archive.files()[i], before) ==> files@[i].1@
                        == whole[i].data
                },
        decreases archive.entries@.len() - index,
    {
        let name = archive.entries[index].name.clone();
        let mut data: Vec<u8> = Vec::new();
        proof {
            assert(archive.files()[index as int] == archive.entries@[index as int]@);
            assert(names(archive.files())[index as int] == name@);
            assert(archive.data(index as int) == whole[index as int].data);
        }
        match archive.extract(index, &mut data) {
            Ok(_) => {
                assert(data@ =~= whole[index as int].data.take(data@.len() as int));
                files.push((name, data));
            },
            Err(error) => {
                assert(stopped_at(
                    old(archive).files(),
                    index as int,
                    before,
                    name@,
                    archive.reader().device(),
                ));
                assert(stopped(
                    old(archive).files(),
                    before,
                    name@,
                    archive.reader().device(),
                ));
                return Err(UnreadableEntry { name, error });
            },
        }
        index = index + 1;
    }
    proof {
        let got = file_models(files@);
        assert(got.len() == whole.len());
        if before.sound || all_readable(archive.files(), before) {
            assert forall|i: int| 0 <= i < got.len() implies got[i] == whole[i] by {
                assert(is_readable(archive.files()[i], before) || before.sound);
            }
            assert(got =~= whole);
        }
    }
    Ok(files)
}

/// An entry is found by its name.
pub proof fn an_entry_is_found_by_its_name(entry: Entry)
    ensures
        Named::text(&entry) == entry@.name,
{
}

/// Reading every file stops only at one that has data, with that file's name,
/// and right after its data was sought.
pub proof fn reading_stops_at_a_file_of_the_archive(
    files: Seq<EntryModel>,
    before: Device,
    name: Seq<char>,
    after: Device,
)
    requires
        stopped(files, before, name, after),
    ensures
        exists|index: int|
            {
                &&& 0 <= index < files.len()
                &&& (#[trigger] files[index]).name == name
                &&& files[index].size > 0
                &&& after.seeks.len() > before.seeks.len()
                &&& after.seeks.last() == SeekFrom::Start(files[index].offset as u64)
            },
{
    let index = choose|index: int| #[trigger] stopped_at(files, index, before, name, after);
    assert(files[index].name == name);
}

impl<R: Read + Seek> Archive<R> {
    /// Extracting a file without data touches nothing. Extracting another one
    /// sends the reader nowhere but to its data. Where it is known how the
    /// reader and the sink fail, it fails with the error of what hinders it, and
    /// succeeds where nothing does.
    pub proof fn known_failures_decide_an_extraction(
        before: &Self,
        index: usize,
        sink: Device,
        result: Result<u64, Error>,
        reader_after: Device,
        sink_after: Device,
        faults: Faults,
        k: int,
    )
        requires
            before.wf(),
            index < before.files().len(),
            Self::extracts(before, index, sink, result, reader_after, sink_after),
        ensures
            ({
                let entry = before.files()[index as int];
                let reader = before.reader().device();
                &&& entry.size == 0 ==> {
                    &&& result == Ok::<u64, Error>(0)
                    &&& reader_after == reader
                    &&& sink_after.bytes == sink.bytes
                }
                &&& entry.size > 0 && reader.seeks.len() <= k < reader_after.seeks.len()
                    ==> reader_after.seeks[k] == SeekFrom::Start(entry.offset as u64)
                &&& reader.exact == Some(faults) && entry.size > 0 && (faults.start_seeks
                    || faults.reads.contains(entry.offset)) ==> (result matches Err(
                    Error::Io(error),
                ) && error.kind == faults.kind && error.message@ == faults.message)
                &&& reader.exact == Some(faults) && sink.exact == Some(faults)
                    && !faults.start_seeks && (forall|at: nat|
                    !faults.reads.contains(at) && !faults.zero_reads.contains(at)
                        && !faults.writes.contains(at)) && sink.pos <= sink.bytes.len()
                    ==> result == Ok::<u64, Error>(entry.size as u64)
                &&& result matches Err(Error::Io(error)) ==> {
                    ||| reader_after.failures.len() > reader.failures.len()
                        && reader_after.failures.last() == error
                    ||| sink_after.failures.len() > sink.failures.len()
                        && sink_after.failures.last() == error
                    ||| error.kind == IoErrorKind::WriteZero && error.message@
                        == "failed to write whole buffer"@
                }
            }),
    {
        before.reader().lemma_fits();
        assert(before.data(index as int).len() == before.files()[index as int].size);
    }

    /// Wherever the sink stands, extracting puts a beginning of the file's data
    /// there and changes nothing else.
    pub proof fn extraction_puts_data_where_the_sink_stands(
        before: &Self,
        index: usize,
        sink: Device,
        result: Result<u64, Error>,
        reader_after: Device,
        sink_after: Device,
    )
        requires
            before.wf(),
            index < before.files().len(),
            Self::extracts(before, index, sink, result, reader_after, sink_after),
        ensures
            ({
                let entry = before.files()[index as int];
                let reader = before.reader().device();
                let put = sink_after.pos - sink.pos;
                &&& 0 <= put <= entry.size
                &&& result matches Ok(count) ==> count == put && (reader.sound ==> count
                    == entry.size)
                &&& put == 0 ==> sink_after.bytes == sink.bytes
                &&& put > 0 ==> sink_after.bytes.len() == if sink_after.pos > sink.bytes.len() {
                    sink_after.pos
                } else {
                    sink.bytes.len()
                }
                &&& forall|i: int|
                    0 <= i < sink_after.bytes.len() ==> #[trigger] sink_after.bytes[i]
                        == if sink.pos <= i < sink_after.pos {
                        reader.bytes[entry.offset + i - sink.pos]
                    } else if i < sink.bytes.len() {
                        sink.bytes[i]
                    } else {
                        0
                    }
            }),
    {
        let data = before.data(index as int);
        let put = sink_after.pos - sink.pos;
        assert(data.len() == before.files()[index as int].size);
        crate::io::an_overwrite_changes_only_its_range(
            sink.bytes,
            sink.pos as int,
            data.take(put),
        );
    }
}

} // verus!
