//! Writing archives.

#[allow(unused_imports)]
use crate::archive::{self, name_end, read_all_entries, signature_bytes, Archive};
use crate::error::Error;
#[allow(unused_imports)]
use crate::io::{
    Device, Faults, IoError, IoErrorKind, Read, Seek, SeekFrom, Stream, Write,
};
#[allow(unused_imports)]
use crate::layout::{self, FileModel, Opened, StoredFile, MAX_NAME_LEN};
use vstd::prelude::*;
use vstd::slice::slice_subrange;
#[allow(unused_imports)]
use vstd::utf8::*;

verus! {

/// What checking a name against the format's limits results in.
pub open spec fn name_checked(name: Seq<char>, result: Result<(), Error>) -> bool {
    match result {
        Ok(()) => layout::valid_name(name),
        Err(Error::NameTooLong { name: refused, max }) => {
            &&& layout::name_too_long(name)
            &&& refused@ == name
            &&& max == MAX_NAME_LEN
        },
        Err(Error::NameContainsNull { name: refused }) => {
            &&& !layout::name_too_long(name)
            &&& layout::name_has_nul(name)
            &&& refused@ == name
        },
        Err(_) => false,
    }
}

/// Validate a file name against the format's limits.
pub fn validate_name(name: &str) -> (result: Result<(), Error>)
    ensures
        name_checked(name@, result),
{
    let bytes = name.as_bytes();
    if bytes.len() > MAX_NAME_LEN {
        return Err(Error::NameTooLong { name: name.to_owned(), max: MAX_NAME_LEN });
    }
    let mut i: usize = 0;
    while i < bytes.len()
        invariant
            bytes@ == encode_utf8(name@),
            bytes@.len() <= 12,
            i <= bytes@.len(),
            forall|k: int| 0 <= k < i ==> bytes@[k] != 0,
        decreases bytes@.len() - i,
    {
        if bytes[i] == 0 {
            assert(bytes@.contains(0u8));
            return Err(Error::NameContainsNull { name: name.to_owned() });
        }
        i = i + 1;
    }
    Ok(())
}

/// Append the four bytes of a number.
fn push_number(out: &mut Vec<u8>, value: usize)
    ensures
        final(out)@ == old(out)@ + layout::number_bytes(value as nat),
{
    let value: u64 = value as u64;
    out.push((value % 0x100) as u8);
    out.push((value / 0x100 % 0x100) as u8);
    out.push((value / 0x1_0000 % 0x100) as u8);
    out.push((value / 0x100_0000 % 0x100) as u8);
    assert(out@ =~= old(out)@ + layout::number_bytes(value as nat));
}

/// The header of an archive of `count` files.
fn header_bytes(count: usize) -> (header: Vec<u8>)
    ensures
        header@ == layout::header(count as nat),
{
    let signature = signature_bytes();
    let mut header: Vec<u8> = Vec::new();
    header.extend_from_slice(&signature);
    assert(header@ =~= layout::signature());
    push_number(&mut header, count);
    header
}

/// The field for a name of the given bytes: these bytes, then NULs.
fn field_bytes(bytes: &[u8]) -> (field: [u8; 12])
    requires
        bytes@.len() <= 12,
    ensures
        field@ == layout::padded_field(bytes@),
{
    let mut field: [u8; 12] = [0; 12];
    let mut i: usize = 0;
    while i < bytes.len()
        invariant
            bytes@.len() <= 12,
            field@.len() == 12,
            i <= bytes@.len(),
            forall|k: int| 0 <= k < i ==> field@[k] == bytes@[k],
            forall|k: int| i <= k < 12 ==> field@[k] == 0,
        decreases bytes@.len() - i,
    {
        field[i] = bytes[i];
        i = i + 1;
    }
    assert(field@ =~= layout::padded_field(bytes@));
    field
}

/// The field in which a name is carried through: what stands before its first
/// NUL, then NULs.
fn carried_field(field: &[u8; 12]) -> (carried: [u8; 12])
    ensures
        carried@ == layout::padded_field(layout::before_nul(field@)),
{
    let end: usize = name_end(field.as_slice());
    assert(field@.subrange(0, end as int) =~= field@.take(end as int));
    field_bytes(slice_subrange(field.as_slice(), 0, end))
}

/// The table record of a file.
fn record_bytes(field: &[u8], len: usize) -> (record: Vec<u8>)
    ensures
        record@ == field@ + layout::number_bytes(len as nat),
{
    let mut record: Vec<u8> = Vec::new();
    record.extend_from_slice(field);
    assert(record@ =~= field@);
    push_number(&mut record, len);
    record
}

/// Staged file data: its name field and its bytes.
#[derive(Debug)]
pub struct StagedFile {
    field: [u8; 12],
    data: Vec<u8>,
}

impl View for StagedFile {
    type V = StoredFile;

    closed spec fn view(&self) -> StoredFile {
        StoredFile { field: self.field@, data: self.data@ }
    }
}

/// The files that staged files stand for.
pub open spec fn staged_models(files: Seq<StagedFile>) -> Seq<StoredFile> {
    Seq::new(files.len(), |i: int| files[i]@)
}

/// Whether `got` is what is left of the files `whole` where reading a file can
/// have ended early: all the name fields, and the beginning of each file.
pub open spec fn kept_beginnings(got: Seq<StoredFile>, whole: Seq<StoredFile>) -> bool {
    &&& got.len() == whole.len()
    &&& forall|i: int|
        0 <= i < got.len() ==> {
            &&& (#[trigger] got[i]).field == whole[i].field
            &&& got[i].data.is_prefix_of(whole[i].data)
        }
}

/// A GRP archive being written: staged file data plus the target it will be
/// written to.
///
/// Build an archive with [`Writer::new`] (a fresh archive) or [`Writer::open`]
/// (an existing archive whose files are carried through), stage files with
/// [`Writer::add_file`], then call [`Writer::finish`] to write the header,
/// file table, and data, and take back the target.
///
/// Names must be at most 12 bytes and must not contain a NUL byte. Appending
/// to an archive means opening it, staging files, and finishing: the existing
/// files are rewritten, in order, ahead of the newly staged ones.
#[derive(Debug)]
pub struct Writer<W> {
    target: W,
    files: Vec<StagedFile>,
}

impl<W> Writer<W> {
    /// The target that the archive will be written to.
    pub closed spec fn target(&self) -> W {
        self.target
    }

    /// The staged files, in order.
    pub closed spec fn files(&self) -> Seq<StoredFile> {
        staged_models(self.files@)
    }
}

impl<W: Read + Seek + Write> Writer<W> {
    /// Start a fresh archive to write into `target`.
    ///
    /// The target's existing content is overwritten when
    /// [`finish`](Self::finish) is called, so point this at an empty target.
    pub fn new(target: W) -> (writer: Self)
        ensures
            writer.target() == target,
            writer.files() == Seq::<StoredFile>::empty(),
    {
        let writer = Writer { target, files: Vec::new() };
        assert(writer.files() =~= Seq::<StoredFile>::empty());
        writer
    }

    /// What opening the archive in `before` for appending results in, where
    /// this target fails in a known way.
    pub open spec fn opens(
        before: Device,
        faults: Faults,
        result: Result<Self, Error>,
    ) -> bool {
        let start = Device { pos: 0, ..before };
        if faults.start_seeks {
            result matches Err(error) && archive::is_forced(faults, Some(error))
        } else {
            match result {
                Ok(_) => archive::opening(start, faults, None),
                Err(error) => {
                    ||| archive::opening(start, faults, Some(error))
                    ||| {
                        &&& archive::opening(start, faults, None)
                        &&& archive::is_forced(faults, Some(error))
                        &&& layout::opened(before.bytes, 0) matches Opened::Archive(entries)
                        &&& !archive::all_readable(entries, before)
                    }
                },
            }
        }
    }

    /// Open an existing archive for appending: `target` must hold a valid GRP
    /// archive, whose files are carried through and rewritten by
    /// [`finish`](Self::finish) ahead of any newly staged files. Their names
    /// are kept byte for byte, also where they are not UTF-8, and NULs follow
    /// each name in its field.
    ///
    /// The archive is read from the start of the target, wherever the target
    /// is positioned, so that a target can be opened right after it was
    /// finished.
    pub fn open(target: W) -> (result: Result<Self, Error>)
        requires
            target.wf(),
        ensures
            ({
                let before = target.device();
                &&& match result {
                    Ok(writer) => {
                        let after = writer.target().device();
                        let whole = layout::carried_all(layout::contained(before.bytes, 0));
                        &&& layout::opened(before.bytes, 0) matches Opened::Archive(entries)
                        &&& kept_beginnings(writer.files(), whole)
                        &&& before.sound || archive::all_readable(entries, before)
                            ==> writer.files() == whole
                        &&& writer.target().wf()
                        &&& after.bytes == before.bytes
                        &&& after.flushed == before.flushed
                        &&& before.continues_as(after)
                        &&& before.fault(after) is None
                    },
                    Err(error) => {
                        &&& archive::refusal(Device { pos: 0, ..before }, error)
                        &&& exists|after: Device|
                            before.continues_as(after) && #[trigger] archive::is_reason(
                                before,
                                error,
                                after,
                            )
                    },
                }
                &&& before.exact matches Some(faults) ==> Self::opens(before, faults, result)
            }),
    {
        let mut target = target;
        let ghost before = target.device();
        match target.rewind() {
            Ok(()) => {},
            Err(error) => {
                assert(archive::is_reason(before, Error::Io(error), target.device()));
                return Err(Error::Io(error));
            },
        }
        let ghost start = target.device();
        let mut archive = match Archive::new(target) {
            Ok(archive) => archive,
            Err(error) => {
                proof {
                    let after = choose|after: Device|
                        start.continues_as(after) && #[trigger] archive::table_read(
                            start,
                            Err(error),
                            after,
                        );
                    assert(archive::is_reason(before, error, after));
                    if let Some(faults) = before.exact {
                        lemma_opening_unchanged(before, start, faults, Some(error));
                    }
                }
                return Err(error);
            },
        };
        let ghost table = archive.files();
        let ghost existing = archive.contents();
        let ghost whole = layout::carried_all(existing);
        proof {
            if let Some(faults) = before.exact {
                lemma_opening_unchanged(before, start, faults, None);
            }
            layout::entries_describe_contents(before.bytes, 0);
        }
        let pairs = match read_all_entries(&mut archive) {
            Ok(pairs) => pairs,
            Err(failure) => {
                proof {
                    let after = archive.reader().device();
                    assert(archive::is_reason(before, failure.error, after));
                    if archive::all_readable(table, before) {
                        let index = choose|index: int| #[trigger]
                            archive::stopped_at(
                                table,
                                index,
                                start,
                                failure.name@,
                                after,
                            );
                        assert(archive::is_readable(table[index], before));
                    }
                }
                return Err(failure.error);
            },
        };
        let ghost got = archive::file_models(pairs@);
        let ghost names = archive.fields();
        let (target, fields) = archive.into_parts();
        let mut files: Vec<StagedFile> = Vec::new();
        for pair in iter: pairs
            invariant
                iter.seq() == pairs@,
                got == archive::file_models(pairs@),
                got.len() == fields@.len(),
                files@.len() == iter.index(),
                forall|k: int|
                    0 <= k < files@.len() ==> {
                        &&& (#[trigger] files@[k])@.field == layout::padded_field(
                            layout::before_nul(fields@[k]@),
                        )
                        &&& files@[k]@.data == got[k].data
                    },
        {
            let at: usize = files.len();
            files.push(StagedFile { field: carried_field(&fields[at]), data: pair.1 });
        }
        proof {
            let kept = staged_models(files@);
            assert forall|i: int| 0 <= i < kept.len() implies {
                &&& (#[trigger] kept[i]).field == whole[i].field
                &&& kept[i].data == got[i].data
            } by {
                assert(names[i] == fields@[i]@);
                assert(existing[i].field == fields@[i]@);
                assert(files@[i]@.data == got[i].data);
            }
            if before.sound || archive::all_readable(table, before) {
                if !before.sound {
                    assert forall|i: int| 0 <= i < table.len() implies archive::is_readable(
                        #[trigger] table[i],
                        start,
                    ) by {
                        assert(archive::is_readable(table[i], before));
                    }
                }
                assert(kept =~= whole);
            }
        }
        Ok(Writer { target, files })
    }

    /// Stage a file for the archive under `name`.
    pub fn add_file(&mut self, name: &str, data: &[u8]) -> (result: Result<(), Error>)
        ensures
            name_checked(name@, result),
            final(self).target() == old(self).target(),
            final(self).files() == if result is Ok {
                old(self).files().push(layout::stored(FileModel { name: name@, data: data@ }))
            } else {
                old(self).files()
            },
    {
        match validate_name(name) {
            Ok(()) => {},
            Err(error) => {
                return Err(error);
            },
        }
        let mut copy: Vec<u8> = Vec::new();
        copy.extend_from_slice(data);
        assert(copy@ =~= data@);
        self.files.push(StagedFile { field: field_bytes(name.as_bytes()), data: copy });
        assert(self.files() =~= old(self).files().push(
            layout::stored(FileModel { name: name@, data: data@ }),
        ));
        Ok(())
    }

    /// Write the header, file table, and data to the target and return it.
    ///
    /// The archive is rewritten from the beginning, so the target's position
    /// is reset to the start first (after [`open`](Self::open) the reader has
    /// been left past the old data).
    pub fn finish(self) -> (result: Result<W, Error>)
        requires
            self.target().wf(),
        ensures
            ({
                let before = self.target().device();
                let image = layout::image(self.files());
                &&& match result {
                    Ok(target) => {
                        &&& target.wf()
                        &&& writes_out(before, image, target.device())
                    },
                    Err(Error::Io(error)) => exists|after: Device|
                        before.continues_as(after) && #[trigger] write_failed(
                            before,
                            image,
                            error,
                            after,
                        ),
                    Err(_) => false,
                }
                &&& before.exact matches Some(faults) ==> if is_hindered(self.files(), faults) {
                    result matches Err(error) && archive::is_forced(faults, Some(error))
                } else {
                    result is Ok
                }
            }),
    {
        let mut target = self.target;
        match write_image(&mut target, self.files.as_slice()) {
            Ok(()) => Ok(target),
            Err(error) => {
                assert(write_failed(
                    self.target().device(),
                    layout::image(self.files()),
                    error,
                    target.device(),
                ));
                Err(Error::Io(error))
            },
        }
    }
}

/// Where and how often a stream was interrupted does not change what opening
/// an archive from its start results in.
proof fn lemma_opening_unchanged(
    before: Device,
    start: Device,
    faults: Faults,
    error: Option<Error>,
)
    requires
        start.bytes == before.bytes,
        start.pos == 0,
    ensures
        archive::opening(start, faults, error) == archive::opening(
            Device { pos: 0, ..before },
            faults,
            error,
        ),
{
    let other = Device { pos: 0, ..before };
    assert forall|i: int| #[trigger]
        archive::record_probe(start, faults, i) == archive::record_probe(other, faults, i) by {}
    assert forall|i: int| #[trigger]
        archive::first_unreadable(start, faults, i) == archive::first_unreadable(
            other,
            faults,
            i,
        ) by {
        if archive::first_unreadable(start, faults, i) {
            assert forall|k: int| 0 <= k < i implies #[trigger] archive::record_probe(
                other,
                faults,
                k,
            ) is Whole by {
                assert(archive::record_probe(start, faults, k) is Whole);
            }
        }
        if archive::first_unreadable(other, faults, i) {
            assert forall|k: int| 0 <= k < i implies #[trigger] archive::record_probe(
                start,
                faults,
                k,
            ) is Whole by {
                assert(archive::record_probe(other, faults, k) is Whole);
            }
        }
    }
    let image = before.bytes.skip(0);
    if forall|i: int|
        0 <= i < layout::file_count(image) ==> #[trigger] archive::record_probe(
            start,
            faults,
            i,
        ) is Whole {
        assert forall|i: int| 0 <= i < layout::file_count(image) implies #[trigger]
            archive::record_probe(other, faults, i) is Whole by {
            assert(archive::record_probe(start, faults, i) is Whole);
        }
    }
    if archive::opening(start, faults, error) {
        assert forall|i: int|
            0 <= i < layout::file_count(image) && #[trigger] archive::first_unreadable(
                other,
                faults,
                i,
            ) implies archive::first_unreadable(start, faults, i) by {}
    }
    if archive::opening(other, faults, error) {
        assert forall|i: int|
            0 <= i < layout::file_count(image) && #[trigger] archive::first_unreadable(
                start,
                faults,
                i,
            ) implies archive::first_unreadable(other, faults, i) by {}
    }
}

/// Whether `after` is the target `before` with `image` written over its start,
/// without a fault and with nothing held back.
pub open spec fn writes_out(before: Device, image: Seq<u8>, after: Device) -> bool {
    &&& before.continues_as(after)
    &&& after.bytes == Device::overwrite(before.bytes, 0, image)
    &&& after.pos == image.len()
    &&& after.seeks == before.seeks.push(SeekFrom::Start(0))
    &&& after.reach == before.reach
    &&& after.flushed
    &&& before.fault(after) is None
}

/// How writing `image` over the start of `before` can fail with `error`, where
/// it leaves the target as `after`: a beginning of the image has been written,
/// and the error is the last one that the target reported, unless the target
/// stopped accepting bytes.
pub open spec fn write_failed(
    before: Device,
    image: Seq<u8>,
    error: IoError,
    after: Device,
) -> bool {
    &&& !before.sound
    &&& after.seeks == before.seeks.push(SeekFrom::Start(0))
    &&& exists|done: int|
        0 <= done <= image.len() && after.bytes == Device::overwrite(
            before.bytes,
            0,
            #[trigger] image.take(done),
        )
    &&& {
        ||| before.reported(error, after)
        ||| error.kind == IoErrorKind::WriteZero && error.message@
            == "failed to write whole buffer"@
    }
}

/// Whether writing the record of file `index` fails.
pub open spec fn record_is_hindered(files: Seq<StoredFile>, faults: Faults, index: int) -> bool {
    &&& 0 <= index < files.len()
    &&& faults.writes.contains(layout::record_start(index) as nat)
}

/// Whether writing the data of file `index` fails.
pub open spec fn data_is_hindered(files: Seq<StoredFile>, faults: Faults, index: int) -> bool {
    &&& 0 <= index < files.len()
    &&& files[index].data.len() > 0
    &&& faults.writes.contains(
        (layout::record_start(files.len() as int) + layout::contents(
            files.take(index),
        ).len()) as nat,
    )
}

/// Whether writing an archive of `files` fails on a target that fails in this
/// way. The header, each record and the data of each file are written at once.
pub open spec fn is_hindered(files: Seq<StoredFile>, faults: Faults) -> bool {
    ||| faults.start_seeks
    ||| faults.flush
    ||| faults.writes.contains(0)
    ||| exists|index: int| #[trigger] record_is_hindered(files, faults, index)
    ||| exists|index: int| #[trigger] data_is_hindered(files, faults, index)
}

/// Write the archive that stores `files` over the start of `target`.
pub fn write_image<W: Seek + Write>(target: &mut W, files: &[StagedFile]) -> (result: Result<
    (),
    IoError,
>)
    requires
        (*old(target)).wf(),
    ensures
        (*final(target)).wf(),
        (*old(target)).device().continues_as((*final(target)).device()),
        ({
            let before = (*old(target)).device();
            let after = (*final(target)).device();
            let image = layout::image(staged_models(files@));
            &&& match result {
                Ok(()) => writes_out(before, image, after),
                Err(error) => write_failed(before, image, error, after),
            }
            &&& before.exact matches Some(faults) ==> if is_hindered(
                staged_models(files@),
                faults,
            ) {
                result matches Err(error) && faults.is_forced(error)
            } else {
                result is Ok
            }
        }),
{
    let ghost before = target.device();
    let ghost models = staged_models(files@);
    let ghost image = layout::image(models);
    match target.seek(SeekFrom::Start(0)) {
        Ok(_) => {},
        Err(error) => {
            assert(Device::overwrite(before.bytes, 0, image.take(0)) =~= before.bytes);
            return Err(error);
        },
    }
    let header = header_bytes(files.len());
    let ghost mut written = Seq::<u8>::empty();
    proof {
        assert(Device::overwrite(before.bytes, 0, written) =~= before.bytes);
        assert(image.take(header@.len() as int) =~= written + header@);
    }
    match write_piece(target, header.as_slice(), Ghost(before), Ghost(image), Ghost(written)) {
        Ok(()) => {},
        Err(error) => {
            return Err(error);
        },
    }
    proof {
        written = header@;
        assert(models.take(0) =~= Seq::<StoredFile>::empty());
        assert(written =~= layout::header(models.len()) + layout::records(models.take(0)));
    }
    let mut i: usize = 0;
    while i < files.len()
        invariant
            target.wf(),
            before == (*old(target)).device(),
            models == staged_models(files@),
            image == layout::image(models),
            i <= files@.len(),
            before.continues_as(target.device()),
            before.fault(target.device()) is None,
            target.device().seeks == before.seeks.push(SeekFrom::Start(0)),
            target.device().reach == before.reach,
            target.device().bytes == Device::overwrite(before.bytes, 0, written),
            target.device().pos == written.len(),
            written == layout::header(models.len()) + layout::records(models.take(i as int)),
            written.len() == layout::record_start(i as int),
            before.exact matches Some(faults) ==> {
                &&& !faults.start_seeks
                &&& !faults.writes.contains(0)
                &&& forall|k: int| #[trigger]
                    record_is_hindered(models, faults, k) ==> k >= i
            },
        decreases files@.len() - i,
    {
        let record = record_bytes(files[i].field.as_slice(), files[i].data.len());
        proof {
            assert(models[i as int] == files@[i as int]@);
            assert(record@ == layout::record(models[i as int]));
            assert(models.take(i + 1).drop_last() =~= models.take(i as int));
            layout::lemma_beginnings(models, i + 1);
            assert(written + record@ =~= layout::header(models.len()) + layout::records(
                models.take(i + 1),
            ));
            assert(image.take((written + record@).len() as int) =~= written + record@);
        }
        match write_piece(target, record.as_slice(), Ghost(before), Ghost(image), Ghost(written)) {
            Ok(()) => {},
            Err(error) => {
                proof {
                    if let Some(faults) = before.exact {
                        assert(record_is_hindered(models, faults, i as int));
                    }
                }
                return Err(error);
            },
        }
        proof {
            written = written + record@;
        }
        i = i + 1;
    }
    // The data starts right after the table just written, so no further
    // positioning is needed: the staged order matches the written order.
    let ghost table = written;
    proof {
        assert(models.take(models.len() as int) =~= models);
        assert(written =~= table + layout::contents(models.take(0)));
    }
    let mut i: usize = 0;
    while i < files.len()
        invariant
            target.wf(),
            before == (*old(target)).device(),
            models == staged_models(files@),
            image == layout::image(models),
            table == layout::header(models.len()) + layout::records(models),
            table.len() == layout::record_start(models.len() as int),
            i <= files@.len(),
            before.continues_as(target.device()),
            before.fault(target.device()) is None,
            target.device().seeks == before.seeks.push(SeekFrom::Start(0)),
            target.device().reach == before.reach,
            target.device().bytes == Device::overwrite(before.bytes, 0, written),
            target.device().pos == written.len(),
            written == table + layout::contents(models.take(i as int)),
            before.exact matches Some(faults) ==> {
                &&& !faults.start_seeks
                &&& !faults.writes.contains(0)
                &&& forall|k: int| !#[trigger] record_is_hindered(models, faults, k)
                &&& forall|k: int| #[trigger] data_is_hindered(models, faults, k) ==> k >= i
            },
        decreases files@.len() - i,
    {
        let data = files[i].data.as_slice();
        proof {
            assert(data@ == models[i as int].data);
            assert(models.take(i + 1).drop_last() =~= models.take(i as int));
            layout::lemma_beginnings(models, i + 1);
            assert(written + data@ =~= table + layout::contents(models.take(i + 1)));
            assert(image.take((written + data@).len() as int) =~= written + data@);
        }
        match write_piece(target, data, Ghost(before), Ghost(image), Ghost(written)) {
            Ok(()) => {},
            Err(error) => {
                proof {
                    if let Some(faults) = before.exact {
                        assert(data_is_hindered(models, faults, i as int));
                    }
                }
                return Err(error);
            },
        }
        proof {
            written = written + data@;
        }
        i = i + 1;
    }
    proof {
        assert(written =~= image);
        assert(image.take(image.len() as int) =~= image);
    }
    target.flush()
}

/// Write the next piece of `image`, of which `written` has been written over
/// what `before` held.
fn write_piece<W: Write>(
    target: &mut W,
    piece: &[u8],
    Ghost(before): Ghost<Device>,
    Ghost(image): Ghost<Seq<u8>>,
    Ghost(written): Ghost<Seq<u8>>,
) -> (result: Result<(), IoError>)
    requires
        (*old(target)).wf(),
        before.continues_as((*old(target)).device()),
        before.fault((*old(target)).device()) is None,
        (*old(target)).device().seeks == before.seeks.push(SeekFrom::Start(0)),
        (*old(target)).device().bytes == Device::overwrite(before.bytes, 0, written),
        (*old(target)).device().pos == written.len(),
        (written + piece@).is_prefix_of(image),
    ensures
        (*final(target)).wf(),
        before.continues_as((*final(target)).device()),
        (*final(target)).device().seeks == (*old(target)).device().seeks,
        (*final(target)).device().reach == (*old(target)).device().reach,
        match result {
            Ok(()) => {
                &&& (*final(target)).device().bytes == Device::overwrite(
                    before.bytes,
                    0,
                    written + piece@,
                )
                &&& (*final(target)).device().pos == written.len() + piece@.len()
                &&& before.fault((*final(target)).device()) is None
            },
            Err(error) => write_failed(before, image, error, (*final(target)).device()),
        },
        before.exact matches Some(faults) ==> if piece@.len() > 0 && faults.writes.contains(
            written.len(),
        ) {
            result matches Err(error) && faults.is_forced(error)
        } else {
            result is Ok
        },
{
    proof {
        Device::lemma_overwrite_twice(before.bytes, 0, written, Seq::empty());
    }
    let result = target.write_all(piece);
    proof {
        let done = target.device().pos - written.len();
        let part = piece@.take(done);
        Device::lemma_overwrite_twice(before.bytes, 0, written, part);
        assert(image.take(written.len() + done) =~= written + part);
        assert(piece@.take(piece@.len() as int) =~= piece@);
    }
    result
}

/// Reading gives back what was written: whatever the target held before, an
/// archive of storable files that was written over it opens as an archive of
/// just these files, in order.
pub proof fn written_files_read_back(bytes: Seq<u8>, files: Seq<StoredFile>)
    requires
        layout::storable(files),
    ensures
        ({
            let written = Device::overwrite(bytes, 0, layout::image(files));
            &&& layout::opened(written, 0) is Archive
            &&& layout::contained(written, 0) == files
        }),
{
    let image = layout::image(files);
    let written = Device::overwrite(bytes, 0, image);
    let trailing = written.skip(image.len() as int);
    assert(written =~= image + trailing);
    layout::image_round_trip(files, trailing);
}

/// Files that were stored under valid names are found under them.
pub proof fn written_names_read_back(bytes: Seq<u8>, files: Seq<FileModel>)
    requires
        layout::nameable(files),
    ensures
        ({
            let written = Device::overwrite(bytes, 0, layout::image(layout::stored_all(files)));
            layout::opened(written, 0) matches Opened::Archive(entries)
                && layout::stored_files(written, entries) == files
        }),
{
    let image = layout::image(layout::stored_all(files));
    let written = Device::overwrite(bytes, 0, image);
    let trailing = written.skip(image.len() as int);
    assert(written =~= image + trailing);
    layout::names_round_trip(files, trailing);
}

/// Appending carries the existing files through: rewriting an archive with
/// files added gives an archive of the old files, each with its old name and
/// its old data, in order, followed by the added ones.
pub proof fn appending_keeps_existing_files(bytes: Seq<u8>, added: Seq<StoredFile>)
    requires
        layout::opened(bytes, 0) is Archive,
        layout::storable(added),
        layout::contained(bytes, 0).len() + added.len() < 0x1_0000_0000,
    ensures
        ({
            let existing = layout::carried_all(layout::contained(bytes, 0));
            let count = existing.len() as int;
            let written = Device::overwrite(bytes, 0, layout::image(existing + added));
            &&& layout::opened(bytes, 0) matches Opened::Archive(before)
            &&& layout::opened(written, 0) matches Opened::Archive(after)
            &&& layout::contained(written, 0) == existing + added
            &&& layout::stored_files(written, after).take(count) == layout::stored_files(
                bytes,
                before,
            )
            &&& layout::stored_files(written, after).skip(count) == Seq::new(
                added.len(),
                |i: int| layout::named(added[i]),
            )
        }),
{
    let old_files = layout::contained(bytes, 0);
    let existing = layout::carried_all(old_files);
    let files = existing + added;
    layout::contents_are_storable(bytes, 0);
    assert forall|i: int| 0 <= i < files.len() implies {
        &&& (#[trigger] files[i]).data.len() < 0x1_0000_0000
        &&& files[i].field.len() == 12
    } by {
        if i < existing.len() {
            assert(files[i] == layout::carried(old_files[i]));
        } else {
            assert(files[i] == added[i - existing.len()]);
        }
    }
    written_files_read_back(bytes, files);
    let written = Device::overwrite(bytes, 0, layout::image(files));
    layout::entries_describe_contents(bytes, 0);
    layout::entries_describe_contents(written, 0);
    assert forall|i: int| 0 <= i < existing.len() implies layout::named(files[i])
        == layout::named(#[trigger] old_files[i]) by {
        layout::carrying_keeps_names(old_files[i]);
    }
    let all = Seq::new(files.len(), |i: int| layout::named(files[i]));
    assert(all.take(existing.len() as int) =~= Seq::new(
        old_files.len(),
        |i: int| layout::named(old_files[i]),
    ));
    assert(all.skip(existing.len() as int) =~= Seq::new(
        added.len(),
        |i: int| layout::named(added[i]),
    ));
}

/// Opening an archive and finishing it with nothing added gives every byte
/// back as it was, whatever the names are, if only NULs stand behind them.
pub proof fn rewriting_changes_nothing(bytes: Seq<u8>)
    requires
        layout::opened(bytes, 0) is Archive,
        forall|i: int|
            0 <= i < layout::contained(bytes, 0).len() ==> layout::is_padded(
                (#[trigger] layout::contained(bytes, 0)[i]).field,
            ),
    ensures
        Device::overwrite(
            bytes,
            0,
            layout::image(layout::carried_all(layout::contained(bytes, 0))),
        ) == bytes,
{
    assert(layout::carried_all(layout::contained(bytes, 0)) =~= layout::contained(bytes, 0));
    layout::image_is_the_archive(bytes);
    Device::lemma_overwrite_same(bytes, layout::declared_end(bytes) as int);
}

/// A name is accepted exactly if it takes no more than twelve bytes and none
/// of them is NUL. One that is refused is named, and its length comes first.
pub proof fn names_are_checked_by_their_bytes(name: Seq<char>, result: Result<(), Error>)
    requires
        name_checked(name, result),
    ensures
        result is Ok <==> encode_utf8(name).len() <= 12 && !encode_utf8(name).contains(0u8),
        encode_utf8(name).len() > 12 ==> {
            &&& result matches Err(Error::NameTooLong { name: refused, max })
            &&& refused@ == name
            &&& max == 12
        },
        encode_utf8(name).len() <= 12 && encode_utf8(name).contains(0u8) ==> {
            &&& result matches Err(Error::NameContainsNull { name: refused })
            &&& refused@ == name
        },
{
}

/// A target that an archive was written to starts with the archive, byte for
/// byte, holds whatever it held beyond it, stands at the archive's end, and
/// holds nothing back.
pub proof fn a_finished_target_starts_with_the_archive(
    before: Device,
    image: Seq<u8>,
    after: Device,
)
    requires
        writes_out(before, image, after),
    ensures
        image.is_prefix_of(after.bytes),
        after.bytes.len() == if image.len() > before.bytes.len() {
            image.len()
        } else {
            before.bytes.len()
        },
        forall|i: int|
            image.len() <= i < before.bytes.len() ==> #[trigger] after.bytes[i] == before.bytes[i],
        after.pos == image.len(),
        after.flushed,
        after.seeks == before.seeks.push(SeekFrom::Start(0)),
        before.fault(after) is None,
{
    crate::io::an_overwrite_changes_only_its_range(before.bytes, 0, image);
    assert(after.bytes.take(image.len() as int) =~= image);
}

/// Writing an archive fails only on a target that is not sound. It leaves a
/// beginning of the archive over what the target held, and it fails with the
/// last error that the target reported, or because the target took nothing more.
pub proof fn a_failed_target_holds_a_beginning(
    before: Device,
    image: Seq<u8>,
    error: IoError,
    after: Device,
)
    requires
        write_failed(before, image, error, after),
    ensures
        !before.sound,
        exists|done: int|
            #![trigger image.take(done)]
            {
                &&& 0 <= done <= image.len()
                &&& image.take(done).is_prefix_of(after.bytes)
                &&& forall|i: int|
                    done <= i < before.bytes.len() ==> #[trigger] after.bytes[i]
                        == before.bytes[i]
            },
        (after.failures.len() > before.failures.len() && after.failures.last() == error) || (
        error.kind == IoErrorKind::WriteZero && error.message@
            == "failed to write whole buffer"@),
{
    let done = choose|done: int|
        0 <= done <= image.len() && after.bytes == Device::overwrite(
            before.bytes,
            0,
            #[trigger] image.take(done),
        );
    crate::io::an_overwrite_changes_only_its_range(before.bytes, 0, image.take(done));
    assert(after.bytes.take(done) =~= image.take(done));
}

/// Where files could have ended early in reading them, what is staged has every
/// name field, and a beginning of each file's data.
pub proof fn a_staged_beginning_is_of_every_file(
    got: Seq<StoredFile>,
    whole: Seq<StoredFile>,
    index: int,
)
    requires
        kept_beginnings(got, whole),
        0 <= index < whole.len(),
    ensures
        got.len() == whole.len(),
        got[index].field == whole[index].field,
        got[index].data.len() <= whole[index].data.len(),
        got[index].data == whole[index].data.take(got[index].data.len() as int),
{
}

/// Where writing an archive is hindered: at the first seek, in the flush, at the
/// header, at a record, or at the data of a file, which starts behind the table
/// and the data of the files before it. A target that fails in none of these
/// places is written.
pub proof fn writing_is_hindered_where_a_piece_starts(
    files: Seq<StoredFile>,
    faults: Faults,
    index: int,
)
    ensures
        faults.start_seeks || faults.flush || faults.writes.contains(0) ==> is_hindered(
            files,
            faults,
        ),
        0 <= index < files.len() && faults.writes.contains((16 * (index + 1)) as nat)
            ==> is_hindered(files, faults),
        0 <= index < files.len() && files[index].data.len() > 0 && faults.writes.contains(
            (16 * (files.len() + 1) + files.take(index).map_values(
                |file: StoredFile| file.data,
            ).flatten().len()) as nat,
        ) ==> is_hindered(files, faults),
        !faults.start_seeks && !faults.flush && (forall|at: nat| !faults.writes.contains(at))
            ==> !is_hindered(files, faults),
{
    if 0 <= index < files.len() {
        layout::contents_are_flattened(files.take(index));
        if faults.writes.contains((16 * (index + 1)) as nat) {
            assert(record_is_hindered(files, faults, index));
        }
        if files[index].data.len() > 0 && faults.writes.contains(
            (16 * (files.len() + 1) + files.take(index).map_values(
                |file: StoredFile| file.data,
            ).flatten().len()) as nat,
        ) {
            assert(data_is_hindered(files, faults, index));
        }
    }
}

impl<W: Read + Seek + Write> Writer<W> {
    /// What opening for appending comes to on a target with known failures: it
    /// fails with their error where the target cannot be sent to its start, and
    /// where nothing hinders it, it succeeds exactly for an archive.
    pub proof fn known_failures_decide_an_opening(
        before: Device,
        faults: Faults,
        result: Result<Self, Error>,
    )
        requires
            Self::opens(before, faults, result),
            before.exact == Some(faults),
        ensures
            faults.start_seeks ==> (result matches Err(Error::Io(error)) && error.kind
                == faults.kind && error.message@ == faults.message),
            !faults.start_seeks && !faults.end_seeks && !faults.position_seeks && (forall|at: nat|
                !faults.reads.contains(at) && !faults.zero_reads.contains(at)) ==> (result is Ok
                <==> layout::opened(before.bytes, 0) is Archive),
    {
        let start = Device { pos: 0, ..before };
        if !faults.start_seeks && !faults.end_seeks && !faults.position_seeks && (forall|at: nat|
            !faults.reads.contains(at) && !faults.zero_reads.contains(at)) {
            match result {
                Ok(_) => {
                    archive::known_failures_decide_an_opening(start, faults, None);
                },
                Err(error) => {
                    if archive::opening(start, faults, Some(error)) {
                        archive::known_failures_decide_an_opening(start, faults, Some(error));
                    }
                },
            }
        }
    }
}

/// Staged files stand for what was staged, in order.
pub proof fn staged_files_stand_in_order(files: Seq<StagedFile>)
    ensures
        staged_models(files).len() == files.len(),
        forall|i: int| 0 <= i < files.len() ==> #[trigger] staged_models(files)[i] == files[i]@,
{
}

} // verus!
