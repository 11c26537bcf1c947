//! Planning the contents of an archive that is created or updated.

#[allow(unused_imports)]
use crate::archive;
use crate::cursor::Cursor;
use crate::error::Error;
#[allow(unused_imports)]
use crate::extract::{self, listing_line};
#[allow(unused_imports)]
use crate::io::{Device, Read, Seek, Stream, Write};
#[allow(unused_imports)]
use crate::layout::{self, FileModel, Opened, StoredFile};
#[allow(unused_imports)]
use crate::select::{self, find_exact, find_name, Named};
#[allow(unused_imports)]
use crate::text::{self, quote};
#[allow(unused_imports)]
use crate::writer::{self, Writer};
use vstd::prelude::*;
use vstd::string::*;
#[allow(unused_imports)]
use vstd::utf8::*;

verus! {

/// What happened to an entry when planning a create or update.
#[derive(Debug, Clone, Copy, PartialEq, Eq, Structural)]
pub enum Status {
    /// An existing entry whose data was left as-is (update only).
    Unchanged,
    /// An existing entry whose data was replaced (update only).
    Replaced,
    /// A newly added entry.
    Added,
}

/// A planned entry: its name, its data, and what happened to it.
#[verifier::ext_equal]
pub struct PlanModel {
    pub name: Seq<char>,
    pub data: Seq<u8>,
    pub status: Status,
}

/// The entries of a plan.
pub open spec fn plan_models(plan: Seq<(String, Vec<u8>, Status)>) -> Seq<PlanModel> {
    Seq::new(
        plan.len(),
        |i: int| PlanModel { name: plan[i].0@, data: plan[i].1@, status: plan[i].2 },
    )
}

/// The names in a plan.
pub open spec fn plan_names(plan: Seq<PlanModel>) -> Seq<Seq<char>> {
    Seq::new(plan.len(), |i: int| plan[i].name)
}

/// The files that a plan describes.
pub open spec fn plan_files(plan: Seq<PlanModel>) -> Seq<FileModel> {
    Seq::new(plan.len(), |i: int| FileModel { name: plan[i].name, data: plan[i].data })
}

/// The plan that leaves an archive as it is.
pub open spec fn unchanged(existing: Seq<FileModel>) -> Seq<PlanModel> {
    Seq::new(
        existing.len(),
        |i: int|
            PlanModel {
                name: existing[i].name,
                data: existing[i].data,
                status: Status::Unchanged,
            },
    )
}

/// `plan` with one more file. A file whose name is planned already replaces
/// that entry's data in place; any other is appended, unless its name differs
/// only in case from a planned one.
pub open spec fn with_file(plan: Seq<PlanModel>, file: FileModel) -> Option<Seq<PlanModel>> {
    let names = plan_names(plan);
    match names.index_of_first(file.name) {
        Some(index) => Some(
            plan.update(
                index,
                PlanModel { name: file.name, data: file.data, status: Status::Replaced },
            ),
        ),
        None => if select::resolve(names, file.name) is Some {
            None
        } else {
            Some(
                plan.push(
                    PlanModel { name: file.name, data: file.data, status: Status::Added },
                ),
            )
        },
    }
}

/// The plan for an archive of the `existing` files that the `incoming` ones
/// are added to, one after the other, or nothing if one of them is refused.
pub open spec fn planned(existing: Seq<FileModel>, incoming: Seq<FileModel>) -> Option<
    Seq<PlanModel>,
>
    decreases incoming.len(),
{
    if incoming.len() == 0 {
        Some(unchanged(existing))
    } else {
        match planned(existing, incoming.drop_last()) {
            Some(plan) => with_file(plan, incoming.last()),
            None => None,
        }
    }
}

/// A name that differs only in case from a planned one.
#[derive(Debug)]
pub struct NameConflict {
    /// The name of the incoming file.
    pub name: String,
    /// The planned name that it conflicts with.
    pub conflict: String,
}

impl NameConflict {
    /// A description of the conflict.
    pub fn message(&self) -> (message: String)
        ensures
            message@ == text::quoted(self.name@) + " conflicts with "@ + text::quoted(
                self.conflict@,
            ) + "; names differing only in case are not allowed"@,
    {
        let mut message = quote(self.name.as_str());
        message.append(" conflicts with ");
        message.append(quote(self.conflict.as_str()).as_str());
        message.append("; names differing only in case are not allowed");
        message
    }
}

/// Whether `conflict` is the one that ends the planning: the first incoming
/// file that is refused, and the first planned name that it conflicts with.
pub open spec fn first_conflict(
    existing: Seq<FileModel>,
    incoming: Seq<FileModel>,
    conflict: NameConflict,
) -> bool {
    exists|k: int|
        {
            &&& 0 <= k < incoming.len()
            &&& (#[trigger] incoming[k]).name == conflict.name@
            &&& planned(existing, incoming.take(k)) matches Some(plan)
            &&& with_file(plan, incoming[k]) is None
            &&& select::resolve(plan_names(plan), incoming[k].name) matches Some(index)
            &&& conflict.conflict@ == plan[index].name
        }
}

impl Named for (String, Vec<u8>) {
    open spec fn text(&self) -> Seq<char> {
        self.0@
    }

    fn as_text(&self) -> (name: &str) {
        self.0.as_str()
    }
}

impl Named for (String, Vec<u8>, Status) {
    open spec fn text(&self) -> Seq<char> {
        self.0@
    }

    fn as_text(&self) -> (name: &str) {
        self.0.as_str()
    }
}

/// Build the resulting archive's entries from `existing` and `incoming`.
///
/// `existing` are the archive's current pairs of a name and data, in table
/// order; `incoming` are the staged source files, de-duplicated by exact name.
/// An incoming file whose name exactly matches an existing entry replaces that
/// entry's data in place; any other incoming file is appended. An incoming
/// name that differs only in case from any existing or already-added entry is
/// an error, since the format's 8.3 names do not distinguish case.
pub fn plan_update(
    existing: Vec<(String, Vec<u8>)>,
    incoming: Vec<(String, Vec<u8>)>,
) -> (result: Result<Vec<(String, Vec<u8>, Status)>, NameConflict>)
    ensures
        match result {
            Ok(plan) => planned(
                archive::file_models(existing@),
                archive::file_models(incoming@),
            ) == Some(plan_models(plan@)),
            Err(conflict) => first_conflict(
                archive::file_models(existing@),
                archive::file_models(incoming@),
                conflict,
            ),
        },
{
    let ghost before = archive::file_models(existing@);
    let ghost files = archive::file_models(incoming@);
    let mut plan: Vec<(String, Vec<u8>, Status)> = Vec::new();
    for file in iter: existing
        invariant
            iter.seq() == existing@,
            plan@.len() == iter.index(),
            forall|k: int|
                0 <= k < plan@.len() ==> {
                    &&& (#[trigger] plan@[k]).0 == existing@[k].0
                    &&& plan@[k].1 == existing@[k].1
                    &&& plan@[k].2 == Status::Unchanged
                },
    {
        let (name, data) = file;
        plan.push((name, data, Status::Unchanged));
    }
    proof {
        assert(plan_models(plan@) =~= unchanged(before));
        assert(files.take(0) =~= Seq::<FileModel>::empty());
    }
    for file in iter: incoming
        invariant
            iter.seq() == incoming@,
            before == archive::file_models(existing@),
            files == archive::file_models(incoming@),
            planned(before, files.take(iter.index())) == Some(plan_models(plan@)),
    {
        let ghost k = iter.index();
        let ghost models = plan_models(plan@);
        let (name, data) = file;
        proof {
            assert(files.take(k + 1).drop_last() =~= files.take(k));
            assert(files[k] == (FileModel { name: name@, data: data@ }));
            assert(select::texts(plan@) =~= plan_names(models));
        }
        match find_exact(plan.as_slice(), name.as_str()) {
            Some(index) => {
                proof {
                    plan_names(models).index_of_first_ensures(name@);
                }
                plan[index].1 = data;
                plan[index].2 = Status::Replaced;
                assert(plan_models(plan@) =~= models.update(
                    index as int,
                    PlanModel { name: name@, data: data@, status: Status::Replaced },
                ));
            },
            None => {
                match find_name(plan.as_slice(), name.as_str()) {
                    Some(index) => {
                        return Err(NameConflict { name, conflict: plan[index].0.clone() });
                    },
                    None => {},
                }
                plan.push((name, data, Status::Added));
                assert(plan_models(plan@) =~= models.push(
                    PlanModel { name: name@, data: data@, status: Status::Added },
                ));
            },
        }
    }
    assert(files.take(files.len() as int) =~= files);
    Ok(plan)
}

/// The names of a list of files.
pub open spec fn file_names(files: Seq<FileModel>) -> Seq<Seq<char>> {
    Seq::new(files.len(), |i: int| files[i].name)
}

/// `files` without those whose name an earlier one has.
pub open spec fn deduped(files: Seq<FileModel>) -> Seq<FileModel>
    decreases files.len(),
{
    if files.len() == 0 {
        Seq::empty()
    } else {
        let kept = deduped(files.drop_last());
        if file_names(kept).contains(files.last().name) {
            kept
        } else {
            kept.push(files.last())
        }
    }
}

/// The staged files, with identical names de-duplicated (first wins).
pub fn dedup_sources(staged: Vec<(String, Vec<u8>)>) -> (kept: Vec<(String, Vec<u8>)>)
    ensures
        archive::file_models(kept@) == deduped(archive::file_models(staged@)),
{
    let ghost files = archive::file_models(staged@);
    let mut kept: Vec<(String, Vec<u8>)> = Vec::new();
    proof {
        assert(archive::file_models(kept@) =~= deduped(files.take(0)));
    }
    for file in iter: staged
        invariant
            iter.seq() == staged@,
            files == archive::file_models(staged@),
            archive::file_models(kept@) == deduped(files.take(iter.index())),
    {
        let ghost k = iter.index();
        let ghost models = archive::file_models(kept@);
        proof {
            assert(files.take(k + 1).drop_last() =~= files.take(k));
            assert(files[k] == (FileModel { name: file.0@, data: file.1@ }));
            assert(select::texts(kept@) =~= file_names(models));
        }
        match find_exact(kept.as_slice(), file.0.as_str()) {
            Some(_) => {
                proof {
                    file_names(models).index_of_first_ensures(file.0@);
                }
            },
            None => {
                kept.push(file);
                assert(archive::file_models(kept@) =~= models.push(files[k]));
            },
        }
    }
    assert(files.take(files.len() as int) =~= files);
    kept
}

/// The files that are kept have distinct names. Each is the first of its name
/// in the list, and every name is kept.
pub proof fn first_of_each_name_is_kept(files: Seq<FileModel>)
    ensures
        file_names(deduped(files)).no_duplicates(),
        forall|i: int|
            0 <= i < deduped(files).len() ==> {
                &&& file_names(files).index_of_first(
                    (#[trigger] deduped(files)[i]).name,
                ) matches Some(first)
                &&& deduped(files)[i] == files[first]
            },
        forall|name: Seq<char>| #[trigger]
            file_names(deduped(files)).contains(name) <==> file_names(files).contains(name),
    decreases files.len(),
{
    if files.len() > 0 {
        let fewer = files.drop_last();
        let kept = deduped(fewer);
        let last = files.last();
        let names = file_names(files);
        first_of_each_name_is_kept(fewer);
        assert(names =~= file_names(fewer).push(last.name));
        assert forall|name: Seq<char>| #[trigger] names.contains(name) <==> file_names(
            fewer,
        ).contains(name) || name == last.name by {
            if file_names(fewer).contains(name) {
                assert(names[file_names(fewer).index_of(name)] == name);
            }
            if name == last.name {
                assert(names[files.len() - 1] == name);
            }
            if names.contains(name) && name != last.name {
                let i = names.index_of(name);
                assert(file_names(fewer)[i] == name);
            }
        }
        assert forall|i: int| 0 <= i < kept.len() implies {
            &&& names.index_of_first((#[trigger] kept[i]).name) matches Some(first)
            &&& kept[i] == files[first]
        } by {
            let first = file_names(fewer).index_of_first(kept[i].name)->0;
            file_names(fewer).index_of_first_ensures(kept[i].name);
            names.index_of_first_ensures(kept[i].name);
            assert(file_names(kept)[i] == kept[i].name);
            assert(file_names(fewer).contains(kept[i].name));
            assert(names.contains(kept[i].name));
            assert forall|j: int| 0 <= j < first implies names[j] != kept[i].name by {
                assert(file_names(fewer)[j] == names[j]);
            }
            assert(names[first] == kept[i].name);
        }
        if !file_names(kept).contains(last.name) {
            let all = kept.push(last);
            assert(file_names(all) =~= file_names(kept).push(last.name));
            names.index_of_first_ensures(last.name);
            assert(!file_names(fewer).contains(last.name));
            assert(names[files.len() - 1] == last.name);
            assert(names.contains(last.name));
            assert forall|j: int| 0 <= j < fewer.len() implies names[j] != last.name by {
                assert(file_names(fewer)[j] == names[j]);
            }
            assert(names.index_of_first(last.name) == Some(files.len() - 1));
            assert forall|name: Seq<char>| #[trigger] file_names(all).contains(name) <==> file_names(
                kept,
            ).contains(name) || name == last.name by {
                if file_names(kept).contains(name) {
                    assert(file_names(all)[file_names(kept).index_of(name)] == name);
                }
                if name == last.name {
                    assert(file_names(all)[kept.len() as int] == name);
                }
                if file_names(all).contains(name) && name != last.name {
                    assert(file_names(kept)[file_names(all).index_of(name)] == name);
                }
            }
            assert forall|i: int| 0 <= i < all.len() implies {
                &&& names.index_of_first((#[trigger] all[i]).name) matches Some(first)
                &&& all[i] == files[first]
            } by {
                if i < kept.len() {
                    assert(all[i] == kept[i]);
                }
            }
        }
    }
}

/// Whether every planned name can be stored.
pub open spec fn names_are_valid(plan: Seq<PlanModel>) -> bool {
    forall|i: int| 0 <= i < plan.len() ==> layout::valid_name((#[trigger] plan[i]).name)
}

/// How the files of a plan are stored.
pub open spec fn plan_stored(plan: Seq<PlanModel>) -> Seq<StoredFile> {
    layout::stored_all(plan_files(plan))
}

/// Whether `error` is about the first planned name that cannot be stored.
pub open spec fn first_invalid(plan: Seq<PlanModel>, error: Error) -> bool {
    exists|i: int|
        {
            &&& 0 <= i < plan.len()
            &&& writer::name_checked((#[trigger] plan[i]).name, Err(error))
            &&& names_are_valid(plan.take(i))
        }
}

/// Write the GRP archive holding `plan` into `writer` and return the target.
///
/// The target is generic, so that it can be one that fails; a name that cannot
/// be stored is reported before anything is written.
pub fn build_archive<W: Read + Seek + Write>(
    writer: W,
    plan: &[(String, Vec<u8>, Status)],
) -> (result: Result<W, Error>)
    requires
        writer.wf(),
    ensures
        ({
            let before = writer.device();
            let models = plan_models(plan@);
            let image = layout::image(plan_stored(models));
            &&& match result {
                Ok(target) => {
                    &&& names_are_valid(models)
                    &&& target.wf()
                    &&& writer::writes_out(before, image, target.device())
                },
                Err(Error::Io(error)) => names_are_valid(models) && exists|after: Device|
                    before.continues_as(after) && #[trigger] writer::write_failed(
                        before,
                        image,
                        error,
                        after,
                    ),
                Err(error) => first_invalid(models, error),
            }
            &&& names_are_valid(models) ==> (before.exact matches Some(faults)
                ==> if writer::is_hindered(plan_stored(models), faults) {
                result matches Err(error) && archive::is_forced(faults, Some(error))
            } else {
                result is Ok
            })
        }),
{
    let ghost target = writer;
    let ghost models = plan_models(plan@);
    let ghost files = plan_stored(models);
    let mut staged = Writer::new(writer);
    assert(files.take(0) =~= Seq::<StoredFile>::empty());
    let mut i: usize = 0;
    while i < plan.len()
        invariant
            models == plan_models(plan@),
            files == plan_stored(models),
            i <= plan@.len(),
            staged.target() == target,
            staged.files() == files.take(i as int),
            names_are_valid(models.take(i as int)),
        decreases plan@.len() - i,
    {
        proof {
            assert(models[i as int].name == plan@[i as int].0@);
        }
        match staged.add_file(plan[i].0.as_str(), plan[i].1.as_slice()) {
            Ok(()) => {},
            Err(error) => {
                assert(writer::name_checked(models[i as int].name, Err(error)));
                return Err(error);
            },
        }
        proof {
            assert(files.take(i + 1) =~= files.take(i as int).push(files[i as int]));
            assert forall|k: int| 0 <= k < i + 1 implies layout::valid_name(
                (#[trigger] models.take(i + 1)[k]).name,
            ) by {
                if k < i {
                    assert(models.take(i as int)[k] == models[k]);
                }
            }
        }
        i = i + 1;
    }
    proof {
        assert(files.take(files.len() as int) =~= files);
        assert(models.take(models.len() as int) =~= models);
    }
    staged.finish()
}

/// The bytes of the GRP archive holding `plan`.
pub fn archive_bytes(plan: &[(String, Vec<u8>, Status)]) -> (result: Result<Vec<u8>, Error>)
    ensures
        ({
            let models = plan_models(plan@);
            match result {
                Ok(bytes) => names_are_valid(models) && bytes@ == layout::image(
                    plan_stored(models),
                ),
                Err(error) => first_invalid(models, error),
            }
        }),
{
    match build_archive(Cursor::new(Vec::new()), plan) {
        Ok(target) => {
            proof {
                let image = layout::image(plan_stored(plan_models(plan@)));
                assert(Device::overwrite(Seq::empty(), 0, image) =~= image);
            }
            Ok(target.into_inner())
        },
        Err(error) => Err(error),
    }
}

/// What is appended to the line of an entry to show its status.
pub open spec fn status_tag(status: Status) -> Seq<char> {
    match status {
        Status::Unchanged => " unchanged"@,
        Status::Replaced => " replaced"@,
        Status::Added => " added"@,
    }
}

/// The line that reports a planned entry.
pub open spec fn plan_listing(entry: PlanModel, show_status: bool) -> Seq<char> {
    let line = extract::listing(entry.name, entry.data.len());
    if show_status {
        line + status_tag(entry.status)
    } else {
        line
    }
}

/// One line per planned entry; `show_status` appends the entry's status (used
/// for updates, where entries are replaced, added, or unchanged).
pub fn plan_lines(plan: &[(String, Vec<u8>, Status)], show_status: bool) -> (lines: Vec<String>)
    ensures
        select::strings(lines@) == Seq::new(
            plan@.len(),
            |i: int| plan_listing(plan_models(plan@)[i], show_status),
        ),
{
    let ghost models = plan_models(plan@);
    let mut lines: Vec<String> = Vec::new();
    let mut i: usize = 0;
    while i < plan.len()
        invariant
            models == plan_models(plan@),
            i <= plan@.len(),
            lines@.len() == i,
            forall|k: int|
                0 <= k < i ==> (#[trigger] lines@[k])@ == plan_listing(models[k], show_status),
        decreases plan@.len() - i,
    {
        let mut line = listing_line(plan[i].0.as_str(), plan[i].1.len() as u64);
        if show_status {
            let tag = match plan[i].2 {
                Status::Unchanged => " unchanged",
                Status::Replaced => " replaced",
                Status::Added => " added",
            };
            line.append(tag);
        }
        assert(models[i as int].name == plan@[i as int].0@);
        lines.push(line);
        i = i + 1;
    }
    assert(select::strings(lines@) =~= Seq::new(
        plan@.len(),
        |i: int| plan_listing(plan_models(plan@)[i], show_status),
    ));
    lines
}

/// How many planned entries have the given status.
pub fn count_status(plan: &[(String, Vec<u8>, Status)], status: Status) -> (count: usize)
    ensures
        count == plan_models(plan@).filter(|entry: PlanModel| entry.status == status).len(),
{
    let ghost models = plan_models(plan@);
    let mut count: usize = 0;
    let mut i: usize = 0;
    proof {
        reveal(Seq::filter);
        assert(models.take(0).filter(|entry: PlanModel| entry.status == status).len() == 0);
    }
    while i < plan.len()
        invariant
            models == plan_models(plan@),
            i <= plan@.len(),
            count <= i,
            count == models.take(i as int).filter(
                |entry: PlanModel| entry.status == status,
            ).len(),
        decreases plan@.len() - i,
    {
        proof {
            reveal(Seq::filter);
            assert(models.take(i + 1).drop_last() =~= models.take(i as int));
            assert(models.take(i + 1).last().status == plan@[i as int].2);
        }
        if plan[i].2 == status {
            count = count + 1;
        }
        i = i + 1;
    }
    assert(models.take(models.len() as int) =~= models);
    count
}

/// The temporary file path used to build an archive before renaming it into
/// place: the archive path with a `.grper-tmp` suffix, in the same directory.
pub fn temp_path(archive: &str) -> (path: String)
    ensures
        path@ == archive@ + ".grper-tmp"@,
{
    let mut path = archive.to_owned();
    path.append(".grper-tmp");
    path
}

/// Whether one of the existing or incoming files has the given name.
pub open spec fn is_known(
    existing: Seq<FileModel>,
    incoming: Seq<FileModel>,
    name: Seq<char>,
) -> bool {
    file_names(existing).contains(name) || file_names(incoming).contains(name)
}

/// One step of planning: the names stay where they are, and the file's name is
/// among them.
pub proof fn lemma_with_file(plan: Seq<PlanModel>, file: FileModel)
    ensures
        with_file(plan, file) matches Some(next) ==> {
            &&& plan.len() <= next.len()
            &&& plan_names(next) == if plan_names(plan).contains(file.name) {
                plan_names(plan)
            } else {
                plan_names(plan).push(file.name)
            }
            &&& forall|name: Seq<char>| #[trigger]
                plan_names(next).contains(name) <==> plan_names(plan).contains(name) || name
                    == file.name
        },
        with_file(plan, file) is None <==> !plan_names(plan).contains(file.name) && exists|i: int|
            0 <= i < plan.len() && text::same_but_case((#[trigger] plan[i]).name, file.name),
{
    let names = plan_names(plan);
    let same = names.map_values(|stored: Seq<char>| text::same_but_case(stored, file.name));
    names.index_of_first_ensures(file.name);
    same.index_of_first_ensures(true);
    if same.contains(true) {
        let i = same.index_of(true);
        assert(text::same_but_case(plan[i].name, file.name));
    }
    if exists|i: int|
        0 <= i < plan.len() && text::same_but_case((#[trigger] plan[i]).name, file.name) {
        let i = choose|i: int|
            0 <= i < plan.len() && text::same_but_case((#[trigger] plan[i]).name, file.name);
        assert(same[i]);
        assert(same.contains(true));
    }
    if let Some(next) = with_file(plan, file) {
        if names.contains(file.name) {
            assert(plan_names(next) =~= names);
        } else {
            assert(plan_names(next) =~= names.push(file.name));
            assert forall|name: Seq<char>| #[trigger] plan_names(next).contains(name)
                <==> names.contains(name) || name == file.name by {
                if names.contains(name) {
                    assert(plan_names(next)[names.index_of(name)] == name);
                }
                if name == file.name {
                    assert(plan_names(next)[names.len() as int] == name);
                }
                if plan_names(next).contains(name) && name != file.name {
                    assert(names[plan_names(next).index_of(name)] == name);
                }
            }
        }
    }
}

/// The name of the last file is known, and so are those of the others.
proof fn lemma_known(existing: Seq<FileModel>, incoming: Seq<FileModel>, name: Seq<char>)
    requires
        incoming.len() > 0,
    ensures
        is_known(existing, incoming, name) <==> is_known(existing, incoming.drop_last(), name)
            || name == incoming.last().name,
{
    let names = file_names(incoming);
    let fewer = file_names(incoming.drop_last());
    assert(names =~= fewer.push(incoming.last().name));
    if fewer.contains(name) {
        assert(names[fewer.index_of(name)] == name);
    }
    if name == incoming.last().name {
        assert(names[incoming.len() - 1] == name);
    }
    if names.contains(name) && name != incoming.last().name {
        assert(fewer[names.index_of(name)] == name);
    }
}

/// A plan keeps the existing entries' names and their order, and its names are
/// those of the existing and the incoming files.
pub proof fn plan_keeps_names_and_order(existing: Seq<FileModel>, incoming: Seq<FileModel>)
    ensures
        planned(existing, incoming) matches Some(plan) ==> {
            &&& existing.len() <= plan.len()
            &&& forall|i: int|
                0 <= i < existing.len() ==> (#[trigger] plan[i]).name == existing[i].name
            &&& forall|name: Seq<char>| #[trigger]
                plan_names(plan).contains(name) <==> is_known(existing, incoming, name)
        },
    decreases incoming.len(),
{
    if incoming.len() == 0 {
        assert(plan_names(unchanged(existing)) =~= file_names(existing));
    } else {
        plan_keeps_names_and_order(existing, incoming.drop_last());
        if let Some(before) = planned(existing, incoming.drop_last()) {
            lemma_with_file(before, incoming.last());
            if let Some(plan) = with_file(before, incoming.last()) {
                assert forall|i: int| 0 <= i < existing.len() implies (#[trigger] plan[i]).name
                    == existing[i].name by {
                    assert(plan_names(plan)[i] == plan_names(before)[i]);
                }
                assert forall|name: Seq<char>| #[trigger] plan_names(plan).contains(name)
                    <==> is_known(existing, incoming, name) by {
                    lemma_known(existing, incoming, name);
                }
            }
        }
    }
}

/// Whether incoming file `k` brings a new name that differs only in case from
/// one that is known by then.
pub open spec fn is_case_conflict(
    existing: Seq<FileModel>,
    incoming: Seq<FileModel>,
    k: int,
) -> bool {
    let before = incoming.take(k);
    &&& !is_known(existing, before, incoming[k].name)
    &&& exists|known: Seq<char>| #[trigger]
        is_known(existing, before, known) && text::same_but_case(known, incoming[k].name)
}

/// A plan is refused exactly if some incoming file brings a name that differs
/// only in case from a known one.
pub proof fn refused_exactly_for_case_conflicts(
    existing: Seq<FileModel>,
    incoming: Seq<FileModel>,
)
    ensures
        planned(existing, incoming) is None <==> exists|k: int|
            0 <= k < incoming.len() && #[trigger] is_case_conflict(existing, incoming, k),
    decreases incoming.len(),
{
    if incoming.len() > 0 {
        let fewer = incoming.drop_last();
        let last = incoming.len() - 1;
        refused_exactly_for_case_conflicts(existing, fewer);
        assert forall|k: int| 0 <= k < last implies is_case_conflict(existing, fewer, k)
            == #[trigger] is_case_conflict(existing, incoming, k) by {
            assert(fewer.take(k) =~= incoming.take(k));
        }
        if planned(existing, fewer) is None {
            let k = choose|k: int|
                0 <= k < fewer.len() && #[trigger] is_case_conflict(existing, fewer, k);
            assert(is_case_conflict(existing, incoming, k));
        } else {
            let plan = planned(existing, fewer)->0;
            let name = incoming.last().name;
            plan_keeps_names_and_order(existing, fewer);
            lemma_with_file(plan, incoming.last());
            assert(incoming.take(last) =~= fewer);
            if with_file(plan, incoming.last()) is None {
                let i = choose|i: int|
                    0 <= i < plan.len() && text::same_but_case((#[trigger] plan[i]).name, name);
                assert(plan_names(plan)[i] == plan[i].name);
                assert(plan_names(plan).contains(plan[i].name));
                assert(is_known(existing, fewer, plan[i].name));
                assert(is_case_conflict(existing, incoming, last));
            }
            if is_case_conflict(existing, incoming, last) {
                let known = choose|known: Seq<char>| #[trigger]
                    is_known(existing, fewer, known) && text::same_but_case(known, name);
                assert(plan_names(plan).contains(known));
                assert(plan[plan_names(plan).index_of(known)].name == known);
            }
            if exists|k: int|
                0 <= k < incoming.len() && #[trigger] is_case_conflict(existing, incoming, k) {
                let k = choose|k: int|
                    0 <= k < incoming.len() && #[trigger] is_case_conflict(existing, incoming, k);
                if k < last {
                    assert(is_case_conflict(existing, fewer, k));
                }
            }
        }
    }
}

/// No plan adds an entry whose name differs only in case from another one's.
pub proof fn added_names_are_distinct_but_for_case(
    existing: Seq<FileModel>,
    incoming: Seq<FileModel>,
)
    ensures
        planned(existing, incoming) matches Some(plan) ==> forall|i: int, j: int|
            0 <= i < j < plan.len() && existing.len() <= j ==> !text::same_but_case(
                (#[trigger] plan[i]).name,
                (#[trigger] plan[j]).name,
            ),
    decreases incoming.len(),
{
    if incoming.len() > 0 {
        let fewer = incoming.drop_last();
        added_names_are_distinct_but_for_case(existing, fewer);
        if let Some(before) = planned(existing, fewer) {
            lemma_with_file(before, incoming.last());
            if let Some(plan) = with_file(before, incoming.last()) {
                assert forall|i: int, j: int|
                    0 <= i < j < plan.len() && existing.len() <= j implies !text::same_but_case(
                    (#[trigger] plan[i]).name,
                    (#[trigger] plan[j]).name,
                ) by {
                    assert(plan_names(plan).len() == plan.len());
                    assert(plan_names(before).len() == before.len());
                    assert(plan_names(plan)[i] == plan[i].name);
                    assert(plan_names(plan)[j] == plan[j].name);
                    assert(plan_names(before)[i] == before[i].name);
                    if j < before.len() {
                        assert(plan_names(before)[j] == before[j].name);
                    } else {
                        assert(!plan_names(before).contains(incoming.last().name));
                        assert(!text::same_but_case(before[i].name, incoming.last().name));
                    }
                }
            }
        }
    }
}

/// The incoming files that no existing entry has the name of, in order.
pub open spec fn new_files(existing: Seq<FileModel>, incoming: Seq<FileModel>) -> Seq<FileModel>
    decreases incoming.len(),
{
    if incoming.len() == 0 {
        Seq::empty()
    } else {
        let before = new_files(existing, incoming.drop_last());
        if file_names(existing).contains(incoming.last().name) {
            before
        } else {
            before.push(incoming.last())
        }
    }
}

/// What planning does, entry by entry, where the incoming names are distinct:
/// the first existing entry of an incoming name gets the incoming data, every
/// other existing entry is left as it is, and the remaining incoming files are
/// appended in order.
pub proof fn plan_replaces_in_place_and_appends(
    existing: Seq<FileModel>,
    incoming: Seq<FileModel>,
)
    requires
        file_names(incoming).no_duplicates(),
    ensures
        planned(existing, incoming) matches Some(plan) ==> {
            let names = file_names(existing);
            let new = new_files(existing, incoming);
            &&& plan.len() == existing.len() + new.len()
            &&& forall|i: int, k: int|
                0 <= i < existing.len() && 0 <= k < incoming.len() && names.index_of_first(
                    (#[trigger] incoming[k]).name,
                ) == Some(i) ==> #[trigger] plan[i] == (PlanModel {
                    name: existing[i].name,
                    data: incoming[k].data,
                    status: Status::Replaced,
                })
            &&& forall|i: int|
                0 <= i < existing.len() && (forall|k: int|
                    0 <= k < incoming.len() ==> names.index_of_first(
                        (#[trigger] incoming[k]).name,
                    ) != Some(i)) ==> {
                    &&& (#[trigger] plan[i]).name == existing[i].name
                    &&& plan[i].data == existing[i].data
                    &&& plan[i].status == Status::Unchanged
                }
            &&& forall|j: int|
                0 <= j < new.len() ==> plan[existing.len() + j] == (PlanModel {
                    name: (#[trigger] new[j]).name,
                    data: new[j].data,
                    status: Status::Added,
                })
        },
    decreases incoming.len(),
{
    if incoming.len() > 0 {
        let fewer = incoming.drop_last();
        let file = incoming.last();
        let last = incoming.len() - 1;
        let names = file_names(existing);
        assert(file_names(fewer).no_duplicates()) by {
            assert forall|i: int, j: int|
                0 <= i < fewer.len() && 0 <= j < fewer.len() && i != j implies file_names(fewer)[i]
                != file_names(fewer)[j] by {
                assert(file_names(incoming)[i] == file_names(fewer)[i]);
                assert(file_names(incoming)[j] == file_names(fewer)[j]);
            }
        }
        assert(!file_names(fewer).contains(file.name)) by {
            if file_names(fewer).contains(file.name) {
                let i = file_names(fewer).index_of(file.name);
                assert(file_names(incoming)[i] == file_names(incoming)[last]);
            }
        }
        plan_replaces_in_place_and_appends(existing, fewer);
        plan_keeps_names_and_order(existing, fewer);
        assert forall|k: int| 0 <= k < last implies #[trigger] fewer[k] == incoming[k] by {}
        if let Some(before) = planned(existing, fewer) {
            let planned_names = plan_names(before);
            planned_names.index_of_first_ensures(file.name);
            names.index_of_first_ensures(file.name);
            assert(planned_names.contains(file.name) <==> names.contains(file.name));
            if names.contains(file.name) {
                let first = names.index_of_first(file.name)->0;
                assert(planned_names[first] == before[first].name);
                assert forall|j: int| 0 <= j < first implies planned_names[j] != file.name by {
                    assert(planned_names[j] == before[j].name);
                    assert(names[j] == existing[j].name);
                }
                assert(planned_names.index_of_first(file.name) == Some(first));
            }
            if let Some(plan) = with_file(before, file) {
                let new = new_files(existing, incoming);
                let old_new = new_files(existing, fewer);
                assert forall|i: int, k: int|
                    0 <= i < existing.len() && 0 <= k < incoming.len() && names.index_of_first(
                        (#[trigger] incoming[k]).name,
                    ) == Some(i) implies #[trigger] plan[i] == (PlanModel {
                    name: existing[i].name,
                    data: incoming[k].data,
                    status: Status::Replaced,
                }) by {
                    names.index_of_first_ensures(incoming[k].name);
                    if k < last {
                        assert(fewer[k] == incoming[k]);
                        assert(before[i].data == incoming[k].data);
                        assert(file_names(fewer)[k] == incoming[k].name);
                        assert(file_names(fewer).contains(incoming[k].name));
                        assert(existing[i].name != file.name);
                    }
                }
                assert forall|i: int|
                    0 <= i < existing.len() && (forall|k: int|
                        0 <= k < incoming.len() ==> names.index_of_first(
                            (#[trigger] incoming[k]).name,
                        ) != Some(i)) implies {
                    &&& (#[trigger] plan[i]).name == existing[i].name
                    &&& plan[i].data == existing[i].data
                    &&& plan[i].status == Status::Unchanged
                } by {
                    assert forall|k: int| 0 <= k < fewer.len() implies names.index_of_first(
                        (#[trigger] fewer[k]).name,
                    ) != Some(i) by {
                        assert(fewer[k] == incoming[k]);
                    }
                    assert(before[i].data == existing[i].data);
                    assert(names.index_of_first(incoming[last].name) != Some(i));
                }
                assert forall|j: int| 0 <= j < new.len() implies plan[existing.len() + j] == (
                PlanModel {
                    name: (#[trigger] new[j]).name,
                    data: new[j].data,
                    status: Status::Added,
                }) by {
                    if j < old_new.len() {
                        assert(old_new[j] == new[j]);
                    }
                }
            }
        }
    }
}

/// A plan for a new archive adds every file, in order.
pub proof fn creating_adds_every_file(incoming: Seq<FileModel>)
    requires
        file_names(incoming).no_duplicates(),
    ensures
        planned(Seq::empty(), incoming) matches Some(plan) ==> {
            &&& plan_files(plan) == incoming
            &&& forall|i: int|
                0 <= i < plan.len() ==> (#[trigger] plan[i]).status == Status::Added
        },
{
    let existing = Seq::<FileModel>::empty();
    plan_replaces_in_place_and_appends(existing, incoming);
    lemma_all_are_new(incoming);
    if let Some(plan) = planned(existing, incoming) {
        assert forall|i: int| 0 <= i < plan.len() implies (#[trigger] plan[i]).status
            == Status::Added && plan_files(plan)[i] == incoming[i] by {
            assert(new_files(existing, incoming)[i] == incoming[i]);
        }
        assert(plan_files(plan) =~= incoming);
    }
}

proof fn lemma_all_are_new(incoming: Seq<FileModel>)
    ensures
        new_files(Seq::empty(), incoming) == incoming,
    decreases incoming.len(),
{
    if incoming.len() > 0 {
        lemma_all_are_new(incoming.drop_last());
        assert(incoming =~= incoming.drop_last().push(incoming.last()));
    } else {
        assert(incoming =~= Seq::empty());
    }
}

/// A plan for files that can be stored under their names can be built, as long
/// as there are few enough of them: no name is refused.
pub proof fn nameable_files_give_a_nameable_plan(
    existing: Seq<FileModel>,
    incoming: Seq<FileModel>,
)
    requires
        layout::nameable(existing),
        layout::nameable(incoming),
        existing.len() + incoming.len() < 0x1_0000_0000,
    ensures
        planned(existing, incoming) matches Some(plan) ==> {
            &&& plan.len() <= existing.len() + incoming.len()
            &&& layout::nameable(plan_files(plan))
            &&& names_are_valid(plan)
        },
    decreases incoming.len(),
{
    if incoming.len() == 0 {
        assert(plan_files(unchanged(existing)) =~= existing);
        assert forall|i: int| 0 <= i < existing.len() implies layout::valid_name(
            (#[trigger] unchanged(existing)[i]).name,
        ) by {
            assert(layout::valid_name(existing[i].name));
        }
    } else {
        let fewer = incoming.drop_last();
        let file = incoming.last();
        assert(incoming[incoming.len() - 1] == file);
        assert(forall|k: int| 0 <= k < fewer.len() ==> #[trigger] fewer[k] == incoming[k]);
        nameable_files_give_a_nameable_plan(existing, fewer);
        if let Some(before) = planned(existing, fewer) {
            plan_names(before).index_of_first_ensures(file.name);
            if let Some(plan) = with_file(before, file) {
                assert forall|i: int| 0 <= i < plan.len() implies {
                    &&& layout::valid_name((#[trigger] plan[i]).name)
                    &&& plan[i].data.len() < 0x1_0000_0000
                } by {
                    if i < before.len() {
                        assert(plan_files(before)[i].name == before[i].name);
                        assert(plan_files(before)[i].data == before[i].data);
                    }
                }
                assert forall|i: int| 0 <= i < plan.len() implies {
                    &&& (#[trigger] plan_files(plan)[i]).data.len() < 0x1_0000_0000
                    &&& layout::valid_name(plan_files(plan)[i].name)
                } by {
                    assert(layout::valid_name(plan[i].name));
                }
            }
        }
    }
}

/// An archive that was built from a plan, on a target that held nothing, opens
/// as an archive of just the planned files, in order.
pub proof fn built_archive_reads_back(plan: Seq<PlanModel>)
    requires
        layout::nameable(plan_files(plan)),
    ensures
        ({
            let built = Device::overwrite(Seq::empty(), 0, layout::image(plan_stored(plan)));
            &&& built == layout::image(plan_stored(plan))
            &&& layout::opened(built, 0) matches Opened::Archive(entries)
            &&& layout::stored_files(built, entries) == plan_files(plan)
        }),
{
    let image = layout::image(plan_stored(plan));
    writer::written_names_read_back(Seq::empty(), plan_files(plan));
    assert(Device::overwrite(Seq::empty(), 0, image) =~= image);
}

/// With nothing to add, a plan holds the existing files as they are: every one
/// of them, with its name and all of its data, in order, and unchanged.
pub proof fn an_update_with_nothing_keeps_everything(existing: Seq<FileModel>)
    ensures
        planned(existing, Seq::empty()) matches Some(plan) && {
            &&& plan.len() == existing.len()
            &&& forall|i: int|
                0 <= i < plan.len() ==> {
                    &&& (#[trigger] plan[i]).name == existing[i].name
                    &&& plan[i].data == existing[i].data
                    &&& plan[i].status == Status::Unchanged
                }
        },
{
}

/// What one more incoming file does to a plan. If an entry has its name, the
/// first such entry gets its data and every other entry stays as it is; if not,
/// it is appended behind the entries, which all stay as they are, unless its
/// name differs only in case from one of theirs.
pub proof fn one_more_file_changes_one_entry(
    existing: Seq<FileModel>,
    incoming: Seq<FileModel>,
    file: FileModel,
)
    ensures
        planned(existing, incoming) is None ==> planned(existing, incoming.push(file)) is None,
        planned(existing, incoming) matches Some(before) ==> {
            &&& forall|at: int|
                0 <= at < before.len() && (#[trigger] before[at]).name == file.name && (forall|k:
                    int| 0 <= k < at ==> (#[trigger] before[k]).name != file.name) ==> {
                    &&& planned(existing, incoming.push(file)) matches Some(after)
                    &&& after.len() == before.len()
                    &&& after[at].name == file.name
                    &&& after[at].data == file.data
                    &&& after[at].status == Status::Replaced
                    &&& forall|i: int|
                        0 <= i < before.len() && i != at ==> #[trigger] after[i] == before[i]
                }
            &&& (forall|k: int| 0 <= k < before.len() ==> (#[trigger] before[k]).name != file.name)
                ==> match planned(existing, incoming.push(file)) {
                Some(after) => {
                    &&& forall|k: int|
                        0 <= k < before.len() ==> !text::same_but_case(
                            (#[trigger] before[k]).name,
                            file.name,
                        )
                    &&& after.len() == before.len() + 1
                    &&& forall|i: int| 0 <= i < before.len() ==> #[trigger] after[i] == before[i]
                    &&& after.last().name == file.name
                    &&& after.last().data == file.data
                    &&& after.last().status == Status::Added
                },
                None => exists|k: int|
                    0 <= k < before.len() && text::same_but_case(
                        (#[trigger] before[k]).name,
                        file.name,
                    ),
            }
        },
{
    let more = incoming.push(file);
    assert(more.drop_last() =~= incoming);
    assert(more.last() == file);
    if let Some(before) = planned(existing, incoming) {
        let names = plan_names(before);
        names.index_of_first_ensures(file.name);
        lemma_with_file(before, file);
        assert forall|at: int|
            0 <= at < before.len() && (#[trigger] before[at]).name == file.name && (forall|k: int|
                0 <= k < at ==> (#[trigger] before[k]).name != file.name) implies {
            &&& planned(existing, more) matches Some(after)
            &&& after.len() == before.len()
            &&& after[at].name == file.name
            &&& after[at].data == file.data
            &&& after[at].status == Status::Replaced
            &&& forall|i: int| 0 <= i < before.len() && i != at ==> #[trigger] after[i] == before[i]
        } by {
            assert(names[at] == file.name);
            assert(names.contains(file.name));
            let first = names.index_of_first(file.name)->0;
            assert(names[first] == before[first].name);
            if at < first {
                assert(names[at] != file.name);
            }
        }
        if forall|k: int| 0 <= k < before.len() ==> (#[trigger] before[k]).name != file.name {
            if names.contains(file.name) {
                assert(before[names.index_of(file.name)].name == file.name);
            }
        }
    }
}

/// What an update comes to where the incoming names are distinct, entry by
/// entry. The first existing entry of an incoming name gets the incoming data.
/// Every other existing entry keeps its name, all of its data, its place, and is
/// unchanged. The incoming files of new names follow, in order.
pub proof fn an_update_keeps_what_it_does_not_replace(
    existing: Seq<FileModel>,
    incoming: Seq<FileModel>,
)
    requires
        forall|a: int, b: int|
            0 <= a < b < incoming.len() ==> (#[trigger] incoming[a]).name != (
            #[trigger] incoming[b]).name,
    ensures
        planned(existing, incoming) matches Some(plan) ==> {
            let new = incoming.filter(
                |file: FileModel|
                    forall|i: int|
                        0 <= i < existing.len() ==> (#[trigger] existing[i]).name != file.name,
            );
            &&& plan.len() == existing.len() + new.len()
            &&& forall|i: int|
                0 <= i < existing.len() ==> (#[trigger] plan[i]).name == existing[i].name
            &&& forall|i: int|
                0 <= i < existing.len() && ((forall|k: int|
                    0 <= k < incoming.len() ==> (#[trigger] incoming[k]).name != existing[i].name)
                    || (exists|j: int|
                    0 <= j < i && (#[trigger] existing[j]).name == existing[i].name)) ==> {
                    &&& (#[trigger] plan[i]).data == existing[i].data
                    &&& plan[i].status == Status::Unchanged
                }
            &&& forall|i: int, k: int|
                0 <= i < existing.len() && 0 <= k < incoming.len() && (
                #[trigger] incoming[k]).name == existing[i].name && (forall|j: int|
                    0 <= j < i ==> (#[trigger] existing[j]).name != existing[i].name) ==> {
                    &&& (#[trigger] plan[i]).data == incoming[k].data
                    &&& plan[i].status == Status::Replaced
                }
            &&& forall|j: int|
                0 <= j < new.len() ==> {
                    &&& plan[existing.len() + j].name == (#[trigger] new[j]).name
                    &&& plan[existing.len() + j].data == new[j].data
                    &&& plan[existing.len() + j].status == Status::Added
                }
        },
{
    let names = file_names(existing);
    let incoming_names = file_names(incoming);
    assert(incoming_names.no_duplicates()) by {
        assert forall|a: int, b: int|
            0 <= a < incoming.len() && 0 <= b < incoming.len() && a != b implies incoming_names[a]
            != incoming_names[b] by {
            assert(incoming[a].name != incoming[b].name);
        }
    }
    plan_replaces_in_place_and_appends(existing, incoming);
    plan_keeps_names_and_order(existing, incoming);
    lemma_new_files(existing, incoming);
    if let Some(plan) = planned(existing, incoming) {
        assert forall|i: int|
            0 <= i < existing.len() && ((forall|k: int|
                0 <= k < incoming.len() ==> (#[trigger] incoming[k]).name != existing[i].name) || (
            exists|j: int| 0 <= j < i && (#[trigger] existing[j]).name == existing[i].name)) implies {
            &&& (#[trigger] plan[i]).data == existing[i].data
            &&& plan[i].status == Status::Unchanged
        } by {
            assert forall|k: int| 0 <= k < incoming.len() implies names.index_of_first(
                (#[trigger] incoming[k]).name,
            ) != Some(i) by {
                names.index_of_first_ensures(incoming[k].name);
                if names.index_of_first(incoming[k].name) == Some(i) {
                    assert(names[i] == existing[i].name);
                    let j = choose|j: int|
                        0 <= j < i && (#[trigger] existing[j]).name == existing[i].name;
                    assert(names[j] == existing[j].name);
                }
            }
        }
        assert forall|i: int, k: int|
            0 <= i < existing.len() && 0 <= k < incoming.len() && (#[trigger] incoming[k]).name
                == existing[i].name && (forall|j: int|
                0 <= j < i ==> (#[trigger] existing[j]).name != existing[i].name) implies {
            &&& (#[trigger] plan[i]).data == incoming[k].data
            &&& plan[i].status == Status::Replaced
        } by {
            names.index_of_first_ensures(incoming[k].name);
            assert(names[i] == incoming[k].name);
            assert(names.contains(incoming[k].name));
            let first = names.index_of_first(incoming[k].name)->0;
            assert(names[first] == existing[first].name);
            if i < first {
                assert(names[i] != incoming[k].name);
            }
        }
    }
}

/// The incoming files of new names are those that no existing file has the
/// name of.
proof fn lemma_new_files(existing: Seq<FileModel>, incoming: Seq<FileModel>)
    ensures
        new_files(existing, incoming) == incoming.filter(
            |file: FileModel|
                forall|i: int|
                    0 <= i < existing.len() ==> (#[trigger] existing[i]).name != file.name,
        ),
    decreases incoming.len(),
{
    reveal(Seq::filter);
    if incoming.len() > 0 {
        let name = incoming.last().name;
        lemma_new_files(existing, incoming.drop_last());
        if file_names(existing).contains(name) {
            assert(existing[file_names(existing).index_of(name)].name == name);
        }
        if exists|i: int| 0 <= i < existing.len() && (#[trigger] existing[i]).name == name {
            let i = choose|i: int| 0 <= i < existing.len() && (#[trigger] existing[i]).name == name;
            assert(file_names(existing)[i] == name);
        }
    }
}

/// A plan that is refused for some of the incoming files is refused for all of
/// them.
proof fn lemma_refusal_stays(existing: Seq<FileModel>, incoming: Seq<FileModel>, count: int)
    requires
        0 <= count <= incoming.len(),
        planned(existing, incoming.take(count)) is None,
    ensures
        planned(existing, incoming) is None,
    decreases incoming.len() - count,
{
    if count < incoming.len() {
        one_more_file_changes_one_entry(existing, incoming.take(count), incoming[count]);
        assert(incoming.take(count).push(incoming[count]) =~= incoming.take(count + 1));
        lemma_refusal_stays(existing, incoming, count + 1);
    } else {
        assert(incoming.take(count) =~= incoming);
    }
}

/// A conflict names an incoming file, and the first entry whose name differs
/// from its name only in case, among those that are planned by then; none of
/// these has the very name. There is then no plan.
pub proof fn a_conflict_is_about_case_alone(
    existing: Seq<FileModel>,
    incoming: Seq<FileModel>,
    conflict: NameConflict,
)
    requires
        first_conflict(existing, incoming, conflict),
    ensures
        planned(existing, incoming) is None,
        conflict.name@ != conflict.conflict@,
        text::same_but_case(conflict.conflict@, conflict.name@),
        exists|k: int, at: int|
            #![trigger incoming[k], planned(existing, incoming.take(k))->0[at]]
            {
                &&& 0 <= k < incoming.len()
                &&& incoming[k].name == conflict.name@
                &&& planned(existing, incoming.take(k)) matches Some(plan)
                &&& 0 <= at < plan.len()
                &&& plan[at].name == conflict.conflict@
                &&& forall|j: int|
                    0 <= j < plan.len() ==> (#[trigger] plan[j]).name != conflict.name@
                &&& forall|j: int|
                    0 <= j < at ==> !text::same_but_case(
                        (#[trigger] plan[j]).name,
                        conflict.name@,
                    )
            },
{
    let k = choose|k: int|
        {
            &&& 0 <= k < incoming.len()
            &&& (#[trigger] incoming[k]).name == conflict.name@
            &&& planned(existing, incoming.take(k)) matches Some(plan)
            &&& with_file(plan, incoming[k]) is None
            &&& select::resolve(plan_names(plan), incoming[k].name) matches Some(index)
            &&& conflict.conflict@ == plan[index].name
        };
    let plan = planned(existing, incoming.take(k))->0;
    let names = plan_names(plan);
    let name = incoming[k].name;
    let same = names.map_values(|stored: Seq<char>| text::same_but_case(stored, name));
    same.index_of_first_ensures(true);
    let at = select::resolve(names, name)->0;
    assert(same[at]);
    assert forall|j: int| 0 <= j < at implies !text::same_but_case(
        (#[trigger] plan[j]).name,
        conflict.name@,
    ) by {
        assert(!same[j]);
    }
    lemma_with_file(plan, incoming[k]);
    assert forall|j: int| 0 <= j < plan.len() implies (#[trigger] plan[j]).name
        != conflict.name@ by {
        assert(names[j] == plan[j].name);
    }
    assert(planned(existing, incoming.take(k))->0[at].name == conflict.conflict@);
    assert(incoming.take(k + 1).drop_last() =~= incoming.take(k));
    lemma_refusal_stays(existing, incoming, k + 1);
}

/// Removing files of repeated names keeps the order: what is kept stands in
/// the order in which the names first come. Files of distinct names are given
/// back as they are.
pub proof fn deduplication_keeps_the_order(files: Seq<FileModel>)
    ensures
        forall|i: int, j: int|
            #![trigger deduped(files)[i], deduped(files)[j]]
            0 <= i < j < deduped(files).len() ==> {
                let names = files.map_values(|file: FileModel| file.name);
                &&& names.index_of_first(deduped(files)[i].name) matches Some(first)
                &&& names.index_of_first(deduped(files)[j].name) matches Some(second)
                &&& first < second
            },
        (forall|a: int, b: int|
            0 <= a < b < files.len() ==> (#[trigger] files[a]).name != (#[trigger] files[b]).name)
            ==> deduped(files) == files,
    decreases files.len(),
{
    let names = files.map_values(|file: FileModel| file.name);
    assert(names =~= file_names(files));
    first_of_each_name_is_kept(files);
    if files.len() > 0 {
        let fewer = files.drop_last();
        let fewer_names = fewer.map_values(|file: FileModel| file.name);
        let kept = deduped(fewer);
        assert(fewer_names =~= file_names(fewer));
        deduplication_keeps_the_order(fewer);
        first_of_each_name_is_kept(fewer);
        assert forall|i: int| 0 <= i < kept.len() implies names.index_of_first(
            (#[trigger] kept[i]).name,
        ) == fewer_names.index_of_first(kept[i].name) by {
            let name = kept[i].name;
            fewer_names.index_of_first_ensures(name);
            names.index_of_first_ensures(name);
            assert(file_names(kept)[i] == name);
            assert(fewer_names.contains(name));
            let first = fewer_names.index_of_first(name)->0;
            assert(names[first] == name);
            assert(names.contains(name));
            assert forall|k: int| 0 <= k < first implies names[k] != name by {
                assert(fewer_names[k] == names[k]);
            }
        }
        assert forall|i: int, j: int|
            #![trigger deduped(files)[i], deduped(files)[j]]
            0 <= i < j < deduped(files).len() implies {
            &&& names.index_of_first(deduped(files)[i].name) matches Some(first)
            &&& names.index_of_first(deduped(files)[j].name) matches Some(second)
            &&& first < second
        } by {
            assert(deduped(files)[i] == kept[i]);
            fewer_names.index_of_first_ensures(kept[i].name);
            if j < kept.len() {
                assert(deduped(files)[j] == kept[j]);
            } else {
                let name = files.last().name;
                assert(deduped(files)[j] == files.last());
                names.index_of_first_ensures(name);
                assert(names[files.len() - 1] == name);
                assert(names.contains(name));
                assert(!file_names(fewer).contains(name));
                let second = names.index_of_first(name)->0;
                if second < fewer.len() {
                    assert(file_names(fewer)[second] == name);
                }
            }
        }
        if forall|a: int, b: int|
            0 <= a < b < files.len() ==> (#[trigger] files[a]).name != (#[trigger] files[b]).name {
            assert forall|a: int, b: int| 0 <= a < b < fewer.len() implies (
            #[trigger] fewer[a]).name != (#[trigger] fewer[b]).name by {
                assert(files[a].name != files[b].name);
            }
            if file_names(kept).contains(files.last().name) {
                let i = file_names(kept).index_of(files.last().name);
                assert(kept[i].name == files[files.len() - 1].name);
                assert(files[i] == kept[i]);
            }
            assert(deduped(files) =~= files);
        }
    }
}

/// One more file is kept, behind those that are kept without it, exactly if
/// none of the files before it has its name; otherwise it changes nothing.
pub proof fn a_repeated_name_is_dropped(files: Seq<FileModel>, file: FileModel)
    ensures
        deduped(Seq::empty()) == Seq::<FileModel>::empty(),
        (exists|i: int| 0 <= i < files.len() && (#[trigger] files[i]).name == file.name) ==> deduped(
            files.push(file),
        ) == deduped(files),
        (forall|i: int| 0 <= i < files.len() ==> (#[trigger] files[i]).name != file.name) ==> deduped(
            files.push(file),
        ) == deduped(files).push(file),
{
    let names = file_names(files);
    assert(files.push(file).drop_last() =~= files);
    first_of_each_name_is_kept(files);
    if exists|i: int| 0 <= i < files.len() && (#[trigger] files[i]).name == file.name {
        let i = choose|i: int| 0 <= i < files.len() && (#[trigger] files[i]).name == file.name;
        assert(names[i] == file.name);
        assert(file_names(deduped(files)).contains(file.name));
    } else {
        if names.contains(file.name) {
            assert(files[names.index_of(file.name)].name == file.name);
        }
        assert(!file_names(deduped(files)).contains(file.name));
    }
}

/// What a list of planned entries stands for: each entry with its name, its
/// data and its status, in order. It is stored with the bytes of its name,
/// followed by NULs, and with its data.
pub proof fn a_plan_stands_for_its_entries(plan: Seq<(String, Vec<u8>, Status)>)
    ensures
        plan_models(plan).len() == plan.len(),
        plan_names(plan_models(plan)).len() == plan.len(),
        plan_files(plan_models(plan)).len() == plan.len(),
        plan_stored(plan_models(plan)).len() == plan.len(),
        forall|i: int|
            0 <= i < plan.len() ==> {
                &&& (#[trigger] plan_models(plan)[i]).name == plan[i].0@
                &&& plan_models(plan)[i].data == plan[i].1@
                &&& plan_models(plan)[i].status == plan[i].2
            },
        forall|i: int|
            0 <= i < plan.len() ==> #[trigger] plan_names(plan_models(plan))[i] == plan[i].0@,
        forall|i: int|
            0 <= i < plan.len() ==> {
                &&& (#[trigger] plan_files(plan_models(plan))[i]).name == plan[i].0@
                &&& plan_files(plan_models(plan))[i].data == plan[i].1@
            },
        forall|i: int|
            0 <= i < plan.len() ==> {
                let bytes = encode_utf8(plan[i].0@);
                &&& (#[trigger] plan_stored(plan_models(plan))[i]).data == plan[i].1@
                &&& plan_stored(plan_models(plan))[i].field.len() == 12
                &&& forall|k: int|
                    0 <= k < 12 ==> #[trigger] plan_stored(plan_models(plan))[i].field[k] == if k
                        < bytes.len() {
                        bytes[k]
                    } else {
                        0
                    }
            },
{
}

/// A plan can be stored exactly if every name takes no more than twelve bytes
/// and none of them is NUL. Otherwise the error is about the first name that
/// cannot: that it is too long, or else that it contains a NUL.
pub proof fn the_first_name_that_does_not_fit_is_reported(plan: Seq<PlanModel>, error: Error)
    ensures
        names_are_valid(plan) <==> forall|i: int|
            0 <= i < plan.len() ==> encode_utf8((#[trigger] plan[i]).name).len() <= 12
                && !encode_utf8(plan[i].name).contains(0u8),
        first_invalid(plan, error) ==> exists|i: int|
            {
                &&& 0 <= i < plan.len()
                &&& match error {
                    Error::NameTooLong { name, max } => {
                        &&& encode_utf8((#[trigger] plan[i]).name).len() > 12
                        &&& name@ == plan[i].name
                        &&& max == 12
                    },
                    Error::NameContainsNull { name } => {
                        &&& encode_utf8(plan[i].name).len() <= 12
                        &&& encode_utf8(plan[i].name).contains(0u8)
                        &&& name@ == plan[i].name
                    },
                    _ => false,
                }
                &&& forall|k: int|
                    0 <= k < i ==> encode_utf8((#[trigger] plan[k]).name).len() <= 12
                        && !encode_utf8(plan[k].name).contains(0u8)
            },
{
    if names_are_valid(plan) {
        assert forall|i: int| 0 <= i < plan.len() implies encode_utf8(
            (#[trigger] plan[i]).name,
        ).len() <= 12 && !encode_utf8(plan[i].name).contains(0u8) by {
            assert(layout::valid_name(plan[i].name));
        }
    }
    if first_invalid(plan, error) {
        let i = choose|i: int|
            {
                &&& 0 <= i < plan.len()
                &&& writer::name_checked((#[trigger] plan[i]).name, Err(error))
                &&& names_are_valid(plan.take(i))
            };
        assert forall|k: int| 0 <= k < i implies encode_utf8((#[trigger] plan[k]).name).len() <= 12
            && !encode_utf8(plan[k].name).contains(0u8) by {
            assert(plan.take(i)[k] == plan[k]);
        }
        assert(plan[i].name == plan[i].name);
    }
}

/// How a planned entry is reported: its name, spaces up to the width of twelve,
/// the length of its data, and what happened to it if that is to be shown.
pub proof fn a_planned_entry_is_reported_in_full(entry: PlanModel, show_status: bool)
    ensures
        plan_listing(entry, show_status) == text::padded(entry.name, 12) + " "@ + text::decimal(
            entry.data.len(),
        ) + " bytes"@ + if show_status {
            match entry.status {
                Status::Unchanged => " unchanged"@,
                Status::Replaced => " replaced"@,
                Status::Added => " added"@,
            }
        } else {
            Seq::empty()
        },
{
    assert(extract::listing(entry.name, entry.data.len()) + Seq::<char>::empty()
        =~= extract::listing(entry.name, entry.data.len()));
}

/// Files and planned entries are found by their names.
pub proof fn entries_are_found_by_their_names(
    file: (String, Vec<u8>),
    entry: (String, Vec<u8>, Status),
)
    ensures
        Named::text(&file) == file.0@,
        Named::text(&entry) == entry.0@,
{
}

} // verus!
