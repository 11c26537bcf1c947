//! Extracting the entries of an archive, step by step.
//!
//! An [`Extraction`] selects the entries, and [`Steps`] decide what is to be
//! done with each of them; creating directories and files, and printing, is
//! left to their user.

#[allow(unused_imports)]
use crate::archive::{self, Archive};
use crate::error::Error;
#[allow(unused_imports)]
use crate::io::{Device, Read, Seek, Stream, Write};
#[allow(unused_imports)]
use crate::layout::EntryModel;
#[allow(unused_imports)]
use crate::select::{self, pick, Selection};
#[allow(unused_imports)]
use crate::text::{self, decimal_text, pad};
use std::path::{Component, Path};
use vstd::prelude::*;
use vstd::string::*;

verus! {

/// A part of a path.
#[derive(Debug, Clone, Copy, PartialEq, Eq, Structural)]
pub enum Part {
    /// A drive or a share.
    Prefix,
    /// The root directory.
    RootDir,
    /// The current directory, `.`.
    CurDir,
    /// The parent directory, `..`.
    ParentDir,
    /// The name of a file or a directory.
    Normal,
}

/// Whether a name is free of every character that some platform gives a
/// meaning in paths, and is not one of the two special directory names.
pub open spec fn is_plain(name: Seq<char>) -> bool {
    &&& name.len() > 0
    &&& !name.contains('/')
    &&& !name.contains('\\')
    &&& !name.contains(':')
    &&& name != "."@
    &&& name != ".."@
}

/// Whether the characters of `name` from `from` to `to` are a stretch between
/// slashes.
pub open spec fn is_stretch(name: Seq<char>, from: int, to: int) -> bool {
    &&& 0 <= from <= to <= name.len()
    &&& from == 0 || name[from - 1] == '/'
    &&& to == name.len() || name[to] == '/'
    &&& forall|i: int| from <= i < to ==> #[trigger] name[i] != '/'
}

/// Whether a path leads nowhere outside the directory that it is taken in: it
/// is not empty, does not start at the root, and has no `..` in it.
pub open spec fn stays_inside(name: Seq<char>) -> bool {
    &&& name.len() > 0
    &&& name[0] != '/'
    &&& forall|from: int, to: int| #[trigger]
        is_stretch(name, from, to) ==> name.subrange(from, to) != ".."@
}

/// Whether a path names something in the directory that it is taken in, and
/// not deeper: it stays inside, and only its first stretch is a name; another
/// one can only be empty or `.`.
pub open spec fn is_flat(name: Seq<char>) -> bool {
    &&& stays_inside(name)
    &&& forall|from: int, to: int| #[trigger]
        is_stretch(name, from, to) && from > 0 ==> from == to || name.subrange(from, to) == "."@
}

/// Whether a path names something in the directory that it is taken in, as far
/// as this is the same on each platform: it stays inside, and it is flat unless
/// it has a backslash, which separates directories on some platforms and
/// belongs to a name on others.
pub open spec fn is_contained(name: Seq<char>) -> bool {
    stays_inside(name) && (!name.contains('\\') ==> is_flat(name))
}

/// Whether a name can have these parts as a path, as far as it is the same on
/// each platform: a plain name is one normal part; `.` and `..` are the special
/// directories; a name that starts with a slash starts with something other
/// than a normal part; two plain names with a slash between them are two
/// normal parts; and a name that is just one normal part stays inside, and is
/// flat if it has no backslash.
pub open spec fn possible_parts(name: Seq<char>, parts: Seq<Part>) -> bool {
    &&& parts == seq![Part::Normal] ==> is_contained(name)
    &&& is_plain(name) ==> parts == seq![Part::Normal]
    &&& name == "."@ ==> parts == seq![Part::CurDir]
    &&& name == ".."@ ==> parts == seq![Part::ParentDir]
    &&& name.len() > 0 && name[0] == '/' ==> parts.len() > 0 && parts[0] != Part::Normal
    &&& forall|at: int|
        0 <= at < name.len() && #[trigger] name[at] == '/' && is_plain(name.take(at)) && is_plain(
            name.skip(at + 1),
        ) ==> parts == seq![Part::Normal, Part::Normal]
}

/// Calls `std::path::Path::components` on a name and gives the kind of each
/// component. The result depends on the platform's path syntax, so only what
/// is documented for each platform is said: how a backslash or a colon is
/// taken, and which parts a name has that [`possible_parts`] does not speak of,
/// is not.
#[verifier::external_body]
fn path_parts(name: &str) -> (parts: Vec<Part>)
    ensures
        possible_parts(name@, parts@),
{
    Path::new(name).components().map(
        |component|
            match component {
                Component::Prefix(_) => Part::Prefix,
                Component::RootDir => Part::RootDir,
                Component::CurDir => Part::CurDir,
                Component::ParentDir => Part::ParentDir,
                Component::Normal(_) => Part::Normal,
            },
    ).collect()
}

/// The line that reports an entry: its name, aligned, and its size.
pub open spec fn listing(name: Seq<char>, size: nat) -> Seq<char> {
    text::padded(name, 12) + " "@ + text::decimal(size) + " bytes"@
}

/// The line that reports an entry.
pub fn listing_line(name: &str, size: u64) -> (line: String)
    ensures
        line@ == listing(name@, size as nat),
{
    let mut line = pad(name, 12);
    line.append(" ");
    line.append(decimal_text(size).as_str());
    line.append(" bytes");
    line
}

/// What is to be done next in an extraction.
#[derive(Debug)]
pub enum Step {
    /// Print this line; nothing is written.
    List {
        /// The line that reports the entry.
        line: String,
    },
    /// Create the file of this name in the output directory, and pass it to
    /// [`Steps::write_entry`].
    Write {
        /// The index of the entry in the file table.
        index: usize,
        /// The archive's spelling of the entry's name.
        name: String,
    },
    /// Stop: the entry's name could lead out of the output directory.
    Refuse {
        /// The entry's name.
        name: String,
    },
    /// All entries are done.
    Done {
        /// How many entries were selected.
        count: usize,
    },
}

/// Whether `step` is what is to be done with the entry `name` of `size` bytes
/// at `index`, where `parts` are the parts of its name as a path.
pub open spec fn is_step_for(
    step: Step,
    name: Seq<char>,
    size: nat,
    index: int,
    parts: Seq<Part>,
    dry_run: bool,
) -> bool {
    if parts != seq![Part::Normal] {
        step matches Step::Refuse { name: refused } && refused@ == name
    } else if dry_run {
        step matches Step::List { line } && line@ == listing(name, size)
    } else {
        step matches Step::Write { index: at, name: under } && at == index && under@ == name
    }
}

/// A dry run writes nothing, and no entry is written under a name other than
/// the archive's, or under one that is known to lead out of the output
/// directory or deeper into it.
pub proof fn only_contained_names_are_written(
    step: Step,
    name: Seq<char>,
    size: nat,
    index: int,
    parts: Seq<Part>,
    dry_run: bool,
)
    requires
        possible_parts(name, parts),
        is_step_for(step, name, size, index, parts, dry_run),
    ensures
        step matches Step::Write { name: under, .. } ==> {
            &&& !dry_run
            &&& under@ == name
            &&& is_contained(under@)
        },
{
}

/// An entry is refused whose name is empty, starts with a slash, or has `..`
/// between slashes; and so is one whose name, without a backslash, has
/// something other than nothing or `.` after a slash, such as `A/B` or `A/B/C`.
pub proof fn names_that_lead_elsewhere_are_refused(
    step: Step,
    name: Seq<char>,
    size: nat,
    index: int,
    parts: Seq<Part>,
    dry_run: bool,
    from: int,
    to: int,
)
    requires
        possible_parts(name, parts),
        is_step_for(step, name, size, index, parts, dry_run),
        name.len() == 0 || name[0] == '/' || (is_stretch(name, from, to) && (name.subrange(
            from,
            to,
        ) == ".."@ || (!name.contains('\\') && from > 0 && from < to && name.subrange(from, to)
            != "."@))),
    ensures
        step matches Step::Refuse { name: refused } && refused@ == name,
{
}

/// Whatever its size, an entry whose name is one normal part is written where
/// this is no dry run, under its own name and index, and is listed, with its
/// name and its size, where it is one. Any other entry is refused by its name.
pub proof fn every_accepted_entry_is_written_or_listed(
    step: Step,
    name: Seq<char>,
    size: nat,
    index: int,
    parts: Seq<Part>,
    dry_run: bool,
)
    requires
        is_step_for(step, name, size, index, parts, dry_run),
    ensures
        parts.len() == 1 && parts[0] == Part::Normal && !dry_run ==> {
            &&& step matches Step::Write { index: at, name: under }
            &&& at == index
            &&& under@ == name
        },
        parts.len() == 1 && parts[0] == Part::Normal && dry_run ==> {
            &&& step matches Step::List { line }
            &&& line@ == text::padded(name, 12) + " "@ + text::decimal(size) + " bytes"@
        },
        !(parts.len() == 1 && parts[0] == Part::Normal) ==> (step matches Step::Refuse {
            name: refused,
        } && refused@ == name),
{
    if parts.len() == 1 && parts[0] == Part::Normal {
        assert(parts =~= seq![Part::Normal]);
    } else if parts == seq![Part::Normal] {
        assert(parts.len() == 1 && parts[0] == Part::Normal);
    }
}

/// An entry is listed by its name, spaces up to the width of twelve, and the
/// decimal notation of its size.
pub proof fn a_listing_shows_name_and_size(name: Seq<char>, size: nat)
    ensures
        listing(name, size) == text::padded(name, 12) + " "@ + text::decimal(size) + " bytes"@,
{
}

/// A path is not contained that is empty, starts at the root, or has `..` as
/// one of the stretches between its slashes; nor is one without a backslash
/// that ends in a name behind a slash.
pub proof fn paths_that_lead_elsewhere_are_not_contained(a: Seq<char>, b: Seq<char>)
    ensures
        !is_contained(Seq::empty()),
        !is_contained(seq!['/'] + b),
        !is_contained(seq!['.', '.']),
        !is_contained(seq!['.', '.', '/'] + b),
        !is_contained(a + seq!['/', '.', '.']),
        !is_contained(a + seq!['/', '.', '.', '/'] + b),
        b.len() > 0 && b != seq!['.'] && !b.contains('/') && !(a + seq!['/'] + b).contains('\\')
            ==> !is_contained(a + seq!['/'] + b),
{
    reveal_strlit("..");
    reveal_strlit(".");
    assert(".."@ =~= seq!['.', '.']);
    assert("."@ =~= seq!['.']);
    let up = seq!['.', '.'];
    assert((seq!['/'] + b)[0] == '/');
    assert(is_stretch(up, 0, 2));
    assert(up.subrange(0, 2) =~= up);
    let first = seq!['.', '.', '/'] + b;
    assert(first[2] == '/');
    assert(is_stretch(first, 0, 2));
    assert(first.subrange(0, 2) =~= up);
    let n = a.len() as int;
    let last = a + seq!['/', '.', '.'];
    assert(last[n] == '/');
    assert(is_stretch(last, n + 1, n + 3));
    assert(last.subrange(n + 1, n + 3) =~= up);
    let inner = a + seq!['/', '.', '.', '/'] + b;
    assert(inner[n] == '/');
    assert(inner[n + 3] == '/');
    assert(is_stretch(inner, n + 1, n + 3));
    assert(inner.subrange(n + 1, n + 3) =~= up);
    let deep = a + seq!['/'] + b;
    if b.len() > 0 && b != seq!['.'] && !b.contains('/') {
        assert(deep[n] == '/');
        assert forall|i: int| n + 1 <= i < deep.len() implies #[trigger] deep[i] != '/' by {
            assert(deep[i] == b[i - n - 1]);
        }
        assert(is_stretch(deep, n + 1, deep.len() as int));
        assert(deep.subrange(n + 1, deep.len() as int) =~= b);
    }
}

/// Decide what is to be done with the entry `name` of `size` bytes at
/// `index`, where `parts` are the parts of its name as a path.
///
/// Entry names come from the archive; a hand-crafted one can contain
/// anything. GRP names are flat 8.3 filenames, so exactly one ordinary part
/// is required (no separators, no `.` or `..`, not absolute) to keep writes
/// inside the output directory.
pub fn decide(name: &str, size: u64, index: usize, parts: &[Part], dry_run: bool) -> (step: Step)
    ensures
        is_step_for(step, name@, size as nat, index as int, parts@, dry_run),
{
    if parts.len() != 1 || parts[0] != Part::Normal {
        assert(seq![Part::Normal][0] == Part::Normal);
        return Step::Refuse { name: name.to_owned() };
    }
    assert(parts@ =~= seq![Part::Normal]);
    if dry_run {
        return Step::List { line: listing_line(name, size) };
    }
    Step::Write { index, name: name.to_owned() }
}

/// Why an entry was not extracted in full.
#[derive(Debug)]
pub enum WriteFailure {
    /// Reading the entry or writing its data failed.
    Failed(Error),
    /// The entry's data ended before its declared size.
    Truncated {
        /// The declared size.
        declared: u64,
        /// How many bytes there were.
        present: u64,
    },
}

/// Whether the selected entries `indices` are entries of `files`, each of them
/// once.
pub open spec fn are_entries(indices: Seq<int>, files: Seq<EntryModel>) -> bool {
    &&& indices.no_duplicates()
    &&& forall|i: int| 0 <= i < indices.len() ==> 0 <= #[trigger] indices[i] < files.len()
}

/// An extraction of selected entries from an archive that has not begun.
pub struct Extraction<R: Read + Seek> {
    archive: Archive<R>,
    selection: Selection,
    dry_run: bool,
}

impl<R: Read + Seek> Extraction<R> {
    /// The archive that is extracted from.
    pub closed spec fn archive(&self) -> Archive<R> {
        self.archive
    }

    /// The selected entries.
    pub closed spec fn indices(&self) -> Seq<int> {
        self.selection.indices@.map_values(|index: usize| index as int)
    }

    /// The warnings raised in selecting the entries.
    pub closed spec fn notes(&self) -> Seq<Seq<char>> {
        select::strings(self.selection.warnings@)
    }

    /// Whether entries are listed and nothing is written.
    pub closed spec fn is_dry_run(&self) -> bool {
        self.dry_run
    }

    /// Whether the archive is consistent and has every selected entry.
    pub open spec fn wf(&self) -> bool {
        self.archive().wf() && are_entries(self.indices(), self.archive().files())
    }

    /// Select the entries named in `only` from `archive`, or all of them (see
    /// [`pick`]).
    pub fn new(archive: Archive<R>, only: &[String], dry_run: bool) -> (result: Result<
        Self,
        Error,
    >)
        requires
            archive.wf(),
        ensures
            ({
                let stored = archive::names(archive.files());
                let requests = select::strings(only@);
                match result {
                    Ok(extraction) => {
                        &&& extraction.wf()
                        &&& extraction.archive() == archive
                        &&& select::all_resolve(stored, requests)
                        &&& extraction.indices() == select::chosen(stored, requests)
                        &&& extraction.notes() == select::notes(stored, requests)
                        &&& extraction.is_dry_run() == dry_run
                    },
                    Err(error) => {
                        &&& error matches Error::EntryNotFound { name }
                        &&& select::first_missing(stored, requests, name@)
                    },
                }
            }),
    {
        let entries = archive.entries();
        let ghost stored = archive::names(archive.files());
        proof {
            assert forall|k: int| 0 <= k < stored.len() implies stored[k] == #[trigger] select::texts(
                entries@,
            )[k] by {
                assert(archive::models(entries@)[k] == entries@[k]@);
            }
            assert(select::texts(entries@) =~= stored);
        }
        match pick(entries, only) {
            Ok(selection) => {
                proof {
                    select::picked_entries_exist_once(stored, select::strings(only@));
                }
                Ok(Extraction { archive, selection, dry_run })
            },
            Err(error) => Err(error),
        }
    }

    /// The warnings raised in selecting the entries.
    pub fn warnings(&self) -> (warnings: &[String])
        ensures
            select::strings(warnings@) == self.notes(),
    {
        self.selection.warnings.as_slice()
    }

    /// Begin the extraction. This gives the steps to be taken and whether the
    /// output directory has to be created before them, given whether it is
    /// there.
    ///
    /// In strict mode a warning is fatal: this gives the message to abort with,
    /// and there are no steps, so that nothing is created or written.
    pub fn begin(self, strict: bool, is_dir: bool) -> (result: Result<(Steps<R>, bool), String>)
        requires
            self.wf(),
        ensures
            match result {
                Ok((steps, creates_out_dir)) => {
                    &&& !strict || self.notes().len() == 0
                    &&& creates_out_dir == (!self.is_dry_run() && !is_dir)
                    &&& steps.wf()
                    &&& steps.archive() == self.archive()
                    &&& steps.indices() == self.indices()
                    &&& steps.is_dry_run() == self.is_dry_run()
                    &&& steps.position() == 0
                },
                Err(message) => {
                    &&& strict
                    &&& self.notes().len() > 0
                    &&& message@ == text::decimal(self.notes().len())
                        + " warning(s) raised; aborting in --strict mode"@
                },
            },
    {
        let count: usize = self.selection.warnings.len();
        if strict && count > 0 {
            let mut message = decimal_text(count as u64);
            message.append(" warning(s) raised; aborting in --strict mode");
            return Err(message);
        }
        let creates_out_dir = !self.dry_run && !is_dir;
        let steps = Steps {
            archive: self.archive,
            indices: self.selection.indices,
            next: 0,
            dry_run: self.dry_run,
        };
        Ok((steps, creates_out_dir))
    }
}

/// The steps of an extraction that has begun (see [`Extraction::begin`]).
pub struct Steps<R: Read + Seek> {
    archive: Archive<R>,
    indices: Vec<usize>,
    next: usize,
    dry_run: bool,
}

impl<R: Read + Seek> Steps<R> {
    /// The archive that is extracted from.
    pub closed spec fn archive(&self) -> Archive<R> {
        self.archive
    }

    /// The selected entries.
    pub closed spec fn indices(&self) -> Seq<int> {
        self.indices@.map_values(|index: usize| index as int)
    }

    /// How many of the selected entries have been dealt with.
    pub closed spec fn position(&self) -> nat {
        self.next as nat
    }

    /// Whether entries are listed and nothing is written.
    pub closed spec fn is_dry_run(&self) -> bool {
        self.dry_run
    }

    /// Whether the archive is consistent and has every selected entry.
    pub open spec fn wf(&self) -> bool {
        &&& self.archive().wf()
        &&& self.position() <= self.indices().len()
        &&& are_entries(self.indices(), self.archive().files())
    }

    /// Whether `next` is about the same entries of the same archive.
    pub open spec fn same_work(&self, next: &Self) -> bool {
        &&& next.archive().files() == self.archive().files()
        &&& next.archive().fields() == self.archive().fields()
        &&& next.indices() == self.indices()
        &&& next.is_dry_run() == self.is_dry_run()
    }

    /// What is to be done next: the selected entries are dealt with one after
    /// the other, up to the first whose name is refused.
    pub fn next_step(&mut self) -> (step: Step)
        requires
            old(self).wf(),
        ensures
            final(self).wf(),
            old(self).same_work(final(self)),
            final(self).archive() == old(self).archive(),
            old(self).position() == old(self).indices().len() ==> {
                &&& step == Step::Done { count: old(self).indices().len() as usize }
                &&& final(self).position() == old(self).position()
            },
            old(self).position() < old(self).indices().len() ==> {
                let index = old(self).indices()[old(self).position() as int];
                let entry = old(self).archive().files()[index];
                &&& exists|parts: Seq<Part>|
                    #[trigger] possible_parts(entry.name, parts) && is_step_for(
                        step,
                        entry.name,
                        entry.size,
                        index,
                        parts,
                        old(self).is_dry_run(),
                    )
                &&& step matches Step::Write { name, .. } ==> is_contained(name@)
                &&& !is_contained(entry.name) ==> step is Refuse
                &&& is_plain(entry.name) ==> step !is Refuse
                &&& entry.name.len() > 0 && !entry.name.contains('/') && !entry.name.contains('\\')
                    && !entry.name.contains(':') && entry.name != "."@ && entry.name != ".."@ ==> {
                    if old(self).is_dry_run() {
                        &&& step matches Step::List { line }
                        &&& line@ == text::padded(entry.name, 12) + " "@ + text::decimal(
                            entry.size,
                        ) + " bytes"@
                    } else {
                        &&& step matches Step::Write { index: at, name }
                        &&& at == index
                        &&& name@ == entry.name
                    }
                }
                &&& entry.name.len() == 0 || entry.name[0] == '/' || entry.name == "."@
                    || entry.name == ".."@ ==> step is Refuse
                &&& step is List ==> old(self).is_dry_run()
                &&& step is Write ==> !old(self).is_dry_run()
                &&& step !is Done
                &&& final(self).position() == if step is Refuse {
                    old(self).position()
                } else {
                    old(self).position() + 1
                }
            },
    {
        let count: usize = self.indices.len();
        if self.next >= count {
            return Step::Done { count };
        }
        let index: usize = self.indices[self.next];
        proof {
            assert(self.indices()[self.next as int] == index);
            assert(index < self.archive().files().len());
        }
        let entries = self.archive.entries();
        assert(archive::models(entries@)[index as int] == entries@[index as int]@);
        let entry = &entries[index];
        let parts = path_parts(entry.name());
        let step = decide(entry.name(), entry.size(), index, parts.as_slice(), self.dry_run);
        match &step {
            Step::Refuse { .. } => {},
            _ => {
                self.next = self.next + 1;
            },
        }
        step
    }

    /// Write the entry at `index` to `out`, and return the line that reports
    /// it. An entry whose data runs short of its declared size is reported as
    /// truncated.
    pub fn write_entry<W: Write>(&mut self, index: usize, out: &mut W) -> (result: Result<
        String,
        WriteFailure,
    >)
        requires
            old(self).wf(),
            index < old(self).archive().files().len(),
            (*old(out)).wf(),
        ensures
            final(self).wf(),
            (*final(out)).wf(),
            old(self).same_work(final(self)),
            final(self).position() == old(self).position(),
            ({
                let entry = old(self).archive().files()[index as int];
                let copied: Result<u64, Error> = match result {
                    Ok(_) => Ok(entry.size as u64),
                    Err(WriteFailure::Failed(error)) => Err(error),
                    Err(WriteFailure::Truncated { present, .. }) => Ok(present),
                };
                &&& Archive::extracts(
                    &old(self).archive(),
                    index,
                    (*old(out)).device(),
                    copied,
                    final(self).archive().reader().device(),
                    (*final(out)).device(),
                )
                &&& match result {
                    Ok(line) => line@ == listing(entry.name, entry.size),
                    Err(WriteFailure::Failed(error)) => error is Io,
                    Err(WriteFailure::Truncated { declared, present }) => {
                        &&& declared == entry.size
                        &&& present < declared
                    },
                }
            }),
    {
        let entries = self.archive.entries();
        assert(archive::models(entries@)[index as int] == entries@[index as int]@);
        let size: u64 = entries[index].size();
        let line = listing_line(entries[index].name(), size);
        match self.archive.extract(index, out) {
            Ok(written) => {
                if written != size {
                    return Err(WriteFailure::Truncated { declared: size, present: written });
                }
                Ok(line)
            },
            Err(error) => Err(WriteFailure::Failed(error)),
        }
    }
}

impl<R: Read + Seek> Steps<R> {
    /// What is done to one entry leaves the work what it is: the same entries of
    /// the same archive, in the same order, and a dry run stays one.
    pub proof fn the_work_stays_the_same(&self, next: &Self)
        requires
            self.same_work(next),
        ensures
            next.indices() == self.indices(),
            next.archive().files() == self.archive().files(),
            next.archive().fields() == self.archive().fields(),
            next.is_dry_run() == self.is_dry_run(),
    {
    }
}

/// Selected entries are entries of the archive, each selected once.
pub proof fn selected_entries_exist_once(
    indices: Seq<int>,
    files: Seq<EntryModel>,
    i: int,
    j: int,
)
    requires
        are_entries(indices, files),
        0 <= i < j < indices.len(),
    ensures
        0 <= indices[i] < files.len(),
        0 <= indices[j] < files.len(),
        indices[i] != indices[j],
{
}

} // verus!
