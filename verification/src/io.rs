//! Byte streams: the traits an archive is read from and written to, and the
//! model that their contracts speak of.
//!
//! Every stream is seen as a [`Device`]: a sequence of bytes with a position
//! in it, together with a record of what the stream has been asked to do. The
//! traits [`Read`], [`Seek`] and [`Write`] state each operation as a relation
//! between the device before and the device after. They leave a stream free
//! to fail, to deliver less than was asked for, and to be interrupted; a
//! stream that does none of that is called *sound*.

use vstd::prelude::*;
use vstd::slice::slice_subrange;

verus! {

/// How many bytes are moved at a time where a whole stream is read.
pub const CHUNK: usize = 4096;

/// What went wrong in an I/O operation, as far as this crate tells it apart.
#[derive(Debug, Clone, Copy, PartialEq, Eq, Structural)]
pub enum IoErrorKind {
    /// The stream ended before the requested number of bytes was read.
    UnexpectedEof,
    /// An argument was not acceptable, such as a position before the start.
    InvalidInput,
    /// The operation was interrupted and can be tried again.
    Interrupted,
    /// A write accepted no bytes.
    WriteZero,
    /// Any other failure.
    Other,
}

/// A failed I/O operation: its kind, and a text that describes it.
#[derive(Debug, Clone, PartialEq, Eq)]
pub struct IoError {
    /// The kind of failure.
    pub kind: IoErrorKind,
    /// A description of the failure.
    pub message: String,
}

impl IoError {
    /// An error of the given kind and description.
    pub fn new(kind: IoErrorKind, message: &str) -> (error: Self)
        ensures
            error.kind == kind,
            error.message@ == message@,
    {
        IoError { kind, message: message.to_owned() }
    }

    /// The kind of failure.
    pub fn kind(&self) -> (kind: IoErrorKind)
        ensures
            kind == self.kind,
    {
        self.kind
    }
}

/// A position to seek to.
#[derive(Debug, Clone, Copy, PartialEq, Eq, Structural)]
pub enum SeekFrom {
    /// This many bytes after the start.
    Start(u64),
    /// This many bytes after the end.
    End(i64),
    /// This many bytes after the current position.
    Current(i64),
}

impl SeekFrom {
    /// The position that is meant, in a stream of `len` bytes positioned at
    /// `pos`. It can lie before the start of the stream or past its end.
    pub open spec fn target(self, len: nat, pos: nat) -> int {
        match self {
            SeekFrom::Start(offset) => offset as int,
            SeekFrom::End(offset) => len + offset,
            SeekFrom::Current(offset) => pos + offset,
        }
    }
}

/// The failures of a stream that is otherwise without flaw.
///
/// Such a stream reports each of these with the error that is given here, and
/// carries out everything else in full.
#[verifier::ext_equal]
pub struct Faults {
    /// The positions at which reads fail.
    pub reads: Set<nat>,
    /// The positions at which reads give no bytes, as if the stream ended.
    pub zero_reads: Set<nat>,
    /// The positions at which writes fail.
    pub writes: Set<nat>,
    /// Whether seeks from the start fail.
    pub start_seeks: bool,
    /// Whether seeks from the end fail.
    pub end_seeks: bool,
    /// Whether seeks by zero bytes from the current position fail.
    pub position_seeks: bool,
    /// Whether flushing fails.
    pub flush: bool,
    /// The kind of error that a failure is reported with.
    pub kind: IoErrorKind,
    /// The description that a failure is reported with.
    pub message: Seq<char>,
}

impl Faults {
    /// No failures at all.
    pub open spec fn none() -> Faults {
        Faults {
            reads: Set::empty(),
            zero_reads: Set::empty(),
            writes: Set::empty(),
            start_seeks: false,
            end_seeks: false,
            position_seeks: false,
            flush: false,
            kind: IoErrorKind::Other,
            message: Seq::empty(),
        }
    }

    /// Whether nothing fails.
    pub open spec fn are_none(self) -> bool {
        self == (Faults { kind: self.kind, message: self.message, ..Faults::none() })
    }

    /// The failures that are seen in reading the `size` bytes from `start` on,
    /// by their positions there.
    pub open spec fn within(self, start: nat, size: nat) -> Faults {
        Faults {
            reads: Set::new(|at: nat| at < size && self.reads.contains(start + at)),
            zero_reads: Set::new(|at: nat| at < size && self.zero_reads.contains(start + at)),
            kind: self.kind,
            message: self.message,
            ..Faults::none()
        }
    }

    /// Whether a seek to `to` fails.
    pub open spec fn seek_fails(self, to: SeekFrom) -> bool {
        match to {
            SeekFrom::Start(_) => self.start_seeks,
            SeekFrom::End(_) => self.end_seeks,
            SeekFrom::Current(offset) => self.position_seeks && offset == 0,
        }
    }

    /// Whether no read that starts at or after `from` and before `to` is
    /// hindered.
    pub open spec fn clear(self, from: nat, to: nat) -> bool {
        forall|at: nat|
            from <= at < to ==> !#[trigger] self.reads.contains(at)
                && !self.zero_reads.contains(at)
    }

    /// Whether no write that starts at or after `from` and before `to` fails.
    pub open spec fn takes(self, from: nat, to: nat) -> bool {
        forall|at: nat| from <= at < to ==> !#[trigger] self.writes.contains(at)
    }

    /// What is not hindered in the stream is not hindered in the part.
    pub proof fn lemma_within(self, start: nat, size: nat)
        requires
            self.clear(start, start + size),
        ensures
            self.within(start, size).clear(0, size + 1),
    {
        let part = self.within(start, size);
        assert forall|at: nat| 0 <= at < size + 1 implies !#[trigger] part.reads.contains(at)
            && !part.zero_reads.contains(at) by {
            if at < size {
                assert(!self.reads.contains(start + at));
            }
        }
    }

    /// Whether `error` is what a failure is reported with. It is not an
    /// interruption, which would not stop anything.
    pub open spec fn is_forced(self, error: IoError) -> bool {
        &&& error.kind == self.kind
        &&& error.message@ == self.message
        &&& error.kind != IoErrorKind::Interrupted
    }
}

/// What a stream is, and what has happened to it.
pub struct Device {
    /// The bytes that the stream holds.
    pub bytes: Seq<u8>,
    /// The position of the next read or write.
    pub pos: nat,
    /// Whether every operation that can be carried out is carried out.
    pub sound: bool,
    /// How many more times the stream can report an interrupted operation.
    pub interrupts: nat,
    /// If it is known how the stream fails: these are its failures, and all
    /// else is carried out in full.
    pub exact: Option<Faults>,
    /// The errors that the stream has reported, in order.
    pub failures: Seq<IoError>,
    /// The seeks that the stream has been asked for, in order.
    pub seeks: Seq<SeekFrom>,
    /// The end of the furthest byte that a read has asked for.
    pub reach: nat,
    /// Whether nothing that was written is still held back.
    pub flushed: bool,
}

/// What has happened to a stream.
pub struct Log {
    /// The errors that the stream has reported, in order.
    pub failures: Seq<IoError>,
    /// The seeks that the stream has been asked for, in order.
    pub seeks: Seq<SeekFrom>,
    /// The end of the furthest byte that a read has asked for.
    pub reach: nat,
    /// Whether nothing that was written is still held back.
    pub flushed: bool,
}

impl Log {
    /// Nothing has happened.
    pub open spec fn empty() -> Log {
        Log { failures: Seq::empty(), seeks: Seq::empty(), reach: 0, flushed: true }
    }

    /// The record with one more failure.
    pub open spec fn failed(self, error: IoError) -> Log {
        Log { failures: self.failures.push(error), ..self }
    }

    /// The record with one more seek.
    pub open spec fn sought(self, to: SeekFrom) -> Log {
        Log { seeks: self.seeks.push(to), ..self }
    }

    /// The record with one more read, of `count` bytes at `pos`.
    pub open spec fn asked(self, pos: nat, count: nat) -> Log {
        Log { reach: Device::asked(self.reach, pos, count), ..self }
    }

    /// The record with something held back, or with nothing held back.
    pub open spec fn with_flushed(self, flushed: bool) -> Log {
        Log { flushed, ..self }
    }
}

impl Device {
    /// A stream without flaw over `bytes`, positioned at their start, to which
    /// nothing has happened.
    pub open spec fn fresh(bytes: Seq<u8>) -> Device {
        Device {
            bytes,
            pos: 0,
            sound: true,
            interrupts: 0,
            exact: Some(Faults::none()),
            failures: Seq::empty(),
            seeks: Seq::empty(),
            reach: 0,
            flushed: true,
        }
    }

    /// How far reads have reached after one of `count` bytes at `pos`.
    pub open spec fn asked(reach: nat, pos: nat, count: nat) -> nat {
        if count > 0 && pos + count > reach {
            pos + count
        } else {
            reach
        }
    }

    /// The part of `bytes` that starts at `from` and is `count` bytes long, or
    /// as much of it as there is.
    pub open spec fn window(bytes: Seq<u8>, from: int, count: int) -> Seq<u8> {
        if from >= bytes.len() {
            Seq::empty()
        } else if from + count >= bytes.len() {
            bytes.skip(from)
        } else {
            bytes.subrange(from, from + count)
        }
    }

    /// `bytes` with `data` written over it from position `at` on. A gap
    /// before the data is filled with zeros.
    pub open spec fn overwrite(bytes: Seq<u8>, at: int, data: Seq<u8>) -> Seq<u8>
        recommends
            0 <= at,
    {
        if data.len() == 0 {
            bytes
        } else if at > bytes.len() {
            bytes + Seq::new((at - bytes.len()) as nat, |i: int| 0u8) + data
        } else if at + data.len() >= bytes.len() {
            bytes.take(at) + data
        } else {
            bytes.take(at) + data + bytes.skip(at + data.len())
        }
    }

    /// Whether `next` can be what becomes of `self`: it is of the same kind,
    /// its interruptions have only been used up, and what has happened so far
    /// is still on record.
    pub open spec fn continues_as(self, next: Device) -> bool {
        &&& next.sound == self.sound
        &&& next.exact == self.exact
        &&& next.interrupts <= self.interrupts
        &&& self.failures.is_prefix_of(next.failures)
        &&& self.seeks.is_prefix_of(next.seeks)
        &&& self.reach <= next.reach
    }

    /// The error that stopped the work done between `self` and `next`: the
    /// last one reported, unless that was an interruption, which is retried.
    pub open spec fn fault(self, next: Device) -> Option<IoError> {
        if next.failures.len() > self.failures.len() && next.failures.last().kind
            != IoErrorKind::Interrupted {
            Some(next.failures.last())
        } else {
            None
        }
    }

    /// Whether `error` is the last one reported between `self` and `next`.
    pub open spec fn reported(self, error: IoError, next: Device) -> bool {
        next.failures.len() > self.failures.len() && next.failures.last() == error
    }

    /// Whether `next` is what an operation that failed with `error` leaves:
    /// nothing but the record of failures has changed.
    pub open spec fn failed_with(self, error: IoError, next: Device) -> bool {
        &&& !self.sound
        &&& !next.sound
        &&& next.bytes == self.bytes
        &&& next.pos == self.pos
        &&& next.exact == self.exact
        &&& next.failures == self.failures.push(error)
        &&& next.interrupts <= self.interrupts
        &&& next.flushed == self.flushed
        &&& error.kind == IoErrorKind::Interrupted ==> next.interrupts < self.interrupts
    }

    /// One read into a buffer that is `old_buf` before and `buf` afterwards.
    pub open spec fn reads(
        self,
        result: Result<usize, IoError>,
        old_buf: Seq<u8>,
        buf: Seq<u8>,
        next: Device,
    ) -> bool {
        &&& next.seeks == self.seeks
        &&& next.reach == Device::asked(self.reach, self.pos, buf.len())
        &&& match result {
            Ok(count) => {
                &&& count <= buf.len()
                &&& buf.take(count as int) == Device::window(
                    self.bytes,
                    self.pos as int,
                    count as int,
                )
                &&& self.sound && buf.len() > 0 && self.pos < self.bytes.len() ==> count > 0
                &&& next.bytes == self.bytes
                &&& next.pos == self.pos + count
                &&& next.failures == self.failures
                &&& next.sound == self.sound
                &&& next.exact == self.exact
                &&& next.flushed == self.flushed
                &&& next.interrupts <= self.interrupts
                &&& self.exact matches Some(faults) ==> {
                    &&& buf.skip(count as int) == old_buf.skip(count as int)
                    &&& buf.len() > 0 ==> !faults.reads.contains(self.pos)
                    &&& count == if faults.zero_reads.contains(self.pos) {
                        0
                    } else {
                        Device::window(self.bytes, self.pos as int, buf.len() as int).len()
                    }
                }
            },
            Err(error) => {
                &&& self.failed_with(error, next)
                &&& self.exact matches Some(faults) ==> {
                    &&& buf == old_buf
                    &&& faults.reads.contains(self.pos)
                    &&& faults.is_forced(error)
                }
            },
        }
    }

    /// A read that is repeated until it has filled a buffer, which is `buf`
    /// afterwards.
    pub open spec fn reads_exactly(
        self,
        result: Result<(), IoError>,
        buf: Seq<u8>,
        next: Device,
    ) -> bool {
        let want = buf.len();
        &&& self.continues_as(next)
        &&& next.bytes == self.bytes
        &&& next.seeks == self.seeks
        &&& next.flushed == self.flushed
        &&& next.reach == Device::asked(self.reach, self.pos, want)
        &&& self.pos <= next.pos <= self.pos + want
        &&& self.pos < next.pos ==> next.pos <= self.bytes.len()
        &&& match result {
            Ok(()) => {
                &&& buf == Device::window(self.bytes, self.pos as int, want as int)
                &&& next.pos == self.pos + want
                &&& self.fault(next) is None
            },
            Err(error) => {
                &&& next.pos < self.pos + want
                &&& match self.fault(next) {
                    Some(reported) => !self.sound && error == reported,
                    None => {
                        &&& error.kind == IoErrorKind::UnexpectedEof
                        &&& error.message@ == "failed to fill whole buffer"@
                        &&& self.sound ==> next.pos >= self.bytes.len()
                    },
                }
            },
        }
        &&& self.exact matches Some(faults) ==> want > 0 ==> match Probe::of(
            self.bytes,
            faults,
            self.pos,
            want,
        ) {
            Probe::Whole => result is Ok,
            Probe::Ended(end) => {
                &&& result matches Err(error)
                &&& error.kind == IoErrorKind::UnexpectedEof
                &&& self.fault(next) is None
                &&& next.pos == end
            },
            Probe::Failed(at) => {
                &&& result matches Err(error)
                &&& faults.is_forced(error)
                &&& self.fault(next) == Some(error)
                &&& next.pos == at
            },
        }
    }

    /// A read that is repeated until the stream delivers nothing more; `data`
    /// is what it delivered.
    pub open spec fn reads_to_end(
        self,
        result: Result<usize, IoError>,
        data: Seq<u8>,
        next: Device,
    ) -> bool {
        &&& self.continues_as(next)
        &&& next.bytes == self.bytes
        &&& next.seeks == self.seeks
        &&& next.flushed == self.flushed
        &&& next.pos == self.pos + data.len()
        &&& data == Device::window(self.bytes, self.pos as int, data.len() as int)
        &&& match result {
            Ok(count) => {
                &&& count == data.len()
                &&& self.fault(next) is None
                &&& self.sound ==> next.pos >= self.bytes.len()
            },
            Err(error) => !self.sound && self.fault(next) == Some(error),
        }
        &&& self.exact matches Some(faults) ==> {
            &&& faults.reads.contains(self.pos) ==> data.len() == 0 && (result matches Err(error)
                && faults.is_forced(error))
            &&& !faults.reads.contains(self.pos) && faults.zero_reads.contains(self.pos)
                ==> data.len() == 0 && result is Ok
            &&& faults.clear(self.pos, self.bytes.len() + 1) && self.pos
                <= self.bytes.len() ==> result is Ok && next.pos == self.bytes.len()
        }
    }

    /// One seek.
    pub open spec fn seeks_to(
        self,
        to: SeekFrom,
        result: Result<u64, IoError>,
        next: Device,
    ) -> bool {
        let target = to.target(self.bytes.len(), self.pos);
        &&& next.bytes == self.bytes
        &&& next.seeks == self.seeks.push(to)
        &&& next.sound == self.sound
        &&& next.exact == self.exact
        &&& next.reach == self.reach
        &&& next.flushed == self.flushed
        &&& match result {
            Ok(pos) => {
                &&& target >= 0
                &&& target <= u64::MAX ==> pos == target
                &&& next.pos == pos
                &&& next.failures == self.failures
                &&& next.interrupts <= self.interrupts
                &&& self.exact matches Some(faults) ==> !faults.seek_fails(to)
            },
            Err(error) => {
                &&& self.sound ==> !(0 <= target <= u64::MAX)
                &&& next.pos == self.pos
                &&& next.failures == self.failures.push(error)
                &&& next.interrupts <= self.interrupts
                &&& error.kind == IoErrorKind::Interrupted ==> next.interrupts < self.interrupts
                &&& self.exact matches Some(faults) ==> {
                    &&& 0 <= target <= u64::MAX ==> faults.seek_fails(to)
                    &&& faults.seek_fails(to) ==> faults.is_forced(error)
                }
            },
        }
    }

    /// Whether writing `count` bytes ends where the stream can end. Only a
    /// stream that is positioned past its end can be unable to take them.
    pub open spec fn has_room(self, count: nat) -> bool {
        self.pos <= self.bytes.len() || self.pos + count <= usize::MAX
    }

    /// One write of the bytes `data`.
    pub open spec fn writes(
        self,
        data: Seq<u8>,
        result: Result<usize, IoError>,
        next: Device,
    ) -> bool {
        &&& next.seeks == self.seeks
        &&& next.reach == self.reach
        &&& next.sound == self.sound
        &&& next.exact == self.exact
        &&& match result {
            Ok(count) => {
                &&& count <= data.len()
                &&& self.sound && data.len() > 0 ==> count > 0
                &&& next.bytes == Device::overwrite(
                    self.bytes,
                    self.pos as int,
                    data.take(count as int),
                )
                &&& next.pos == self.pos + count
                &&& next.failures == self.failures
                &&& next.interrupts <= self.interrupts
                &&& count == 0 ==> next.flushed == self.flushed
                &&& self.exact matches Some(faults) ==> {
                    &&& !faults.writes.contains(self.pos)
                    &&& count == data.len()
                }
            },
            Err(error) => {
                &&& self.sound ==> !self.has_room(data.len())
                &&& next.bytes == self.bytes
                &&& next.pos == self.pos
                &&& next.failures == self.failures.push(error)
                &&& next.interrupts <= self.interrupts
                &&& next.flushed == self.flushed
                &&& error.kind == IoErrorKind::Interrupted ==> next.interrupts < self.interrupts
                &&& self.exact matches Some(faults) ==> {
                    &&& self.has_room(data.len()) ==> faults.writes.contains(self.pos)
                    &&& faults.writes.contains(self.pos) ==> faults.is_forced(error)
                    &&& error.kind != IoErrorKind::Interrupted
                }
            },
        }
    }

    /// A write that is repeated until all of `data` is written.
    pub open spec fn writes_all(
        self,
        data: Seq<u8>,
        result: Result<(), IoError>,
        next: Device,
    ) -> bool {
        &&& self.continues_as(next)
        &&& next.seeks == self.seeks
        &&& next.reach == self.reach
        &&& self.pos <= next.pos <= self.pos + data.len()
        &&& next.bytes == Device::overwrite(
            self.bytes,
            self.pos as int,
            data.take(next.pos - self.pos),
        )
        &&& data.len() == 0 ==> result is Ok && next == self
        &&& match result {
            Ok(()) => next.pos == self.pos + data.len() && self.fault(next) is None,
            Err(error) => {
                &&& !(self.sound && self.has_room(data.len()))
                &&& next.pos < self.pos + data.len()
                &&& match self.fault(next) {
                    Some(reported) => error == reported,
                    None => {
                        &&& error.kind == IoErrorKind::WriteZero
                        &&& error.message@ == "failed to write whole buffer"@
                    },
                }
            },
        }
        &&& self.exact matches Some(faults) ==> data.len() > 0 ==> {
            &&& faults.writes.contains(self.pos) ==> {
                &&& result matches Err(error)
                &&& faults.is_forced(error)
                &&& next.pos == self.pos
            }
            &&& !faults.writes.contains(self.pos) && self.has_room(data.len()) ==> result is Ok
        }
    }

    /// One flush.
    pub open spec fn flushes(self, result: Result<(), IoError>, next: Device) -> bool {
        &&& next.seeks == self.seeks
        &&& next.reach == self.reach
        &&& match result {
            Ok(()) => {
                &&& next.bytes == self.bytes
                &&& next.pos == self.pos
                &&& next.failures == self.failures
                &&& next.sound == self.sound
                &&& next.exact == self.exact
                &&& next.flushed
                &&& next.interrupts <= self.interrupts
                &&& self.exact matches Some(faults) ==> !faults.flush
            },
            Err(error) => {
                &&& self.failed_with(error, next)
                &&& self.exact matches Some(faults) ==> faults.flush && faults.is_forced(error)
            },
        }
    }

    /// A copy of what `source` still has to `sink`, which leaves them as
    /// `source_next` and `sink_next`. What has been written is always the
    /// beginning of what has been read.
    pub open spec fn copies(
        source: Device,
        sink: Device,
        result: Result<u64, IoError>,
        source_next: Device,
        sink_next: Device,
    ) -> bool {
        let taken = source_next.pos - source.pos;
        let put = sink_next.pos - sink.pos;
        let left = Device::window(
            source.bytes,
            source.pos as int,
            source.bytes.len() as int,
        ).len();
        &&& source.continues_as(source_next)
        &&& source_next.bytes == source.bytes
        &&& source_next.seeks == source.seeks
        &&& source_next.flushed == source.flushed
        &&& taken > 0 ==> source_next.pos <= source.bytes.len()
        &&& sink.continues_as(sink_next)
        &&& sink_next.seeks == sink.seeks
        &&& sink_next.bytes == Device::overwrite(
            sink.bytes,
            sink.pos as int,
            Device::window(source.bytes, source.pos as int, put),
        )
        &&& 0 <= put <= taken
        &&& match result {
            Ok(count) => {
                &&& count == put == taken
                &&& source.fault(source_next) is None
                &&& sink.fault(sink_next) is None
                &&& source.sound ==> source_next.pos >= source.bytes.len()
            },
            Err(error) => match source.fault(source_next) {
                Some(reported) => {
                    &&& !source.sound
                    &&& error == reported
                    &&& put == taken
                    &&& sink.fault(sink_next) is None
                },
                None => {
                    &&& !(sink.sound && sink.has_room(left))
                    &&& match sink.fault(sink_next) {
                        Some(reported) => error == reported,
                        None => {
                            &&& error.kind == IoErrorKind::WriteZero
                            &&& error.message@ == "failed to write whole buffer"@
                        },
                    }
                },
            },
        }
        &&& source.exact matches Some(faults) ==> source.pos < source.bytes.len() ==> {
            &&& faults.reads.contains(source.pos) ==> {
                &&& result matches Err(error)
                &&& faults.is_forced(error)
                &&& put == 0
            }
            &&& !faults.reads.contains(source.pos) && faults.zero_reads.contains(source.pos)
                ==> result == Ok::<u64, IoError>(0)
            &&& faults.clear(source.pos, source.bytes.len() + 1) ==> {
                &&& source.fault(source_next) is None
                &&& result is Ok ==> taken == left
                &&& sink.exact matches Some(faults) ==> {
                    &&& faults.writes.contains(sink.pos) ==> {
                        &&& result matches Err(error)
                        &&& faults.is_forced(error)
                        &&& put == 0
                    }
                    &&& sink.has_room(left) && faults.takes(sink.pos, sink.pos + left)
                        ==> result is Ok
                }
            }
        }
    }

    /// Writing what is there changes nothing.
    pub proof fn lemma_overwrite_same(bytes: Seq<u8>, count: int)
        requires
            0 <= count <= bytes.len(),
        ensures
            Device::overwrite(bytes, 0, bytes.take(count)) == bytes,
    {
        assert(Device::overwrite(bytes, 0, bytes.take(count)) =~= bytes);
    }

    /// Writing two pieces one after the other writes their concatenation.
    pub proof fn lemma_overwrite_twice(bytes: Seq<u8>, at: int, first: Seq<u8>, second: Seq<u8>)
        requires
            0 <= at,
        ensures
            Device::overwrite(Device::overwrite(bytes, at, first), at + first.len(), second)
                == Device::overwrite(bytes, at, first + second),
            first.len() > 0 || at <= bytes.len() ==> Device::overwrite(bytes, at, first).len() >= at
                + first.len(),
    {
        assert(Device::overwrite(Device::overwrite(bytes, at, first), at + first.len(), second)
            =~= Device::overwrite(bytes, at, first + second));
    }
}

/// What becomes of an attempt to fill a buffer from a stream that fails in a
/// known way.
pub enum Probe {
    /// The buffer is filled.
    Whole,
    /// The stream ends first, at this position.
    Ended(nat),
    /// A read fails, at this position.
    Failed(nat),
}

impl Probe {
    /// What becomes of reading `want` bytes at `pos`.
    pub open spec fn of(bytes: Seq<u8>, faults: Faults, pos: nat, want: nat) -> Probe {
        if faults.reads.contains(pos) {
            Probe::Failed(pos)
        } else if faults.zero_reads.contains(pos) || pos >= bytes.len() {
            Probe::Ended(pos)
        } else if pos + want <= bytes.len() {
            Probe::Whole
        } else if faults.reads.contains(bytes.len()) {
            Probe::Failed(bytes.len())
        } else {
            Probe::Ended(bytes.len())
        }
    }
}

/// Where seeks lead: a position is counted from the start, from the end of
/// the stream, or from where the stream stands, forwards and backwards alike.
pub proof fn seeks_are_counted_from_their_origin(len: nat, pos: nat, from: u64, by: i64)
    ensures
        SeekFrom::Start(from).target(len, pos) == from,
        SeekFrom::End(by).target(len, pos) == len + by,
        SeekFrom::Current(by).target(len, pos) == pos + by,
{
}

/// Seeking by `first` and then by `second` leads where seeking by their sum
/// does, and a relative seek leads where an absolute one to the same place
/// does.
pub proof fn relative_seeks_add_up(len: nat, pos: nat, first: i64, second: i64)
    requires
        0 <= pos + first <= u64::MAX,
        i64::MIN <= first + second <= i64::MAX,
    ensures
        SeekFrom::Current(second).target(
            len,
            SeekFrom::Current(first).target(len, pos) as nat,
        ) == SeekFrom::Current((first + second) as i64).target(len, pos),
        SeekFrom::Current(first).target(len, pos) == SeekFrom::Start(
            (pos + first) as u64,
        ).target(len, pos),
        SeekFrom::End(first).target(len, len) == SeekFrom::Current(first).target(len, len),
{
}

/// A seek that succeeds moves to where it leads and changes nothing else; one
/// that fails does not move. A sound stream refuses only what lies before the
/// start or does not fit a position.
pub proof fn a_seek_moves_to_its_target(
    before: Device,
    to: SeekFrom,
    result: Result<u64, IoError>,
    after: Device,
)
    requires
        before.seeks_to(to, result, after),
    ensures
        ({
            let target = match to {
                SeekFrom::Start(from) => from as int,
                SeekFrom::End(by) => before.bytes.len() + by,
                SeekFrom::Current(by) => before.pos + by,
            };
            &&& after.bytes == before.bytes
            &&& after.seeks == before.seeks.push(to)
            &&& match result {
                Ok(pos) => {
                    &&& target >= 0
                    &&& target <= u64::MAX ==> pos == target
                    &&& after.pos == pos
                    &&& after.failures == before.failures
                },
                Err(error) => {
                    &&& after.pos == before.pos
                    &&& after.failures == before.failures.push(error)
                },
            }
            &&& before.sound && 0 <= target <= u64::MAX ==> result is Ok
            &&& target < 0 ==> result is Err
        }),
{
}

/// What is read after a relative seek is what stands that far from where the
/// stream stood.
pub proof fn reading_goes_on_where_a_seek_led(
    before: Device,
    by: i64,
    pos: u64,
    sought: Device,
    old_buf: Seq<u8>,
    count: usize,
    buf: Seq<u8>,
    after: Device,
)
    requires
        0 <= before.pos + by <= u64::MAX,
        before.seeks_to(SeekFrom::Current(by), Ok(pos), sought),
        sought.reads(Ok(count), old_buf, buf, after),
    ensures
        pos == before.pos + by,
        count > 0 ==> before.pos + by + count <= before.bytes.len(),
        forall|i: int| 0 <= i < count ==> #[trigger] buf[i] == before.bytes[before.pos + by + i],
        after.pos == before.pos + by + count,
{
    a_read_gives_what_is_there(sought, Ok(count), old_buf, buf, after);
}

/// A part of a sequence of bytes is as long as was asked for, or as there is,
/// and has the bytes that stand there.
pub proof fn a_window_shows_what_is_there(bytes: Seq<u8>, from: int, count: int)
    requires
        0 <= from,
        0 <= count,
    ensures
        Device::window(bytes, from, count).len() == if from >= bytes.len() {
            0
        } else if count <= bytes.len() - from {
            count
        } else {
            bytes.len() - from
        },
        forall|i: int|
            0 <= i < Device::window(bytes, from, count).len() ==> #[trigger] Device::window(
                bytes,
                from,
                count,
            )[i] == bytes[from + i],
{
}

/// Writing over bytes puts the data where it is written, leaves every other
/// byte as it is, and fills a gap before the data with zeros. Writing nothing
/// changes nothing.
pub proof fn an_overwrite_changes_only_its_range(bytes: Seq<u8>, at: int, data: Seq<u8>)
    requires
        0 <= at,
    ensures
        data.len() == 0 ==> Device::overwrite(bytes, at, data) == bytes,
        data.len() > 0 ==> {
            let end = at + data.len();
            let written = Device::overwrite(bytes, at, data);
            &&& written.len() == if end > bytes.len() {
                end
            } else {
                bytes.len() as int
            }
            &&& forall|i: int|
                0 <= i < written.len() ==> #[trigger] written[i] == if at <= i < end {
                    data[i - at]
                } else if i < bytes.len() {
                    bytes[i]
                } else {
                    0
                }
        },
{
}

/// A read gives the bytes at the stream's position, one for one, and moves
/// past them; where it fails, the stream stays where it is. A sound stream does
/// not fail, and gives something as long as there is something.
pub proof fn a_read_gives_what_is_there(
    before: Device,
    result: Result<usize, IoError>,
    old_buf: Seq<u8>,
    buf: Seq<u8>,
    after: Device,
)
    requires
        before.reads(result, old_buf, buf, after),
    ensures
        after.bytes == before.bytes,
        after.seeks == before.seeks,
        before.sound ==> result is Ok,
        match result {
            Ok(count) => {
                &&& count <= buf.len()
                &&& count > 0 ==> before.pos + count <= before.bytes.len()
                &&& forall|i: int|
                    0 <= i < count ==> #[trigger] buf[i] == before.bytes[before.pos + i]
                &&& after.pos == before.pos + count
                &&& before.sound && buf.len() > 0 && before.pos < before.bytes.len() ==> count > 0
                &&& after.failures == before.failures
            },
            Err(error) => {
                &&& after.pos == before.pos
                &&& after.failures == before.failures.push(error)
            },
        },
{
    if let Ok(count) = result {
        let given = buf.take(count as int);
        assert(given.len() == count);
        assert forall|i: int| 0 <= i < count implies #[trigger] buf[i] == before.bytes[before.pos
            + i] by {
            assert(given[i] == buf[i]);
        }
    }
}

/// A stream whose failures are known, and that is not made to fail or to give
/// nothing where it stands, gives all it has up to the length of the buffer,
/// and leaves the rest of the buffer alone.
pub proof fn an_unhindered_read_is_full(
    before: Device,
    result: Result<usize, IoError>,
    old_buf: Seq<u8>,
    buf: Seq<u8>,
    after: Device,
)
    requires
        before.reads(result, old_buf, buf, after),
        before.exact matches Some(faults) && !faults.reads.contains(before.pos)
            && !faults.zero_reads.contains(before.pos),
        before.pos <= before.bytes.len(),
        old_buf.len() == buf.len(),
    ensures
        result matches Ok(count) && {
            &&& count == if buf.len() <= before.bytes.len() - before.pos {
                buf.len() as int
            } else {
                before.bytes.len() - before.pos
            }
            &&& forall|i: int| count <= i < buf.len() ==> #[trigger] buf[i] == old_buf[i]
        },
{
    let count = result->Ok_0;
    assert forall|i: int| count <= i < buf.len() implies #[trigger] buf[i] == old_buf[i] by {
        assert(buf.skip(count as int)[i - count] == old_buf.skip(count as int)[i - count]);
    }
}

/// A buffer that is filled holds the bytes at the stream's position, one for
/// one. A sound stream fills it exactly if it has enough bytes, and otherwise
/// reports that it has ended.
pub proof fn a_filled_buffer_holds_what_is_there(
    before: Device,
    result: Result<(), IoError>,
    buf: Seq<u8>,
    after: Device,
)
    requires
        before.reads_exactly(result, buf, after),
        buf.len() > 0,
    ensures
        after.bytes == before.bytes,
        after.seeks == before.seeks,
        result is Ok ==> {
            &&& before.pos + buf.len() <= before.bytes.len()
            &&& forall|i: int|
                0 <= i < buf.len() ==> #[trigger] buf[i] == before.bytes[before.pos + i]
            &&& after.pos == before.pos + buf.len()
        },
        before.sound ==> (result is Ok <==> before.pos + buf.len() <= before.bytes.len()),
        before.sound ==> (result matches Err(error) ==> {
            &&& error.kind == IoErrorKind::UnexpectedEof
            &&& after.pos >= before.bytes.len()
            &&& after.pos == before.pos || after.pos == before.bytes.len()
        }),
        result matches Err(error) ==> {
            ||| after.failures.len() > before.failures.len() && after.failures.last() == error
            ||| error.kind == IoErrorKind::UnexpectedEof && error.message@
                == "failed to fill whole buffer"@
        },
{
}

/// Reading to the end gives the bytes from the stream's position on, one for
/// one. A sound stream gives all of them; another one can fail, with the last
/// error that it reported.
pub proof fn reading_to_the_end_gives_the_rest(
    before: Device,
    result: Result<usize, IoError>,
    data: Seq<u8>,
    after: Device,
)
    requires
        before.reads_to_end(result, data, after),
    ensures
        after.bytes == before.bytes,
        after.pos == before.pos + data.len(),
        data.len() > 0 ==> before.pos + data.len() <= before.bytes.len(),
        forall|i: int| 0 <= i < data.len() ==> #[trigger] data[i] == before.bytes[before.pos + i],
        result matches Ok(count) ==> count == data.len(),
        result matches Err(error) ==> after.failures.len() > before.failures.len()
            && after.failures.last() == error,
        before.sound ==> {
            &&& result is Ok
            &&& before.pos <= before.bytes.len() ==> data == before.bytes.skip(before.pos as int)
            &&& before.pos >= before.bytes.len() ==> data.len() == 0
        },
{
    if before.sound && before.pos <= before.bytes.len() {
        assert(data =~= before.bytes.skip(before.pos as int));
    }
}

/// A write puts a beginning of the data at the stream's position and moves
/// past it. A sound stream that is not positioned past its end does not fail,
/// and takes something as long as there is something.
pub proof fn a_write_puts_data_where_the_stream_stands(
    before: Device,
    data: Seq<u8>,
    result: Result<usize, IoError>,
    after: Device,
)
    requires
        before.writes(data, result, after),
        before.pos <= before.bytes.len(),
    ensures
        before.sound ==> result is Ok,
        match result {
            Ok(count) => {
                let end = before.pos + count;
                &&& count <= data.len()
                &&& before.sound && data.len() > 0 ==> count > 0
                &&& after.pos == end
                &&& after.bytes.len() == if end > before.bytes.len() {
                    end
                } else {
                    before.bytes.len() as int
                }
                &&& forall|i: int|
                    0 <= i < after.bytes.len() ==> #[trigger] after.bytes[i] == if before.pos <= i
                        < end {
                        data[i - before.pos]
                    } else {
                        before.bytes[i]
                    }
            },
            Err(_) => after.bytes == before.bytes && after.pos == before.pos,
        },
{
    if let Ok(count) = result {
        an_overwrite_changes_only_its_range(
            before.bytes,
            before.pos as int,
            data.take(count as int),
        );
    }
}

/// Data that was written in full stands at the stream's position, and nothing
/// else has changed. A sound stream that is not positioned past its end takes
/// all of it; another one has a beginning of it if it fails.
pub proof fn all_that_is_written_is_there(
    before: Device,
    data: Seq<u8>,
    result: Result<(), IoError>,
    after: Device,
)
    requires
        before.writes_all(data, result, after),
        before.pos <= before.bytes.len(),
    ensures
        before.sound ==> result is Ok,
        before.pos <= after.pos <= before.pos + data.len(),
        result is Ok ==> after.pos == before.pos + data.len(),
        after.bytes.len() == if after.pos > before.bytes.len() {
            after.pos
        } else {
            before.bytes.len()
        },
        forall|i: int|
            0 <= i < after.bytes.len() ==> #[trigger] after.bytes[i] == if before.pos <= i
                < after.pos {
                data[i - before.pos]
            } else {
                before.bytes[i]
            },
{
    an_overwrite_changes_only_its_range(
        before.bytes,
        before.pos as int,
        data.take(after.pos - before.pos),
    );
}

/// Data that is written past the end of a stream stands where it was written,
/// behind zeros; and a sound stream takes it if a stream can be that long. A
/// write that fails hands on the last error that the stream reported, unless
/// the stream took nothing more.
pub proof fn a_gap_is_filled_with_zeros(
    before: Device,
    data: Seq<u8>,
    result: Result<(), IoError>,
    after: Device,
)
    requires
        before.writes_all(data, result, after),
        before.pos > before.bytes.len(),
    ensures
        before.sound && before.pos + data.len() <= usize::MAX ==> result is Ok,
        after.pos > before.pos ==> {
            &&& after.bytes.len() == after.pos
            &&& forall|i: int|
                0 <= i < after.bytes.len() ==> #[trigger] after.bytes[i] == if i
                    < before.bytes.len() {
                    before.bytes[i]
                } else if i < before.pos {
                    0
                } else {
                    data[i - before.pos]
                }
        },
        result is Ok ==> after.pos == before.pos + data.len(),
        after.pos == before.pos ==> after.bytes == before.bytes,
        result matches Err(error) ==> {
            ||| after.failures.len() > before.failures.len() && after.failures.last() == error
            ||| error.kind == IoErrorKind::WriteZero && error.message@
                == "failed to write whole buffer"@
        },
{
    an_overwrite_changes_only_its_range(
        before.bytes,
        before.pos as int,
        data.take(after.pos - before.pos),
    );
}

/// A flush changes no byte. It leaves nothing held back if it succeeds, and
/// that of a sound stream does.
pub proof fn a_flush_changes_no_byte(before: Device, result: Result<(), IoError>, after: Device)
    requires
        before.flushes(result, after),
    ensures
        before.sound ==> result is Ok,
        after.bytes == before.bytes,
        after.pos == before.pos,
        result is Ok ==> after.flushed,
        result matches Err(error) ==> after.failures == before.failures.push(error),
{
}

/// A copy appends a beginning of what the source still has to a sink that
/// stands at its end. From a sound source to a sound sink it appends all of it,
/// and says how much that is.
pub proof fn a_copy_appends_what_is_left(
    source: Device,
    sink: Device,
    result: Result<u64, IoError>,
    source_after: Device,
    sink_after: Device,
)
    requires
        Device::copies(source, sink, result, source_after, sink_after),
        source.pos <= source.bytes.len(),
        sink.pos == sink.bytes.len(),
    ensures
        source_after.bytes == source.bytes,
        sink.bytes.is_prefix_of(sink_after.bytes),
        sink_after.bytes.skip(sink.bytes.len() as int).is_prefix_of(
            source.bytes.skip(source.pos as int),
        ),
        result matches Ok(count) ==> count == sink_after.bytes.len() - sink.bytes.len(),
        result is Ok && source.sound ==> sink_after.bytes == sink.bytes + source.bytes.skip(
            source.pos as int,
        ),
        source.sound && sink.sound ==> result is Ok,
{
    let put = sink_after.pos - sink.pos;
    let rest = source.bytes.skip(source.pos as int);
    let window = Device::window(source.bytes, source.pos as int, put);
    assert(window =~= rest.take(put));
    an_overwrite_changes_only_its_range(sink.bytes, sink.pos as int, window);
    assert(sink_after.bytes =~= sink.bytes + rest.take(put));
    assert(sink_after.bytes.take(sink.bytes.len() as int) =~= sink.bytes);
    assert(sink_after.bytes.skip(sink.bytes.len() as int) =~= rest.take(put));
    if result is Ok && source.sound {
        assert(rest.take(put) =~= rest);
    }
}

/// Wherever a sink stands, a copy puts a beginning of what the source still has
/// there, and changes nothing else. It ends with what the source still has, or
/// fails with the last error that one of them reported, unless the sink took
/// nothing more.
pub proof fn a_copy_puts_what_is_left_where_the_sink_stands(
    source: Device,
    sink: Device,
    result: Result<u64, IoError>,
    source_after: Device,
    sink_after: Device,
)
    requires
        Device::copies(source, sink, result, source_after, sink_after),
    ensures
        ({
            let put = sink_after.pos - sink.pos;
            &&& 0 <= put
            &&& put > 0 ==> source.pos + put <= source.bytes.len()
            &&& put == 0 ==> sink_after.bytes == sink.bytes
            &&& put > 0 ==> sink_after.bytes.len() == if sink_after.pos > sink.bytes.len() {
                sink_after.pos
            } else {
                sink.bytes.len()
            }
            &&& forall|i: int|
                0 <= i < sink_after.bytes.len() ==> #[trigger] sink_after.bytes[i] == if sink.pos
                    <= i < sink_after.pos {
                    source.bytes[source.pos + i - sink.pos]
                } else if i < sink.bytes.len() {
                    sink.bytes[i]
                } else {
                    0
                }
            &&& result matches Ok(count) ==> {
                &&& count == put
                &&& source_after.pos == source.pos + count
                &&& source.sound && source.pos <= source.bytes.len() ==> put == source.bytes.len()
                    - source.pos
            }
            &&& source.sound && sink.sound && sink.pos <= sink.bytes.len() ==> result is Ok
            &&& result matches Err(error) ==> {
                ||| source_after.failures.len() > source.failures.len()
                    && source_after.failures.last() == error
                ||| sink_after.failures.len() > sink.failures.len() && sink_after.failures.last()
                    == error
                ||| error.kind == IoErrorKind::WriteZero && error.message@
                    == "failed to write whole buffer"@
            }
        }),
{
    let put = sink_after.pos - sink.pos;
    let window = Device::window(source.bytes, source.pos as int, put);
    an_overwrite_changes_only_its_range(sink.bytes, sink.pos as int, window);
}

/// Reads reach to the end of what they ask for, and no further: one of `count`
/// bytes at `pos` asks for these, and one of none asks for nothing.
pub proof fn reads_reach_as_far_as_they_ask(reach: nat, pos: nat, count: nat)
    ensures
        count == 0 ==> Device::asked(reach, pos, count) == reach,
        count > 0 ==> Device::asked(reach, pos, count) == if pos + count > reach {
            pos + count
        } else {
            reach
        },
{
}

/// A stream whose failures are known reports them, each with the error that
/// they are reported with: where it stands for a read or a write, by its origin
/// for a seek, and in a flush.
pub proof fn known_failures_are_reported(
    before: Device,
    faults: Faults,
    old_buf: Seq<u8>,
    buf: Seq<u8>,
    data: Seq<u8>,
    to: SeekFrom,
    read: Result<usize, IoError>,
    written: Result<usize, IoError>,
    sought: Result<u64, IoError>,
    flushed: Result<(), IoError>,
    after: Device,
)
    requires
        before.exact == Some(faults),
    ensures
        before.reads(read, old_buf, buf, after) && buf.len() > 0 && faults.reads.contains(
            before.pos,
        ) ==> (read matches Err(error) && error.kind == faults.kind && error.message@
            == faults.message),
        before.writes(data, written, after) && faults.writes.contains(before.pos) ==> (
        written matches Err(error) && error.kind == faults.kind && error.message@
            == faults.message),
        before.writes(data, written, after) && !faults.writes.contains(before.pos) && before.pos
            <= before.bytes.len() ==> (written matches Ok(count) && count == data.len()),
        before.seeks_to(to, sought, after) && (match to {
            SeekFrom::Start(_) => faults.start_seeks,
            SeekFrom::End(_) => faults.end_seeks,
            SeekFrom::Current(by) => faults.position_seeks && by == 0,
        }) ==> (sought matches Err(error) && error.kind == faults.kind && error.message@
            == faults.message),
        before.flushes(flushed, after) && faults.flush ==> (flushed matches Err(error)
            && error.kind == faults.kind && error.message@ == faults.message),
        before.flushes(flushed, after) && !faults.flush ==> flushed is Ok,
{
}

/// A stream that nothing has happened to stands at the start of its bytes, is
/// sound, and fails nowhere.
pub proof fn a_fresh_stream_is_without_flaw(bytes: Seq<u8>, at: nat)
    ensures
        Device::fresh(bytes).bytes == bytes,
        Device::fresh(bytes).pos == 0,
        Device::fresh(bytes).sound,
        Device::fresh(bytes).interrupts == 0,
        Device::fresh(bytes).failures.len() == 0,
        Device::fresh(bytes).seeks.len() == 0,
        Device::fresh(bytes).reach == 0,
        Device::fresh(bytes).flushed,
        Device::fresh(bytes).exact matches Some(faults) && {
            &&& !faults.reads.contains(at)
            &&& !faults.zero_reads.contains(at)
            &&& !faults.writes.contains(at)
            &&& !faults.start_seeks
            &&& !faults.end_seeks
            &&& !faults.position_seeks
            &&& !faults.flush
        },
{
}

/// What becomes of a stream is of the same kind, and nothing is struck from
/// its record.
pub proof fn a_stream_stays_of_its_kind(before: Device, after: Device)
    requires
        before.continues_as(after),
    ensures
        after.sound == before.sound,
        after.exact == before.exact,
        before.failures == after.failures.take(before.failures.len() as int),
        before.seeks == after.seeks.take(before.seeks.len() as int),
        before.failures.len() <= after.failures.len(),
        before.seeks.len() <= after.seeks.len(),
        before.reach <= after.reach,
{
}

/// The error that stopped some work is the last one that the stream reported
/// in it, and no interruption; and if the last one is no interruption, it
/// stopped the work.
pub proof fn the_last_error_is_the_fault(before: Device, after: Device, error: IoError)
    ensures
        before.fault(after) == Some(error) <==> {
            &&& after.failures.len() > before.failures.len()
            &&& after.failures.last() == error
            &&& error.kind != IoErrorKind::Interrupted
        },
        before.reported(error, after) <==> {
            &&& after.failures.len() > before.failures.len()
            &&& after.failures.last() == error
        },
{
}

/// What filling a buffer comes to on a stream with known failures: it fails at
/// the first position where a read that is needed fails, and ends where a read
/// gives nothing or the bytes do.
pub proof fn filling_a_buffer_stops_at_the_first_hindrance(
    bytes: Seq<u8>,
    faults: Faults,
    pos: nat,
    want: nat,
)
    ensures
        Probe::of(bytes, faults, pos, want) is Whole <==> {
            &&& !faults.reads.contains(pos)
            &&& !faults.zero_reads.contains(pos)
            &&& pos < bytes.len()
            &&& pos + want <= bytes.len()
        },
        Probe::of(bytes, faults, pos, want) matches Probe::Failed(at) ==> {
            &&& faults.reads.contains(at)
            &&& at == pos || (at == bytes.len() && pos < at < pos + want)
        },
        Probe::of(bytes, faults, pos, want) matches Probe::Ended(end) ==> {
            &&& !faults.reads.contains(end)
            &&& end == pos || (end == bytes.len() && pos < end < pos + want)
            &&& end == pos ==> faults.zero_reads.contains(pos) || pos >= bytes.len()
        },
        faults.reads.contains(pos) ==> Probe::of(bytes, faults, pos, want) == Probe::Failed(pos),
{
}

/// What a part of a stream hinders is what the stream hinders there.
pub proof fn a_part_fails_where_the_whole_does(faults: Faults, start: nat, size: nat, at: nat)
    ensures
        faults.within(start, size).reads.contains(at) <==> at < size && faults.reads.contains(
            start + at,
        ),
        faults.within(start, size).zero_reads.contains(at) <==> at < size
            && faults.zero_reads.contains(start + at),
        faults.within(start, size).kind == faults.kind,
        faults.within(start, size).message == faults.message,
        faults.clear(start, start + size) && at < size ==> !faults.reads.contains(start + at)
            && !faults.zero_reads.contains(start + at),
        faults.takes(start, start + size) && at < size ==> !faults.writes.contains(start + at),
{
}

/// Which seeks fail, and with what.
pub proof fn seeks_fail_by_their_origin(faults: Faults, from: u64, by: i64, error: IoError)
    ensures
        faults.seek_fails(SeekFrom::Start(from)) <==> faults.start_seeks,
        faults.seek_fails(SeekFrom::End(by)) <==> faults.end_seeks,
        faults.seek_fails(SeekFrom::Current(by)) <==> faults.position_seeks && by == 0,
        faults.is_forced(error) ==> error.kind == faults.kind && error.message@ == faults.message,
{
}

/// Anything that can be seen as a [`Device`].
pub trait Stream {
    /// Whether the stream's own state is consistent.
    spec fn wf(&self) -> bool;

    /// The stream as a device.
    spec fn device(&self) -> Device;

    /// Positions are 64 bits wide, and so are lengths.
    proof fn lemma_fits(&self)
        requires
            self.wf(),
        ensures
            self.device().bytes.len() <= u64::MAX,
            self.device().pos <= u64::MAX,
    ;
}

/// A stream that bytes can be read from.
pub trait Read: Stream {
    /// Read into `buf` and return the number of bytes read, which can be
    /// less than the buffer holds and is 0 where the stream has no more.
    fn read(&mut self, buf: &mut [u8]) -> (result: Result<usize, IoError>)
        requires
            (*old(self)).wf(),
        ensures
            (*final(self)).wf(),
            final(buf)@.len() == old(buf)@.len(),
            (*old(self)).device().reads(
                result,
                old(buf)@,
                final(buf)@,
                (*final(self)).device(),
            ),
    ;

    /// Fill `buf`, or fail with [`IoErrorKind::UnexpectedEof`] where the
    /// stream has too few bytes left.
    fn read_exact(&mut self, buf: &mut [u8]) -> (result: Result<(), IoError>)
        requires
            (*old(self)).wf(),
        ensures
            (*final(self)).wf(),
            final(buf)@.len() == old(buf)@.len(),
            (*old(self)).device().reads_exactly(result, final(buf)@, (*final(self)).device()),
    {
        let want: usize = buf.len();
        let mut done: usize = 0;
        let ghost before = self.device();
        let ghost mut tried = false;
        assert(buf@.take(0) =~= Device::window(before.bytes, before.pos as int, 0));
        while done < want
            invariant
                self.wf(),
                before == (*old(self)).device(),
                want == buf@.len() == old(buf)@.len(),
                done <= want,
                before.continues_as(self.device()),
                before.fault(self.device()) is None,
                self.device().bytes == before.bytes,
                self.device().seeks == before.seeks,
                self.device().flushed == before.flushed,
                self.device().reach == if done == 0 && !tried {
                    before.reach
                } else {
                    Device::asked(before.reach, before.pos, want as nat)
                },
                done > 0 ==> tried,
                before.exact is Some ==> (tried <==> done > 0),
                before.exact matches Some(faults) ==> done > 0 ==> {
                    &&& !faults.reads.contains(before.pos)
                    &&& !faults.zero_reads.contains(before.pos)
                    &&& before.pos < before.bytes.len()
                    &&& done == want || before.pos + done == before.bytes.len()
                },
                self.device().pos == before.pos + done,
                done > 0 ==> before.pos + done <= before.bytes.len(),
                buf@.take(done as int) == Device::window(before.bytes, before.pos as int, done as int),
            decreases want - done + self.device().interrupts,
        {
            let ghost current = self.device();
            let ghost filled = buf@;
            let (_, rest) = buf.split_at_mut(done);
            proof {
                tried = true;
            }
            match self.read(rest) {
                Ok(count) => {
                    if count == 0 {
                        return Err(
                            IoError::new(
                                IoErrorKind::UnexpectedEof,
                                "failed to fill whole buffer",
                            ),
                        );
                    }
                    proof {
                        let got = rest@.take(count as int);
                        assert(got.len() == count);
                        let joined = Device::window(before.bytes, before.pos as int, done + count);
                        assert(joined =~= filled.take(done as int) + got);
                        assert(buf@.take(done + count) =~= joined);
                    }
                    done = done + count;
                },
                Err(error) => {
                    assert(buf@.take(done as int) =~= filled.take(done as int));
                    if error.kind != IoErrorKind::Interrupted {
                        return Err(error);
                    }
                },
            }
        }
        assert(buf@.take(want as int) =~= buf@);
        Ok(())
    }

    /// Append everything from the current position on to `out`, and return
    /// the number of bytes read.
    fn read_to_end(&mut self, out: &mut Vec<u8>) -> (result: Result<usize, IoError>)
        requires
            (*old(self)).wf(),
        ensures
            (*final(self)).wf(),
            old(out)@.is_prefix_of(final(out)@),
            (*old(self)).device().reads_to_end(
                result,
                final(out)@.skip(old(out)@.len() as int),
                (*final(self)).device(),
            ),
    {
        let start: usize = out.len();
        let mut chunk: Vec<u8> = vec![0; CHUNK];
        let ghost before = self.device();
        assert(out@.skip(start as int) =~= Device::window(before.bytes, before.pos as int, 0));
        loop
            invariant
                self.wf(),
                before == (*old(self)).device(),
                chunk@.len() == CHUNK,
                start == old(out)@.len(),
                old(out)@.is_prefix_of(out@),
                before.continues_as(self.device()),
                before.fault(self.device()) is None,
                self.device().bytes == before.bytes,
                self.device().seeks == before.seeks,
                self.device().flushed == before.flushed,
                before.exact matches Some(faults) ==> {
                    &&& out@.len() > start ==> !faults.reads.contains(before.pos)
                        && !faults.zero_reads.contains(before.pos)
                },
                before.exact is Some ==> self.device().failures == before.failures,
                self.device().pos == before.pos + out@.len() - start,
                out@.len() > start ==> self.device().pos <= before.bytes.len(),
                out@.skip(start as int) == Device::window(
                    before.bytes,
                    before.pos as int,
                    out@.len() - start,
                ),
            decreases
                    before.bytes.len() + before.pos - self.device().pos
                        + self.device().interrupts,
        {
            let ghost gathered = out@;
            match self.read(chunk.as_mut_slice()) {
                Ok(count) => {
                    if count == 0 {
                        return Ok(out.len() - start);
                    }
                    let got = slice_subrange(chunk.as_slice(), 0, count);
                    out.extend_from_slice(got);
                    proof {
                        assert(got@ =~= chunk@.take(count as int));
                        assert(out@ =~= gathered + got@);
                        assert(out@.skip(start as int) =~= gathered.skip(start as int) + got@);
                        assert(out@.skip(start as int) =~= Device::window(
                            before.bytes,
                            before.pos as int,
                            out@.len() - start,
                        ));
                        assert(old(out)@ =~= out@.take(start as int));
                    }
                },
                Err(error) => {
                    if error.kind != IoErrorKind::Interrupted {
                        return Err(error);
                    }
                },
            }
        }
    }
}

/// A stream whose position can be changed.
pub trait Seek: Stream {
    /// Move to the given position and return it, counted from the start.
    fn seek(&mut self, to: SeekFrom) -> (result: Result<u64, IoError>)
        requires
            (*old(self)).wf(),
        ensures
            (*final(self)).wf(),
            (*old(self)).device().seeks_to(to, result, (*final(self)).device()),
    ;

    /// Move to the start.
    fn rewind(&mut self) -> (result: Result<(), IoError>)
        requires
            (*old(self)).wf(),
        ensures
            (*final(self)).wf(),
            match result {
                Ok(()) => (*old(self)).device().seeks_to(
                    SeekFrom::Start(0),
                    Ok(0),
                    (*final(self)).device(),
                ),
                Err(error) => (*old(self)).device().seeks_to(
                    SeekFrom::Start(0),
                    Err(error),
                    (*final(self)).device(),
                ),
            },
    {
        match self.seek(SeekFrom::Start(0)) {
            Ok(_) => Ok(()),
            Err(error) => Err(error),
        }
    }

    /// The current position, counted from the start.
    fn stream_position(&mut self) -> (result: Result<u64, IoError>)
        requires
            (*old(self)).wf(),
        ensures
            (*final(self)).wf(),
            (*old(self)).device().seeks_to(SeekFrom::Current(0), result, (*final(self)).device()),
    {
        self.seek(SeekFrom::Current(0))
    }
}

/// A stream that bytes can be written to.
pub trait Write: Stream {
    /// Write from `data` and return the number of bytes written, which can
    /// be less than `data` holds.
    fn write(&mut self, data: &[u8]) -> (result: Result<usize, IoError>)
        requires
            (*old(self)).wf(),
        ensures
            (*final(self)).wf(),
            (*old(self)).device().writes(data@, result, (*final(self)).device()),
    ;

    /// Pass on whatever the stream has buffered.
    fn flush(&mut self) -> (result: Result<(), IoError>)
        requires
            (*old(self)).wf(),
        ensures
            (*final(self)).wf(),
            (*old(self)).device().flushes(result, (*final(self)).device()),
    ;

    /// Write all of `data`.
    fn write_all(&mut self, data: &[u8]) -> (result: Result<(), IoError>)
        requires
            (*old(self)).wf(),
        ensures
            (*final(self)).wf(),
            (*old(self)).device().writes_all(data@, result, (*final(self)).device()),
    {
        let want: usize = data.len();
        let mut done: usize = 0;
        let ghost before = self.device();
        assert(Device::overwrite(before.bytes, before.pos as int, data@.take(0)) =~= before.bytes);
        while done < want
            invariant
                self.wf(),
                before == (*old(self)).device(),
                want == data@.len(),
                done <= want,
                before.continues_as(self.device()),
                before.fault(self.device()) is None,
                self.device().seeks == before.seeks,
                self.device().reach == before.reach,
                self.device().pos == before.pos + done,
                done == 0 ==> self.device().bytes == before.bytes,
                done > 0 ==> self.device().pos <= self.device().bytes.len(),
                done == 0 && want == 0 ==> self.device() == before,
                before.exact is Some ==> done == 0 || done == want,
                before.exact matches Some(faults) ==> done > 0 ==> !faults.writes.contains(
                    before.pos,
                ),
                self.device().bytes == Device::overwrite(
                    before.bytes,
                    before.pos as int,
                    data@.take(done as int),
                ),
            decreases want - done + self.device().interrupts,
        {
            let rest = slice_subrange(data, done, want);
            let ghost current = self.device();
            match self.write(rest) {
                Ok(count) => {
                    if count == 0 {
                        assert(Device::overwrite(current.bytes, current.pos as int, rest@.take(0))
                            =~= current.bytes);
                        return Err(
                            IoError::new(IoErrorKind::WriteZero, "failed to write whole buffer"),
                        );
                    }
                    proof {
                        let first = data@.take(done as int);
                        let second = rest@.take(count as int);
                        assert(data@.take(done + count) =~= first + second);
                        Device::lemma_overwrite_twice(before.bytes, before.pos as int, first, second);
                    }
                    done = done + count;
                },
                Err(error) => {
                    if error.kind != IoErrorKind::Interrupted {
                        return Err(error);
                    }
                },
            }
        }
        Ok(())
    }
}

/// A borrowed stream is a stream.
impl<S: Stream> Stream for &mut S {
    open spec fn wf(&self) -> bool {
        (**self).wf()
    }

    open spec fn device(&self) -> Device {
        (**self).device()
    }

    proof fn lemma_fits(&self) {
        (**self).lemma_fits();
    }
}

impl<S: Read> Read for &mut S {
    fn read(&mut self, buf: &mut [u8]) -> (result: Result<usize, IoError>)
        ensures
            *final(*final(self)) == *final(*old(self)),
    {
        (**self).read(buf)
    }
}

impl<S: Seek> Seek for &mut S {
    fn seek(&mut self, to: SeekFrom) -> (result: Result<u64, IoError>)
        ensures
            *final(*final(self)) == *final(*old(self)),
    {
        (**self).seek(to)
    }
}

impl<S: Write> Write for &mut S {
    fn write(&mut self, data: &[u8]) -> (result: Result<usize, IoError>)
        ensures
            *final(*final(self)) == *final(*old(self)),
    {
        (**self).write(data)
    }

    fn flush(&mut self) -> (result: Result<(), IoError>)
        ensures
            *final(*final(self)) == *final(*old(self)),
    {
        (**self).flush()
    }
}

} // verus!
