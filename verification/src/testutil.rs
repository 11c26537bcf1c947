//! Test doubles for exercising I/O error paths.

use crate::cursor::Cursor;
#[allow(unused_imports)]
use crate::io::{
    Device, Faults, IoError, IoErrorKind, Log, Read, Seek, SeekFrom, Stream, Write,
};
use vstd::prelude::*;

verus! {

/// The failures that a stream was asked to report.
pub struct Settings {
    /// Reads at or beyond this position fail.
    pub reads_from: Option<u64>,
    /// Reads exactly at this position fail.
    pub reads_at: Option<u64>,
    /// Reads exactly at this position return zero bytes.
    pub zero_reads_at: Option<u64>,
    /// Whether seeks from the start fail.
    pub start_seeks: bool,
    /// Whether seeks from the end fail.
    pub end_seeks: bool,
    /// Whether seeks by zero bytes from the current position fail.
    pub position_seeks: bool,
    /// Writes exactly at this position fail.
    pub writes_at: Option<u64>,
    /// Whether flushing fails.
    pub flush: bool,
}

impl Settings {
    /// No failures.
    pub open spec fn none() -> Settings {
        Settings {
            reads_from: None,
            reads_at: None,
            zero_reads_at: None,
            start_seeks: false,
            end_seeks: false,
            position_seeks: false,
            writes_at: None,
            flush: false,
        }
    }

    /// The failures that a stream with these settings has.
    pub open spec fn faults(self) -> Faults {
        Faults {
            reads: Set::new(
                |at: nat|
                    (self.reads_from matches Some(from) && at >= from) || (self.reads_at matches Some(
                        pos,
                    ) && at == pos),
            ),
            zero_reads: Set::new(|at: nat| self.zero_reads_at matches Some(pos) && at == pos),
            writes: Set::new(|at: nat| self.writes_at matches Some(pos) && at == pos),
            start_seeks: self.start_seeks,
            end_seeks: self.end_seeks,
            position_seeks: self.position_seeks,
            flush: self.flush,
            kind: IoErrorKind::Other,
            message: "forced I/O error"@,
        }
    }

    /// Whether a stream with these settings carries everything out.
    pub open spec fn is_sound(self) -> bool {
        self.faults().are_none()
    }

    /// A stream that was asked for no failures has none.
    pub proof fn lemma_none()
        ensures
            Settings::none().is_sound(),
    {
        let faults = Settings::none().faults();
        assert(faults.reads =~= Set::empty());
        assert(faults.zero_reads =~= Set::empty());
        assert(faults.writes =~= Set::empty());
    }
}

/// Whether `pos` is the given position.
fn is_at(at: Option<u64>, pos: u64) -> (same: bool)
    ensures
        same == (at == Some(pos)),
{
    match at {
        Some(at) => at == pos,
        None => false,
    }
}

fn forced_error() -> (error: IoError)
    ensures
        error.kind == IoErrorKind::Other,
        error.message@ == "forced I/O error"@,
{
    IoError::new(IoErrorKind::Other, "forced I/O error")
}

/// An in-memory stream whose reads and seeks can be made to fail, for
/// exercising error paths.
///
/// Reads and seeks can be forced to fail at specific positions or for
/// specific seek flavors, and a single read can be made to report
/// end-of-file without failing (`zero_reads_at`), making truncated-archive
/// paths testable.
pub struct FlakyReader {
    inner: Cursor,
    fail_reads_from: Option<u64>,
    fail_reads_at: Option<u64>,
    zero_reads_at: Option<u64>,
    fail_start_seeks: bool,
    fail_end_seeks: bool,
    fail_position_seeks: bool,
    log: Ghost<Log>,
}

impl FlakyReader {
    /// The failures that were asked for.
    pub closed spec fn settings(&self) -> Settings {
        Settings {
            reads_from: self.fail_reads_from,
            reads_at: self.fail_reads_at,
            zero_reads_at: self.zero_reads_at,
            start_seeks: self.fail_start_seeks,
            end_seeks: self.fail_end_seeks,
            position_seeks: self.fail_position_seeks,
            writes_at: None,
            flush: false,
        }
    }

    /// Wrap `data` with no forced failures, positioned at its start.
    pub fn new(data: Vec<u8>) -> (stream: Self)
        ensures
            stream.wf(),
            stream.settings() == Settings::none(),
            stream.device() == (Device {
                exact: Some(Settings::none().faults()),
                ..Device::fresh(data@)
            }),
    {
        proof {
            Settings::lemma_none();
        }
        FlakyReader {
            inner: Cursor::new(data),
            fail_reads_from: None,
            fail_reads_at: None,
            zero_reads_at: None,
            fail_start_seeks: false,
            fail_end_seeks: false,
            fail_position_seeks: false,
            log: Ghost(Log::empty()),
        }
    }

    /// Reads issued at or beyond `pos` fail.
    pub fn failing_reads_from(self, pos: u64) -> (stream: Self)
        ensures
            stream.wf() == self.wf(),
            stream.settings() == (Settings { reads_from: Some(pos), ..self.settings() }),
            stream.device() == (Device {
                exact: Some(stream.settings().faults()),
                sound: stream.settings().is_sound(),
                ..self.device()
            }),
    {
        let mut stream = self;
        stream.fail_reads_from = Some(pos);
        stream
    }

    /// The read issued exactly at `pos` fails (any other read succeeds).
    pub fn failing_reads_at(self, pos: u64) -> (stream: Self)
        ensures
            stream.wf() == self.wf(),
            stream.settings() == (Settings { reads_at: Some(pos), ..self.settings() }),
            stream.device() == (Device {
                exact: Some(stream.settings().faults()),
                sound: stream.settings().is_sound(),
                ..self.device()
            }),
    {
        let mut stream = self;
        stream.fail_reads_at = Some(pos);
        stream
    }

    /// The read issued exactly at `pos` returns zero bytes, as if the file
    /// ended there, without failing (any other read succeeds).
    pub fn zero_reads_at(self, pos: u64) -> (stream: Self)
        ensures
            stream.wf() == self.wf(),
            stream.settings() == (Settings { zero_reads_at: Some(pos), ..self.settings() }),
            stream.device() == (Device {
                exact: Some(stream.settings().faults()),
                sound: stream.settings().is_sound(),
                ..self.device()
            }),
    {
        let mut stream = self;
        stream.zero_reads_at = Some(pos);
        stream
    }

    /// All [`SeekFrom::Start`] seeks fail.
    pub fn failing_start_seeks(self) -> (stream: Self)
        ensures
            stream.wf() == self.wf(),
            stream.settings() == (Settings { start_seeks: true, ..self.settings() }),
            stream.device() == (Device {
                exact: Some(stream.settings().faults()),
                sound: stream.settings().is_sound(),
                ..self.device()
            }),
    {
        let mut stream = self;
        stream.fail_start_seeks = true;
        stream
    }

    /// All [`SeekFrom::End`] seeks fail.
    pub fn failing_end_seeks(self) -> (stream: Self)
        ensures
            stream.wf() == self.wf(),
            stream.settings() == (Settings { end_seeks: true, ..self.settings() }),
            stream.device() == (Device {
                exact: Some(stream.settings().faults()),
                sound: stream.settings().is_sound(),
                ..self.device()
            }),
    {
        let mut stream = self;
        stream.fail_end_seeks = true;
        stream
    }

    /// `stream_position` (a `SeekFrom::Current(0)` seek) fails.
    pub fn failing_position_seeks(self) -> (stream: Self)
        ensures
            stream.wf() == self.wf(),
            stream.settings() == (Settings { position_seeks: true, ..self.settings() }),
            stream.device() == (Device {
                exact: Some(stream.settings().faults()),
                sound: stream.settings().is_sound(),
                ..self.device()
            }),
    {
        let mut stream = self;
        stream.fail_position_seeks = true;
        stream
    }
}

impl Stream for FlakyReader {
    open spec fn wf(&self) -> bool {
        true
    }

    closed spec fn device(&self) -> Device {
        Device {
            bytes: self.inner.device().bytes,
            pos: self.inner.device().pos,
            sound: self.settings().is_sound(),
            interrupts: 0,
            exact: Some(self.settings().faults()),
            failures: self.log@.failures,
            seeks: self.log@.seeks,
            reach: self.log@.reach,
            flushed: self.log@.flushed,
        }
    }

    proof fn lemma_fits(&self) {
        self.inner.lemma_fits();
    }
}

impl Read for FlakyReader {
    fn read(&mut self, buf: &mut [u8]) -> (result: Result<usize, IoError>)
        ensures
            final(self).settings() == old(self).settings(),
    {
        let pos: u64 = self.inner.position();
        proof {
            self.log@ = self.log@.asked(pos as nat, buf@.len());
        }
        let from = match self.fail_reads_from {
            Some(start) => pos >= start,
            None => false,
        };
        if from || is_at(self.fail_reads_at, pos) {
            let error = forced_error();
            proof {
                assert(self.settings().faults().reads.contains(pos as nat));
                self.log@ = self.log@.failed(error);
            }
            return Err(error);
        }
        assert(!self.settings().faults().reads.contains(pos as nat));
        if is_at(self.zero_reads_at, pos) {
            assert(self.settings().faults().zero_reads.contains(pos as nat));
            assert(buf@.take(0) =~= Device::window(self.device().bytes, pos as int, 0));
            return Ok(0);
        }
        assert(!self.settings().faults().zero_reads.contains(pos as nat));
        proof {
            self.inner.is_without_flaw();
        }
        self.inner.read(buf)
    }
}

impl Seek for FlakyReader {
    fn seek(&mut self, to: SeekFrom) -> (result: Result<u64, IoError>)
        ensures
            final(self).settings() == old(self).settings(),
    {
        proof {
            self.log@ = self.log@.sought(to);
        }
        let forced = match to {
            SeekFrom::Start(_) => self.fail_start_seeks,
            SeekFrom::End(_) => self.fail_end_seeks,
            SeekFrom::Current(offset) => self.fail_position_seeks && offset == 0,
        };
        proof {
            self.inner.is_without_flaw();
        }
        let result = if forced {
            Err(forced_error())
        } else {
            self.inner.seek(to)
        };
        match result {
            Ok(pos) => Ok(pos),
            Err(error) => {
                proof {
                    self.log@ = self.log@.failed(error);
                }
                Err(error)
            },
        }
    }
}

/// An in-memory stream whose I/O can be made to fail, for exercising the
/// write-side error paths of the archive writer.
///
/// Pass `Vec::new()` for a fresh archive target, or an existing archive's
/// bytes to stand in for a file being appended to. Writes, seeks, and reads
/// can be forced to fail at specific positions or for specific seek flavors,
/// so both the writing and the archive-opening paths a writer exercises can
/// be made to error.
pub struct FlakyWriter {
    inner: Cursor,
    fail_writes_at: Option<u64>,
    fail_reads_at: Option<u64>,
    fail_start_seeks: bool,
    fail_end_seeks: bool,
    fail_position_seeks: bool,
    fail_flush: bool,
    log: Ghost<Log>,
}

impl FlakyWriter {
    /// The failures that were asked for.
    pub closed spec fn settings(&self) -> Settings {
        Settings {
            reads_from: None,
            reads_at: self.fail_reads_at,
            zero_reads_at: None,
            start_seeks: self.fail_start_seeks,
            end_seeks: self.fail_end_seeks,
            position_seeks: self.fail_position_seeks,
            writes_at: self.fail_writes_at,
            flush: self.fail_flush,
        }
    }

    /// Wrap `data` with no forced failures, positioned at its start.
    pub fn new(data: Vec<u8>) -> (stream: Self)
        ensures
            stream.wf(),
            stream.settings() == Settings::none(),
            stream.device() == (Device {
                exact: Some(Settings::none().faults()),
                ..Device::fresh(data@)
            }),
    {
        proof {
            Settings::lemma_none();
        }
        FlakyWriter {
            inner: Cursor::new(data),
            fail_writes_at: None,
            fail_reads_at: None,
            fail_start_seeks: false,
            fail_end_seeks: false,
            fail_position_seeks: false,
            fail_flush: false,
            log: Ghost(Log::empty()),
        }
    }

    /// The write issued exactly at `pos` fails (any other write succeeds).
    pub fn failing_writes_at(self, pos: u64) -> (stream: Self)
        ensures
            stream.wf() == self.wf(),
            stream.settings() == (Settings { writes_at: Some(pos), ..self.settings() }),
            stream.device() == (Device {
                exact: Some(stream.settings().faults()),
                sound: stream.settings().is_sound(),
                ..self.device()
            }),
    {
        let mut stream = self;
        stream.fail_writes_at = Some(pos);
        stream
    }

    /// The read issued exactly at `pos` fails (any other read succeeds).
    pub fn failing_reads_at(self, pos: u64) -> (stream: Self)
        ensures
            stream.wf() == self.wf(),
            stream.settings() == (Settings { reads_at: Some(pos), ..self.settings() }),
            stream.device() == (Device {
                exact: Some(stream.settings().faults()),
                sound: stream.settings().is_sound(),
                ..self.device()
            }),
    {
        let mut stream = self;
        stream.fail_reads_at = Some(pos);
        stream
    }

    /// All [`SeekFrom::Start`] seeks fail.
    pub fn failing_start_seeks(self) -> (stream: Self)
        ensures
            stream.wf() == self.wf(),
            stream.settings() == (Settings { start_seeks: true, ..self.settings() }),
            stream.device() == (Device {
                exact: Some(stream.settings().faults()),
                sound: stream.settings().is_sound(),
                ..self.device()
            }),
    {
        let mut stream = self;
        stream.fail_start_seeks = true;
        stream
    }

    /// All [`SeekFrom::End`] seeks fail.
    pub fn failing_end_seeks(self) -> (stream: Self)
        ensures
            stream.wf() == self.wf(),
            stream.settings() == (Settings { end_seeks: true, ..self.settings() }),
            stream.device() == (Device {
                exact: Some(stream.settings().faults()),
                sound: stream.settings().is_sound(),
                ..self.device()
            }),
    {
        let mut stream = self;
        stream.fail_end_seeks = true;
        stream
    }

    /// `stream_position` (a `SeekFrom::Current(0)` seek) fails.
    pub fn failing_position_seeks(self) -> (stream: Self)
        ensures
            stream.wf() == self.wf(),
            stream.settings() == (Settings { position_seeks: true, ..self.settings() }),
            stream.device() == (Device {
                exact: Some(stream.settings().faults()),
                sound: stream.settings().is_sound(),
                ..self.device()
            }),
    {
        let mut stream = self;
        stream.fail_position_seeks = true;
        stream
    }

    /// `flush` fails.
    pub fn failing_flush(self) -> (stream: Self)
        ensures
            stream.wf() == self.wf(),
            stream.settings() == (Settings { flush: true, ..self.settings() }),
            stream.device() == (Device {
                exact: Some(stream.settings().faults()),
                sound: stream.settings().is_sound(),
                ..self.device()
            }),
    {
        let mut stream = self;
        stream.fail_flush = true;
        stream
    }
}

impl Stream for FlakyWriter {
    open spec fn wf(&self) -> bool {
        true
    }

    closed spec fn device(&self) -> Device {
        Device {
            bytes: self.inner.device().bytes,
            pos: self.inner.device().pos,
            sound: self.settings().is_sound(),
            interrupts: 0,
            exact: Some(self.settings().faults()),
            failures: self.log@.failures,
            seeks: self.log@.seeks,
            reach: self.log@.reach,
            flushed: self.log@.flushed,
        }
    }

    proof fn lemma_fits(&self) {
        self.inner.lemma_fits();
    }
}

impl Read for FlakyWriter {
    fn read(&mut self, buf: &mut [u8]) -> (result: Result<usize, IoError>)
        ensures
            final(self).settings() == old(self).settings(),
    {
        let pos: u64 = self.inner.position();
        proof {
            self.log@ = self.log@.asked(pos as nat, buf@.len());
        }
        if is_at(self.fail_reads_at, pos) {
            let error = forced_error();
            proof {
                assert(self.settings().faults().reads.contains(pos as nat));
                self.log@ = self.log@.failed(error);
            }
            return Err(error);
        }
        assert(!self.settings().faults().reads.contains(pos as nat));
        assert(!self.settings().faults().zero_reads.contains(pos as nat));
        proof {
            self.inner.is_without_flaw();
        }
        self.inner.read(buf)
    }
}

impl Seek for FlakyWriter {
    fn seek(&mut self, to: SeekFrom) -> (result: Result<u64, IoError>)
        ensures
            final(self).settings() == old(self).settings(),
    {
        proof {
            self.log@ = self.log@.sought(to);
        }
        let forced = match to {
            SeekFrom::Start(_) => self.fail_start_seeks,
            SeekFrom::End(_) => self.fail_end_seeks,
            SeekFrom::Current(offset) => self.fail_position_seeks && offset == 0,
        };
        proof {
            self.inner.is_without_flaw();
        }
        let result = if forced {
            Err(forced_error())
        } else {
            self.inner.seek(to)
        };
        match result {
            Ok(pos) => Ok(pos),
            Err(error) => {
                proof {
                    self.log@ = self.log@.failed(error);
                }
                Err(error)
            },
        }
    }
}

impl Write for FlakyWriter {
    fn write(&mut self, data: &[u8]) -> (result: Result<usize, IoError>)
        ensures
            final(self).settings() == old(self).settings(),
    {
        let pos: u64 = self.inner.position();
        if is_at(self.fail_writes_at, pos) {
            let error = forced_error();
            proof {
                assert(self.settings().faults().writes.contains(pos as nat));
                self.log@ = self.log@.failed(error);
            }
            return Err(error);
        }
        assert(!self.settings().faults().writes.contains(pos as nat));
        proof {
            self.inner.is_without_flaw();
        }
        match self.inner.write(data) {
            Ok(count) => {
                proof {
                    if count > 0 {
                        self.log@ = self.log@.with_flushed(false);
                    }
                }
                Ok(count)
            },
            Err(error) => {
                proof {
                    self.log@ = self.log@.failed(error);
                }
                Err(error)
            },
        }
    }

    fn flush(&mut self) -> (result: Result<(), IoError>)
        ensures
            final(self).settings() == old(self).settings(),
    {
        if self.fail_flush {
            let error = forced_error();
            proof {
                self.log@ = self.log@.failed(error);
            }
            return Err(error);
        }
        proof {
            self.log@ = self.log@.with_flushed(true);
        }
        Ok(())
    }
}

/// A stream fails exactly where it was asked to, with one error for all its
/// failures, and is sound exactly if it was asked for none.
pub proof fn streams_fail_where_they_are_asked_to(settings: Settings, at: nat)
    ensures
        settings.faults().reads.contains(at) <==> {
            ||| settings.reads_from matches Some(from) && at >= from
            ||| settings.reads_at matches Some(pos) && at == pos
        },
        settings.faults().zero_reads.contains(at) <==> (settings.zero_reads_at matches Some(pos)
            && at == pos),
        settings.faults().writes.contains(at) <==> (settings.writes_at matches Some(pos) && at
            == pos),
        settings.faults().start_seeks == settings.start_seeks,
        settings.faults().end_seeks == settings.end_seeks,
        settings.faults().position_seeks == settings.position_seeks,
        settings.faults().flush == settings.flush,
        settings.faults().kind == IoErrorKind::Other,
        settings.faults().message == "forced I/O error"@,
        settings.is_sound() <==> {
            &&& settings.reads_from is None
            &&& settings.reads_at is None
            &&& settings.zero_reads_at is None
            &&& settings.writes_at is None
            &&& !settings.start_seeks
            &&& !settings.end_seeks
            &&& !settings.position_seeks
            &&& !settings.flush
        },
        Settings::none().reads_from is None && Settings::none().reads_at is None
            && Settings::none().zero_reads_at is None && Settings::none().writes_at is None,
        !Settings::none().start_seeks && !Settings::none().end_seeks
            && !Settings::none().position_seeks && !Settings::none().flush,
{
    let faults = settings.faults();
    if let Some(from) = settings.reads_from {
        assert(faults.reads.contains(from as nat));
    }
    if let Some(pos) = settings.reads_at {
        assert(faults.reads.contains(pos as nat));
    }
    if let Some(pos) = settings.zero_reads_at {
        assert(faults.zero_reads.contains(pos as nat));
    }
    if let Some(pos) = settings.writes_at {
        assert(faults.writes.contains(pos as nat));
    }
    if settings.reads_from is None && settings.reads_at is None {
        assert(faults.reads =~= Set::empty());
    }
    if settings.zero_reads_at is None {
        assert(faults.zero_reads =~= Set::empty());
    }
    if settings.writes_at is None {
        assert(faults.writes =~= Set::empty());
    }
}

} // verus!
