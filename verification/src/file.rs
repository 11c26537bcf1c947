//! A proxy for the data of one file in an archive.

#[allow(unused_imports)]
use crate::io::{
    Device, Faults, IoError, IoErrorKind, Log, Read, Seek, SeekFrom, Stream, Write, CHUNK,
};
#[allow(unused_imports)]
use crate::text::{self, decimal_text, quote};
use vstd::prelude::*;
use vstd::slice::slice_subrange;
use vstd::string::*;

verus! {

/// A proxy for one file's data inside an archive.
///
/// The proxy serves reads and seeks lazily from the archive's underlying
/// reader: no file data is copied into memory, and sequential reads never
/// seek. `seek` is likewise lazy: it only updates the proxy's position, and
/// the next read repositions the reader. So it touches the reader not at all
/// and only fails for a position before the entry's start.
///
/// Reading past the end of the file returns `Ok(0)`.
pub struct File<'a, R> {
    reader: &'a mut R,
    name: String,
    start: u64,
    size: u64,
    pos: u64,
    // Whether `reader` is known to be positioned at `start + pos`. Cleared by
    // `new` and by `seek`, so that the next read repositions the reader.
    reader_positioned: bool,
    log: Ghost<Log>,
}

impl<'a, R> File<'a, R> {
    /// The reader that the file's data comes from.
    pub closed spec fn reader(&self) -> &'a mut R {
        self.reader
    }

    /// The name of the file.
    pub closed spec fn file_name(&self) -> Seq<char> {
        self.name@
    }

    /// Where the file's data starts in the reader.
    pub closed spec fn start(&self) -> u64 {
        self.start
    }

    /// How long the file's data is.
    pub closed spec fn declared_size(&self) -> u64 {
        self.size
    }

    /// Whether the reader stands where the next read is served from, so that
    /// this read needs no seek.
    pub closed spec fn in_place(&self) -> bool {
        self.reader_positioned
    }

    /// Once a file is no longer used, its reader is as the file left it.
    pub broadcast proof fn reader_resolves(file: &File<'a, R>)
        ensures
            #[trigger] has_resolved(*file) ==> has_resolved(file.reader()),
    {
    }

    /// The 8.3-style name of the file.
    pub fn name(&self) -> (name: &str)
        ensures
            name@ == self.file_name(),
    {
        self.name.as_str()
    }

    /// The declared size of the file in bytes.
    pub fn size(&self) -> (size: u64)
        ensures
            size == self.declared_size(),
    {
        self.size
    }
}

impl<'a, R: Stream> File<'a, R> {
    /// The current position within the file, in bytes.
    pub fn position(&self) -> (pos: u64)
        ensures
            pos == self.device().pos,
    {
        self.pos
    }

    /// The file as it is shown in debugging output: its name, its size and
    /// the current position.
    pub fn debug_text(&self) -> (shown: String)
        ensures
            shown@ == "File { name: "@ + text::quoted(self.file_name()) + ", size: "@
                + text::decimal(self.declared_size() as nat) + ", pos: "@ + text::decimal(
                self.device().pos,
            ) + " }"@,
    {
        let mut shown = String::new();
        shown.append("File { name: ");
        shown.append(quote(self.name.as_str()).as_str());
        shown.append(", size: ");
        shown.append(decimal_text(self.size).as_str());
        shown.append(", pos: ");
        shown.append(decimal_text(self.pos).as_str());
        shown.append(" }");
        assert(shown@ =~= "File { name: "@ + text::quoted(self.file_name()) + ", size: "@
            + text::decimal(self.declared_size() as nat) + ", pos: "@ + text::decimal(
            self.device().pos,
        ) + " }"@);
        shown
    }

    /// How a file fails whose reader fails in the given way, as far as this
    /// depends on the position alone: where seeks from the start fail, it also
    /// depends on whether the reader is in place.
    pub open spec fn seen(exact: Option<Faults>, start: u64, size: u64) -> Option<Faults> {
        match exact {
            Some(faults) => if faults.start_seeks {
                None
            } else {
                Some(faults.within(start as nat, size as nat))
            },
            None => None,
        }
    }

    /// A file of `size` bytes from `start` on of the stream `inner`, to which
    /// nothing has happened.
    pub open spec fn untouched(inner: Device, start: u64, size: u64) -> Device {
        Device {
            bytes: inner.bytes.subrange(start as int, start + size),
            pos: 0,
            sound: inner.sound,
            interrupts: inner.interrupts,
            exact: File::<'a, R>::seen(inner.exact, start, size),
            failures: Seq::empty(),
            seeks: Seq::empty(),
            reach: 0,
            flushed: true,
        }
    }

    /// Whether `next` is the same file of the same reader, which holds what it
    /// held and is consistent.
    pub open spec fn stays_over(&self, next: &Self) -> bool {
        &&& next.file_name() == self.file_name()
        &&& next.start() == self.start()
        &&& next.declared_size() == self.declared_size()
        &&& next.reader().wf()
        &&& next.reader().device().bytes == self.reader().device().bytes
        &&& self.reader().device().continues_as(next.reader().device())
        &&& next.reader().device().flushed == self.reader().device().flushed
    }

    /// How many bytes a read into a buffer of `want` bytes asks the reader
    /// for: no more than the buffer holds, and none of another file.
    pub open spec fn asks(&self, want: nat) -> nat {
        if self.device().pos >= self.declared_size() {
            0
        } else if want < self.declared_size() - self.device().pos {
            want
        } else {
            (self.declared_size() - self.device().pos) as nat
        }
    }

    /// Where the next read is served from in the reader.
    pub open spec fn place(&self) -> nat {
        self.start() as nat + self.device().pos
    }

    /// What a read into a buffer that was `old_buf` and is `buf` afterwards
    /// does to the reader. It leaves the reader alone where there is nothing
    /// to read; otherwise it seeks only if the reader is not in place, and
    /// asks for nothing outside the file.
    pub open spec fn serves(
        &self,
        old_buf: Seq<u8>,
        result: Result<usize, IoError>,
        buf: Seq<u8>,
        next: &Self,
    ) -> bool {
        let before = self.reader().device();
        let after = next.reader().device();
        let asked = self.asks(buf.len());
        if asked == 0 {
            &&& result == Ok::<usize, IoError>(0)
            &&& *next.reader() == *self.reader()
            &&& next.in_place() == self.in_place()
            &&& buf == old_buf
        } else {
            &&& before.continues_as(after)
            &&& after.bytes == before.bytes
            &&& after.flushed == before.flushed
            &&& after.seeks == if self.in_place() {
                before.seeks
            } else {
                before.seeks.push(SeekFrom::Start(self.place() as u64))
            }
            &&& after.reach <= Device::asked(before.reach, self.place(), asked)
            &&& buf.skip(asked as int) == old_buf.skip(asked as int)
            &&& match result {
                Ok(count) => {
                    &&& count <= asked
                    &&& next.in_place()
                    &&& after.failures == before.failures
                    &&& after.reach == Device::asked(before.reach, self.place(), asked)
                },
                Err(error) => {
                    &&& after.failures == before.failures.push(error)
                    &&& self.in_place() ==> next.in_place()
                },
            }
            &&& before.exact matches Some(faults) ==> if (!self.in_place() && faults.start_seeks)
                || faults.reads.contains(self.place()) {
                &&& result matches Err(error)
                &&& faults.is_forced(error)
                &&& buf == old_buf
            } else {
                &&& result matches Ok(count)
                &&& count == if faults.zero_reads.contains(self.place()) {
                    0
                } else {
                    asked
                }
                &&& buf.skip(count as int) == old_buf.skip(count as int)
            }
        }
    }

    /// What reading on, in as many reads as it takes to read `want` bytes or to
    /// fail, does to the reader. As with a single read, it leaves the reader
    /// alone where there is nothing to read, seeks only if the reader is not in
    /// place, only to that place, and asks for nothing outside the file.
    pub open spec fn goes_through(&self, want: nat, next: &Self) -> bool {
        let before = self.reader().device();
        let after = next.reader().device();
        let asked = self.asks(want);
        &&& before.fault(after) == self.device().fault(next.device())
        &&& after.reach <= Device::asked(before.reach, self.place(), asked)
        &&& if asked == 0 {
            *next.reader() == *self.reader()
        } else if self.in_place() {
            after.seeks == before.seeks
        } else {
            &&& after.seeks.len() > before.seeks.len()
            &&& forall|k: int|
                before.seeks.len() <= k < after.seeks.len() ==> #[trigger] after.seeks[k]
                    == SeekFrom::Start(self.place() as u64)
        }
        &&& before.exact matches Some(faults) ==> (before.fault(after) matches Some(reported)
            ==> faults.is_forced(reported))
        &&& before.exact matches Some(faults) ==> faults.start_seeks && !self.in_place() && asked
            > 0 ==> {
            &&& before.fault(after) is Some
            &&& next.device().pos == self.device().pos
        }
    }

    /// Sequential reads never seek: after a read that gave some bytes, the
    /// next one leaves the reader's position to the reader.
    pub proof fn sequential_reads_never_seek(
        first: &Self,
        old_buf: Seq<u8>,
        count: usize,
        buf: Seq<u8>,
        second: &Self,
        next_old_buf: Seq<u8>,
        result: Result<usize, IoError>,
        next_buf: Seq<u8>,
        third: &Self,
    )
        requires
            count > 0,
            first.serves(old_buf, Ok(count), buf, second),
            second.serves(next_old_buf, result, next_buf, third),
        ensures
            third.reader().device().seeks == second.reader().device().seeks,
    {
    }
}

impl<'a, R: Read + Seek> File<'a, R> {
    /// A proxy for the `size` bytes of `reader` that start at `start`.
    pub fn new(reader: &'a mut R, name: String, start: u64, size: u64) -> (file: Self)
        requires
            (*old(reader)).wf(),
            start + size <= u64::MAX,
            start + size <= (*old(reader)).device().bytes.len(),
        ensures
            file.wf(),
            *file.reader() == *old(reader),
            *final(file.reader()) == *final(reader),
            file.file_name() == name@,
            file.start() == start,
            file.declared_size() == size,
            !file.in_place(),
            file.device() == File::<'a, R>::untouched((*old(reader)).device(), start, size),
    {
        File {
            reader,
            name,
            start,
            size,
            pos: 0,
            reader_positioned: false,
            log: Ghost(Log::empty()),
        }
    }
}

impl<'a, R: Stream> Stream for File<'a, R> {
    closed spec fn wf(&self) -> bool {
        let inner = self.reader.device();
        &&& self.reader.wf()
        &&& self.start + self.size <= u64::MAX
        &&& self.start + self.size <= inner.bytes.len()
        &&& self.reader_positioned ==> inner.pos == self.start + self.pos
    }

    closed spec fn device(&self) -> Device {
        let inner = self.reader.device();
        Device {
            bytes: inner.bytes.subrange(self.start as int, self.start + self.size),
            pos: self.pos as nat,
            sound: inner.sound,
            interrupts: inner.interrupts,
            exact: File::<'a, R>::seen(inner.exact, self.start, self.size),
            failures: self.log@.failures,
            seeks: self.log@.seeks,
            reach: self.log@.reach,
            flushed: true,
        }
    }

    proof fn lemma_fits(&self) {
    }
}

impl<'a, R: Read + Seek> Read for File<'a, R> {
    #[verifier::rlimit(60)]
    fn read(&mut self, buf: &mut [u8]) -> (result: Result<usize, IoError>)
        ensures
            *final(final(self).reader()) == *final(old(self).reader()),
            old(self).stays_over(final(self)),
            old(self).serves(old(buf)@, result, final(buf)@, final(self)),
    {
        proof {
            self.log@ = self.log@.asked(self.pos as nat, buf@.len());
        }
        let ghost inner = self.reader.device();
        if self.pos >= self.size || buf.len() == 0 {
            assert(buf@.take(0) =~= Device::window(self.device().bytes, self.pos as int, 0));
            return Ok(0);
        }
        if !self.reader_positioned {
            match self.reader.seek(SeekFrom::Start(self.start + self.pos)) {
                Ok(_) => {
                    self.reader_positioned = true;
                },
                Err(error) => {
                    proof {
                        self.log@ = self.log@.failed(error);
                    }
                    return Err(error);
                },
            }
        }
        let left: u64 = self.size - self.pos;
        let to_read: usize = if left < buf.len() as u64 {
            left as usize
        } else {
            buf.len()
        };
        let (head, _) = buf.split_at_mut(to_read);
        let ghost whole = self.reader.device().bytes;
        let ghost head_before = head@;
        match self.reader.read(head) {
            Ok(count) => {
                proof {
                    let at = self.start + self.pos;
                    let got = head@.take(count as int);
                    assert(got.len() == count);
                    assert(buf@.take(count as int) =~= got);
                    assert(buf@.skip(to_read as int) =~= old(buf)@.skip(to_read as int));
                    if inner.exact is Some {
                        assert forall|k: int| count <= k < buf@.len() implies buf@[k] == old(buf)@[k] by {
                            if k < to_read {
                                assert(head@.skip(count as int)[k - count] == head_before.skip(
                                    count as int,
                                )[k - count]);
                            }
                        }
                        assert(buf@.skip(count as int) =~= old(buf)@.skip(count as int));
                    }
                    assert(Device::window(whole, at, count as int) =~= Device::window(
                        whole.subrange(self.start as int, self.start + self.size),
                        self.pos as int,
                        count as int,
                    ));
                }
                self.pos = self.pos + count as u64;
                Ok(count)
            },
            Err(error) => {
                proof {
                    assert(buf@.skip(to_read as int) =~= old(buf)@.skip(to_read as int));
                    if inner.exact is Some {
                        assert(buf@ =~= old(buf)@);
                    }
                    self.log@ = self.log@.failed(error);
                }
                Err(error)
            },
        }
    }

    fn read_exact(&mut self, buf: &mut [u8]) -> (result: Result<(), IoError>)
        ensures
            *final(final(self).reader()) == *final(old(self).reader()),
            old(self).stays_over(final(self)),
            old(self).goes_through(old(buf)@.len(), final(self)),
    {
        let want: usize = buf.len();
        let mut done: usize = 0;
        let ghost before = self.device();
        let ghost inner = self.reader().device();
        let ghost mut tried = false;
        assert(buf@.take(0) =~= Device::window(before.bytes, before.pos as int, 0));
        while done < want
            invariant
                self.wf(),
                *final(self.reader()) == *final(old(self).reader()),
                old(self).stays_over(self),
                self.reader().wf(),
                inner == old(self).reader().device(),
                inner.fault(self.reader().device()) is None,
                self.reader().device().reach <= Device::asked(
                    inner.reach,
                    old(self).place(),
                    old(self).asks(want as nat),
                ),
                done == 0 && old(self).in_place() ==> self.in_place(),
                done > 0 ==> self.in_place(),
                old(self).in_place() ==> self.reader().device().seeks == inner.seeks,
                !old(self).in_place() && (self.in_place() || tried) && old(self).asks(want as nat)
                    > 0 ==> self.reader().device().seeks.len() > inner.seeks.len(),
                forall|k: int|
                    inner.seeks.len() <= k < self.reader().device().seeks.len()
                        ==> #[trigger] self.reader().device().seeks[k] == SeekFrom::Start(
                        old(self).place() as u64,
                    ),
                old(self).asks(want as nat) == 0 ==> done == 0 && *self.reader()
                    == *old(self).reader(),
                inner.exact matches Some(faults) ==> faults.start_seeks && !old(self).in_place()
                    && old(self).asks(want as nat) > 0 ==> done == 0 && !self.in_place(),
                before == (*old(self)).device(),
                want == buf@.len() == old(buf)@.len(),
                done <= want,
                before.continues_as(self.device()),
                before.fault(self.device()) is None,
                self.device().bytes == before.bytes,
                self.device().seeks == before.seeks,
                self.device().flushed == before.flushed,
                self.device().reach == if done == 0 && !tried {
                    before.reach
                } else {
                    Device::asked(before.reach, before.pos, want as nat)
                },
                done > 0 ==> tried,
                before.exact is Some ==> (tried <==> done > 0),
                before.exact matches Some(faults) ==> done > 0 ==> {
                    &&& !faults.reads.contains(before.pos)
                    &&& !faults.zero_reads.contains(before.pos)
                    &&& before.pos < before.bytes.len()
                    &&& done == want || before.pos + done == before.bytes.len()
                },
                self.device().pos == before.pos + done,
                done > 0 ==> before.pos + done <= before.bytes.len(),
                buf@.take(done as int) == Device::window(before.bytes, before.pos as int, done as int),
            decreases want - done + self.device().interrupts,
        {
            let ghost current = self.device();
            let ghost filled = buf@;
            let (_, rest) = buf.split_at_mut(done);
            proof {
                tried = true;
            }
            match self.read(rest) {
                Ok(count) => {
                    if count == 0 {
                        return Err(
                            IoError::new(
                                IoErrorKind::UnexpectedEof,
                                "failed to fill whole buffer",
                            ),
                        );
                    }
                    proof {
                        let got = rest@.take(count as int);
                        assert(got.len() == count);
                        let joined = Device::window(before.bytes, before.pos as int, done + count);
                        assert(joined =~= filled.take(done as int) + got);
                        assert(buf@.take(done + count) =~= joined);
                    }
                    done = done + count;
                },
                Err(error) => {
                    assert(buf@.take(done as int) =~= filled.take(done as int));
                    if error.kind != IoErrorKind::Interrupted {
                        return Err(error);
                    }
                },
            }
        }
        assert(buf@.take(want as int) =~= buf@);
        Ok(())
    }

    fn read_to_end(&mut self, out: &mut Vec<u8>) -> (result: Result<usize, IoError>)
        ensures
            *final(final(self).reader()) == *final(old(self).reader()),
            old(self).stays_over(final(self)),
            old(self).goes_through(old(self).declared_size() as nat, final(self)),
    {
        let ghost before = self.device();
        let result = self.copy_to(out);
        proof {
            let start = old(out)@.len() as int;
            let data = Device::window(before.bytes, before.pos as int, out@.len() - start);
            assert(out@ =~= old(out)@ + data);
            assert(out@.skip(start) =~= data);
            assert(old(out)@ =~= out@.take(start));
            assert(out@.len() == out.len());
        }
        match result {
            Ok(count) => Ok(count as usize),
            Err(error) => Err(error),
        }
    }
}

impl<'a, R: Read + Seek> Seek for File<'a, R> {
    fn seek(&mut self, to: SeekFrom) -> (result: Result<u64, IoError>)
        ensures
            *final(self).reader() == *old(self).reader(),
            *final(final(self).reader()) == *final(old(self).reader()),
            old(self).stays_over(final(self)),
            ({
                let target = to.target(
                    old(self).declared_size() as nat,
                    (*old(self)).device().pos,
                );
                match result {
                    Ok(pos) => {
                        &&& target >= 0
                        &&& pos == target % 0x1_0000_0000_0000_0000
                        &&& !final(self).in_place()
                    },
                    Err(error) => {
                        &&& target < 0
                        &&& error.kind == IoErrorKind::InvalidInput
                        &&& error.message@ == "seek position before start of entry"@
                        &&& final(self).in_place() == old(self).in_place()
                    },
                }
            }),
    {
        let target: i128 = match to {
            SeekFrom::Start(offset) => offset as i128,
            SeekFrom::End(offset) => self.size as i128 + offset as i128,
            SeekFrom::Current(offset) => self.pos as i128 + offset as i128,
        };
        proof {
            self.log@ = self.log@.sought(to);
        }
        if target < 0 {
            let error = IoError::new(
                IoErrorKind::InvalidInput,
                "seek position before start of entry",
            );
            proof {
                self.log@ = self.log@.failed(error);
            }
            return Err(error);
        }
        let pos: u64 = (target % 0x1_0000_0000_0000_0000) as u64;
        self.pos = pos;
        self.reader_positioned = false;
        Ok(pos)
    }

    fn rewind(&mut self) -> (result: Result<(), IoError>)
        ensures
            result is Ok,
            *final(self).reader() == *old(self).reader(),
            *final(final(self).reader()) == *final(old(self).reader()),
            old(self).stays_over(final(self)),
    {
        match self.seek(SeekFrom::Start(0)) {
            Ok(_) => Ok(()),
            Err(error) => Err(error),
        }
    }

    fn stream_position(&mut self) -> (result: Result<u64, IoError>)
        ensures
            result == Ok::<u64, IoError>((*old(self)).device().pos as u64),
            *final(self).reader() == *old(self).reader(),
            *final(final(self).reader()) == *final(old(self).reader()),
            old(self).stays_over(final(self)),
    {
        proof {
            self.lemma_fits();
        }
        self.seek(SeekFrom::Current(0))
    }
}

impl<'a, R: Read + Seek> File<'a, R> {
    /// Copy everything from the current position on into `sink`, and return
    /// the number of bytes copied.
    pub fn copy_to<W: Write>(&mut self, sink: &mut W) -> (result: Result<u64, IoError>)
        requires
            (*old(self)).wf(),
            (*old(sink)).wf(),
        ensures
            (*final(self)).wf(),
            (*final(sink)).wf(),
            Device::copies(
                (*old(self)).device(),
                (*old(sink)).device(),
                result,
                (*final(self)).device(),
                (*final(sink)).device(),
            ),
            *final(final(self).reader()) == *final(old(self).reader()),
            old(self).stays_over(final(self)),
            old(self).goes_through(old(self).declared_size() as nat, final(self)),
            (*old(self)).device().pos >= old(self).declared_size() ==> result == Ok::<
                u64,
                IoError,
            >(0),
    {
        let mut chunk: Vec<u8> = vec![0; CHUNK];
        let mut copied: u64 = 0;
        let ghost source = self.device();
        let ghost target = sink.device();
        let ghost inner = self.reader().device();
        proof {
            let nothing = Device::window(source.bytes, source.pos as int, 0);
            assert(Device::overwrite(target.bytes, target.pos as int, nothing) =~= target.bytes);
        }
        loop
            invariant
                self.wf(),
                sink.wf(),
                source == (*old(self)).device(),
                target == (*old(sink)).device(),
                inner == old(self).reader().device(),
                chunk@.len() == CHUNK,
                *final(self.reader()) == *final(old(self).reader()),
                old(self).stays_over(self),
                inner.continues_as(self.reader().device()),
                self.reader().device().bytes == inner.bytes,
                inner.fault(self.reader().device()) is None,
                self.reader().device().flushed == inner.flushed,
                self.reader().device().reach <= Device::asked(
                    inner.reach,
                    old(self).place(),
                    old(self).asks(old(self).declared_size() as nat),
                ),
                copied == 0 && old(self).in_place() ==> self.in_place(),
                copied > 0 ==> self.in_place(),
                old(self).in_place() ==> self.reader().device().seeks == inner.seeks,
                self.in_place() && !old(self).in_place() ==> self.reader().device().seeks.len()
                    > inner.seeks.len(),
                forall|k: int|
                    inner.seeks.len() <= k < self.reader().device().seeks.len()
                        ==> #[trigger] self.reader().device().seeks[k] == SeekFrom::Start(
                        old(self).place() as u64,
                    ),
                inner.exact matches Some(faults) ==> faults.start_seeks && !old(self).in_place()
                    && source.pos < self.declared_size() ==> copied == 0 && !self.in_place(),
                source.exact matches Some(faults) ==> copied > 0 ==> {
                    &&& !faults.reads.contains(source.pos)
                    &&& !faults.zero_reads.contains(source.pos)
                },
                target.exact matches Some(faults) ==> copied > 0 ==> !faults.writes.contains(
                    target.pos,
                ),
                source.pos >= self.declared_size() ==> copied == 0 && *self.reader()
                    == *old(self).reader(),
                source.continues_as(self.device()),
                self.device().bytes == source.bytes,
                self.device().seeks == source.seeks,
                source.fault(self.device()) is None,
                target.continues_as(sink.device()),
                target.fault(sink.device()) is None,
                sink.device().seeks == target.seeks,
                self.device().pos == source.pos + copied,
                copied > 0 ==> self.device().pos <= source.bytes.len(),
                sink.device().pos == target.pos + copied,
                copied == 0 ==> sink.device() == target,
                copied > 0 ==> sink.device().pos <= sink.device().bytes.len(),
                sink.device().bytes == Device::overwrite(
                    target.bytes,
                    target.pos as int,
                    Device::window(source.bytes, source.pos as int, copied as int),
                ),
            decreases
                    source.bytes.len() + source.pos - self.device().pos
                        + self.device().interrupts,
        {
            let ghost current = self.device();
            match self.read(chunk.as_mut_slice()) {
                Ok(count) => {
                    if count == 0 {
                        return Ok(copied);
                    }
                    let got = slice_subrange(chunk.as_slice(), 0, count);
                    let ghost first = Device::window(source.bytes, source.pos as int, copied as int);
                    let ghost before = sink.device();
                    proof {
                        assert(got@ =~= chunk@.take(count as int));
                        assert(first.len() == copied);
                    }
                    match sink.write_all(got) {
                        Ok(()) => {
                            proof {
                                assert(got@.take(count as int) =~= got@);
                                Device::lemma_overwrite_twice(
                                    target.bytes,
                                    target.pos as int,
                                    first,
                                    got@,
                                );
                                assert(Device::window(source.bytes, source.pos as int, copied + count)
                                    =~= first + got@);
                                assert(source.bytes.len() <= u64::MAX);
                            }
                            copied = copied + count as u64;
                        },
                        Err(error) => {
                            proof {
                                let put = sink.device().pos - before.pos;
                                Device::lemma_overwrite_twice(
                                    target.bytes,
                                    target.pos as int,
                                    first,
                                    got@.take(put),
                                );
                                assert(Device::window(source.bytes, source.pos as int, copied + put)
                                    =~= first + got@.take(put));
                            }
                            return Err(error);
                        },
                    }
                },
                Err(error) => {
                    if error.kind != IoErrorKind::Interrupted {
                        return Err(error);
                    }
                },
            }
        }
    }
}

impl<'a, R: Stream> File<'a, R> {
    /// A file that is opened is the bytes of its part of the stream, from their
    /// start.
    pub proof fn a_file_is_a_part_of_its_stream(inner: Device, start: u64, size: u64)
        requires
            start + size <= inner.bytes.len(),
        ensures
            ({
                let file = File::<'a, R>::untouched(inner, start, size);
                &&& file.bytes.len() == size
                &&& forall|i: int|
                    0 <= i < size ==> #[trigger] file.bytes[i] == inner.bytes[start + i]
                &&& file.pos == 0
                &&& file.sound == inner.sound
                &&& file.failures.len() == 0
                &&& file.seeks.len() == 0
                &&& file.reach == 0
            }),
    {
    }

    /// A read of a file asks its stream for nothing beyond the file's data. It
    /// seeks at most once, to where the file stands, and not if the stream
    /// stands there. At the end of the file, or with an empty buffer, it gives
    /// nothing and leaves the stream alone.
    pub proof fn a_read_stays_within_the_file(
        &self,
        old_buf: Seq<u8>,
        result: Result<usize, IoError>,
        buf: Seq<u8>,
        next: &Self,
    )
        requires
            self.serves(old_buf, result, buf, next),
        ensures
            ({
                let before = self.reader().device();
                let after = next.reader().device();
                let left = self.declared_size() - self.device().pos;
                &&& left <= 0 || buf.len() == 0 ==> {
                    &&& result == Ok::<usize, IoError>(0)
                    &&& *next.reader() == *self.reader()
                    &&& buf == old_buf
                }
                &&& left > 0 && buf.len() > 0 ==> {
                    &&& after.bytes == before.bytes
                    &&& after.seeks == if self.in_place() {
                        before.seeks
                    } else {
                        before.seeks.push(
                            SeekFrom::Start((self.start() as nat + self.device().pos) as u64),
                        )
                    }
                    &&& after.reach == before.reach || after.reach <= self.start()
                        + self.declared_size()
                    &&& result matches Ok(count) ==> count <= left && count <= buf.len()
                        && next.in_place()
                    &&& result matches Err(error) ==> after.failures == before.failures.push(error)
                }
            }),
    {
    }

    /// Reading on within a file asks its stream for nothing beyond the file's
    /// data, and seeks only to where the file stood, and not if the stream stood
    /// there.
    pub proof fn reading_on_stays_within_the_file(&self, want: nat, next: &Self, k: int)
        requires
            self.goes_through(want, next),
            self.stays_over(next),
        ensures
            ({
                let before = self.reader().device();
                let after = next.reader().device();
                &&& next.file_name() == self.file_name()
                &&& next.start() == self.start()
                &&& next.declared_size() == self.declared_size()
                &&& after.bytes == before.bytes
                &&& after.reach == before.reach || after.reach <= self.start()
                    + self.declared_size()
                &&& self.in_place() ==> after.seeks == before.seeks
                &&& before.seeks.len() <= k < after.seeks.len() ==> after.seeks[k]
                    == SeekFrom::Start((self.start() as nat + self.device().pos) as u64)
                &&& self.device().pos >= self.declared_size() || want == 0 ==> *next.reader()
                    == *self.reader()
            }),
    {
    }
}

impl<'a, R: Stream> File<'a, R> {
    /// Whatever is done with a file, it stays the same file of the same bytes.
    pub proof fn a_file_stays_the_same(&self, next: &Self)
        requires
            self.stays_over(next),
        ensures
            next.file_name() == self.file_name(),
            next.start() == self.start(),
            next.declared_size() == self.declared_size(),
            next.reader().device().bytes == self.reader().device().bytes,
            next.reader().device().sound == self.reader().device().sound,
            next.reader().device().flushed == self.reader().device().flushed,
    {
    }

    /// A file fails in reading where its stream does, with the same error. If
    /// its stream cannot be sent to where the file stands, a read fails with
    /// that; and where nothing hinders it, a read gives all it is asked for, up
    /// to the end of the file.
    pub proof fn a_file_fails_where_its_stream_does(
        &self,
        faults: Faults,
        old_buf: Seq<u8>,
        result: Result<usize, IoError>,
        buf: Seq<u8>,
        next: &Self,
    )
        requires
            self.serves(old_buf, result, buf, next),
            self.reader().device().exact == Some(faults),
            buf.len() > 0,
            self.device().pos < self.declared_size(),
        ensures
            ({
                let at = (self.start() as nat + self.device().pos) as nat;
                let left = self.declared_size() - self.device().pos;
                let hindered = (faults.start_seeks && !self.in_place()) || faults.reads.contains(
                    at,
                );
                &&& hindered ==> (result matches Err(error) && error.kind == faults.kind
                    && error.message@ == faults.message)
                &&& !hindered && faults.zero_reads.contains(at) ==> result == Ok::<usize, IoError>(
                    0,
                )
                &&& !hindered && !faults.zero_reads.contains(at) ==> (result matches Ok(count)
                    && count == if buf.len() < left {
                    buf.len() as int
                } else {
                    left
                })
            }),
            faults.start_seeks ==> File::<'a, R>::seen(
                Some(faults),
                self.start(),
                self.declared_size(),
            ) is None,
            !faults.start_seeks ==> (File::<'a, R>::seen(
                Some(faults),
                self.start(),
                self.declared_size(),
            ) matches Some(seen) && forall|k: nat|
                k < self.declared_size() ==> {
                    &&& #[trigger] seen.reads.contains(k) <==> faults.reads.contains(
                        (self.start() + k) as nat,
                    )
                    &&& seen.zero_reads.contains(k) <==> faults.zero_reads.contains(
                        (self.start() + k) as nat,
                    )
                }),
    {
    }
}

} // verus!
