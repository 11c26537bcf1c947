//! In-memory streams.

#[allow(unused_imports)]
use crate::io::{
    Device, Faults, IoError, IoErrorKind, Log, Read, Seek, SeekFrom, Stream, Write,
};
use vstd::prelude::*;
use vstd::slice::slice_subrange;

verus! {

/// A byte vector with a position in it, read and written like a file.
pub struct Cursor {
    data: Vec<u8>,
    pos: u64,
    log: Ghost<Log>,
}

impl Cursor {
    /// A stream over `data`, positioned at its start.
    pub fn new(data: Vec<u8>) -> (cursor: Self)
        ensures
            cursor.wf(),
            cursor.device() == Device::fresh(data@),
    {
        Cursor { data, pos: 0, log: Ghost(Log::empty()) }
    }

    /// A stream in memory carries out everything in full.
    pub proof fn is_without_flaw(&self)
        ensures
            self.device().sound,
            self.device().exact == Some(Faults::none()),
    {
    }

    /// The position of the next read or write.
    pub fn position(&self) -> (pos: u64)
        ensures
            pos == self.device().pos,
    {
        self.pos
    }

    /// The bytes of the stream.
    pub fn into_inner(self) -> (data: Vec<u8>)
        ensures
            data@ == self.device().bytes,
    {
        self.data
    }
}

impl Stream for Cursor {
    open spec fn wf(&self) -> bool {
        true
    }

    closed spec fn device(&self) -> Device {
        Device {
            bytes: self.data@,
            pos: self.pos as nat,
            sound: true,
            interrupts: 0,
            exact: Some(Faults::none()),
            failures: self.log@.failures,
            seeks: self.log@.seeks,
            reach: self.log@.reach,
            flushed: true,
        }
    }

    proof fn lemma_fits(&self) {
        assert(self.data.len() == self.data@.len());
    }
}

impl Read for Cursor {
    fn read(&mut self, buf: &mut [u8]) -> (result: Result<usize, IoError>)
        ensures
            result is Ok,
    {
        let len: usize = self.data.len();
        proof {
            self.log@ = self.log@.asked(self.pos as nat, buf@.len());
        }
        if self.pos >= len as u64 {
            assert(buf@.take(0) =~= Device::window(self.data@, self.pos as int, 0));
            return Ok(0);
        }
        let start: usize = self.pos as usize;
        let count: usize = if buf.len() < len - start {
            buf.len()
        } else {
            len - start
        };
        let mut i: usize = 0;
        while i < count
            invariant
                i <= count <= buf@.len(),
                buf@.len() == old(buf)@.len(),
                start + count <= self.data.len(),
                forall|k: int| 0 <= k < i ==> buf@[k] == self.data@[start + k],
                forall|k: int| i <= k < buf@.len() ==> buf@[k] == old(buf)@[k],
            decreases count - i,
        {
            buf[i] = self.data[start + i];
            i = i + 1;
        }
        proof {
            assert(buf@.take(count as int) =~= Device::window(
                self.data@,
                start as int,
                count as int,
            ));
            assert(buf@.skip(count as int) =~= old(buf)@.skip(count as int));
        }
        self.pos = self.pos + count as u64;
        Ok(count)
    }
}

impl Seek for Cursor {
    fn seek(&mut self, to: SeekFrom) -> (result: Result<u64, IoError>)
        ensures
            ({
                let target = to.target((*old(self)).device().bytes.len(), (*old(self)).device().pos);
                match result {
                    Ok(pos) => pos == target,
                    Err(error) => {
                        &&& !(0 <= target <= u64::MAX)
                        &&& error.kind == IoErrorKind::InvalidInput
                        &&& error.message@ == "invalid seek to a negative or overflowing position"@
                    },
                }
            }),
    {
        let target: i128 = match to {
            SeekFrom::Start(offset) => offset as i128,
            SeekFrom::End(offset) => self.data.len() as i128 + offset as i128,
            SeekFrom::Current(offset) => self.pos as i128 + offset as i128,
        };
        proof {
            self.log@ = self.log@.sought(to);
        }
        if target < 0 || target > u64::MAX as i128 {
            let error = IoError::new(
                IoErrorKind::InvalidInput,
                "invalid seek to a negative or overflowing position",
            );
            proof {
                self.log@ = self.log@.failed(error);
            }
            return Err(error);
        }
        self.pos = target as u64;
        Ok(self.pos)
    }
}

impl Write for Cursor {
    fn write(&mut self, data: &[u8]) -> (result: Result<usize, IoError>)
        ensures
            result matches Err(error) ==> error.kind == IoErrorKind::InvalidInput,
    {
        let count: usize = data.len();
        if count == 0 {
            assert(data@.take(0) =~= Seq::<u8>::empty());
            return Ok(0);
        }
        if self.pos > self.data.len() as u64 {
            if self.pos > (usize::MAX - count) as u64 {
                let error = IoError::new(
                    IoErrorKind::InvalidInput,
                    "cursor position exceeds maximum possible vector length",
                );
                proof {
                    self.log@ = self.log@.failed(error);
                }
                return Err(error);
            }
            assert(self.data@ =~= old(self).data@ + Seq::new(0, |i: int| 0u8));
            while (self.data.len() as u64) < self.pos
                invariant
                    self.pos == old(self).pos,
                    self.log == old(self).log,
                    old(self).pos > old(self).data@.len(),
                    old(self).data@.len() <= self.data@.len() <= self.pos,
                    self.data@ == old(self).data@ + Seq::new(
                        (self.data@.len() - old(self).data@.len()) as nat,
                        |i: int| 0u8,
                    ),
                decreases self.pos - self.data@.len(),
            {
                self.data.push(0);
            }
        }
        let start: usize = self.pos as usize;
        let len: usize = self.data.len();
        let covered: usize = if count < len - start {
            count
        } else {
            len - start
        };
        let ghost padded = self.data@;
        let mut i: usize = 0;
        while i < covered
            invariant
                i <= covered <= count,
                start + covered <= len,
                count == data@.len(),
                self.pos == old(self).pos,
                self.log == old(self).log,
                self.data@.len() == len == padded.len(),
                forall|k: int| 0 <= k < i ==> self.data@[start + k] == data@[k],
                forall|k: int|
                    0 <= k < len && !(start <= k < start + i) ==> self.data@[k] == padded[k],
            decreases covered - i,
        {
            self.data[start + i] = data[i];
            i = i + 1;
        }
        let rest = slice_subrange(data, covered, count);
        let ghost patched = self.data@;
        self.data.extend_from_slice(rest);
        proof {
            assert(self.data@ =~= patched + rest@);
            assert(data@.take(count as int) =~= data@);
            assert(self.data@ =~= Device::overwrite(old(self).data@, start as int, data@));
            assert(start + count <= self.data.len());
        }
        self.pos = self.pos + count as u64;
        Ok(count)
    }

    fn flush(&mut self) -> (result: Result<(), IoError>) {
        Ok(())
    }
}

/// A byte vector as a stream that is written at its end.
impl Stream for Vec<u8> {
    open spec fn wf(&self) -> bool {
        true
    }

    open spec fn device(&self) -> Device {
        Device {
            bytes: self@,
            pos: self@.len(),
            sound: true,
            interrupts: 0,
            exact: Some(Faults::none()),
            failures: Seq::empty(),
            seeks: Seq::empty(),
            reach: 0,
            flushed: true,
        }
    }

    proof fn lemma_fits(&self) {
        assert(self.len() == self@.len());
    }
}

impl Write for Vec<u8> {
    fn write(&mut self, data: &[u8]) -> (result: Result<usize, IoError>) {
        self.extend_from_slice(data);
        proof {
            assert(data@.take(data@.len() as int) =~= data@);
            assert(self@ =~= Device::overwrite(old(self)@, old(self)@.len() as int, data@));
        }
        Ok(data.len())
    }

    fn flush(&mut self) -> (result: Result<(), IoError>) {
        Ok(())
    }
}

/// A vector is written at its end, and takes whatever it is given.
pub proof fn a_vector_is_appended_to(vector: Vec<u8>, data: Seq<u8>, after: Device)
    requires
        vector.device().writes_all(data, Ok(()), after),
    ensures
        vector.device().bytes == vector@,
        vector.device().pos == vector@.len(),
        vector.device().sound,
        after.bytes == vector@ + data,
{
    crate::io::all_that_is_written_is_there(vector.device(), data, Ok(()), after);
    assert(after.bytes =~= vector@ + data);
}

} // verus!
