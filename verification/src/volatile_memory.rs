//! Bounds-checked access to a stretch of host memory.

use crate::host_memory::{copy_bytes, overwrite, store, AreaView, HostMemory};
use vstd::prelude::*;

verus! {

/// `std::io::Error`, carried from the outside call that failed to the caller. Nothing is claimed of
/// its values.
#[verifier::external_type_specification]
#[verifier::external_body]
pub struct ExIoError(std::io::Error);

/// Errors of an access to a stretch of host memory.
#[derive(Debug)]
pub enum Error {
    /// `addr` is out of bounds of the memory.
    OutOfBounds { addr: usize },
    /// Taking a slice at `base` with `offset` would overflow `usize`.
    Overflow { base: usize, offset: usize },
    /// Reading from a source or writing to a sink failed.
    IOError(std::io::Error),
    /// Only a part of the buffer was read or written.
    PartialBuffer { expected: usize, completed: usize },
}

/// What is wrong with taking `count` bytes at `offset` from memory of `len` bytes, if anything.
pub open spec fn range_error(len: usize, offset: usize, count: usize) -> Option<Error> {
    if offset + count > usize::MAX {
        Some(Error::Overflow { base: offset, offset: count })
    } else if offset + count > len {
        Some(Error::OutOfBounds { addr: (offset + count) as usize })
    } else {
        None
    }
}

/// Whether `src`, asked for `count` bytes, can be called and then gives at most that many.
pub open spec fn reads_up_to<F>(src: F, count: usize) -> bool where
    F: FnOnce(usize) -> Result<Vec<u8>, std::io::Error>,
 {
    &&& call_requires(src, (count,))
    &&& forall|data: Vec<u8>| #[trigger]
        call_ensures(src, (count,), Ok(data)) ==> data@.len() <= count
}

/// Whether `src`, asked for `count` bytes, can be called and then gives exactly that many.
pub open spec fn reads_exactly<F>(src: F, count: usize) -> bool where
    F: FnOnce(usize) -> Result<Vec<u8>, std::io::Error>,
 {
    &&& call_requires(src, (count,))
    &&& forall|data: Vec<u8>| #[trigger]
        call_ensures(src, (count,), Ok(data)) ==> data@.len() == count
}

/// Whether `dst` can be called with the bytes `data`.
pub open spec fn accepts<F, T>(dst: F, data: Seq<u8>) -> bool where
    F: FnOnce(&[u8]) -> Result<T, std::io::Error>,
 {
    forall|out: &[u8]| out@ == data ==> #[trigger] call_requires(dst, (out,))
}

/// Whether `reply` is what `dst` can return when it is called with the bytes `data`.
pub open spec fn replies<F, T>(dst: F, data: Seq<u8>, reply: Result<T, std::io::Error>) -> bool where
    F: FnOnce(&[u8]) -> Result<T, std::io::Error>,
 {
    exists|out: &[u8]| out@ == data && #[trigger] call_ensures(dst, (out,), reply)
}

/// Computes `base + offset`.
pub fn compute_offset(base: usize, offset: usize) -> (end: Result<usize, Error>)
    ensures
        base + offset <= usize::MAX ==> end == Ok::<usize, Error>((base + offset) as usize),
        base + offset > usize::MAX ==> end == Err::<usize, Error>(Error::Overflow { base, offset }),
{
    match base.checked_add(offset) {
        None => Err(Error::Overflow { base, offset }),
        Some(end) => Ok(end),
    }
}

/// Checks that `count` bytes at `offset` lie within memory of `len` bytes, and returns their end.
pub fn compute_end_offset(len: usize, offset: usize, count: usize) -> (end: Result<usize, Error>)
    ensures
        match range_error(len, offset, count) {
            Some(e) => end == Err::<usize, Error>(e),
            None => end == Ok::<usize, Error>((offset + count) as usize),
        },
        end is Ok <==> offset + count <= len,
        end matches Ok(e) ==> e == offset + count,
{
    match compute_offset(offset, count) {
        Err(e) => Err(e),
        Ok(end) => {
            if end > len {
                return Err(Error::OutOfBounds { addr: end });
            }
            Ok(end)
        },
    }
}

/// What a slice of host memory is: where it starts in this process, how long it is, and where it
/// lies: in which area, from which byte on.
pub struct SliceView {
    pub addr: usize,
    pub len: usize,
    pub area: nat,
    pub start: nat,
}

impl SliceView {
    /// Whether the slice lies in an area of `mem`.
    pub open spec fn valid_in(self, mem: Seq<AreaView>) -> bool {
        &&& self.area < mem.len()
        &&& self.start + self.len <= mem[self.area as int].bytes.len()
        &&& self.addr == mem[self.area as int].addr + self.start
        &&& self.addr + self.len <= usize::MAX
    }

    /// The bytes of the slice.
    pub open spec fn bytes(self, mem: Seq<AreaView>) -> Seq<u8> {
        mem[self.area as int].bytes.subrange(self.start as int, self.start + self.len)
    }

    /// `mem` with `data` stored at offset `at` of the slice.
    pub open spec fn store(self, mem: Seq<AreaView>, at: int, data: Seq<u8>) -> Seq<AreaView> {
        store(mem, self.area as int, self.start + at, data)
    }

    /// How many of `count` bytes at offset `at` lie in the slice.
    pub open spec fn room(self, at: usize, count: nat) -> nat {
        if self.len <= at {
            0
        } else if count <= self.len - at {
            count
        } else {
            (self.len - at) as nat
        }
    }
}

/// A slice of host memory.
#[derive(Clone, Copy, Debug)]
pub struct VolatileSlice {
    addr: usize,
    size: usize,
    area: usize,
    start: usize,
}

impl View for VolatileSlice {
    type V = SliceView;

    closed spec fn view(&self) -> SliceView {
        SliceView {
            addr: self.addr,
            len: self.size,
            area: self.area as nat,
            start: self.start as nat,
        }
    }
}

impl VolatileSlice {
    /// The slice of `size` bytes that starts at byte `start` of the area with the number `area`,
    /// which is at the address `addr` of this process.
    pub(crate) fn new(addr: usize, size: usize, area: usize, start: usize) -> (slice: Self)
        ensures
            slice@ == (SliceView { addr, len: size, area: area as nat, start: start as nat }),
    {
        VolatileSlice { addr, size, area, start }
    }

    /// The address of the first byte.
    pub fn as_ptr(&self) -> (addr: usize)
        ensures
            addr == self@.addr,
    {
        self.addr
    }

    /// The number of bytes.
    pub fn len(&self) -> (len: usize)
        ensures
            len == self@.len,
    {
        self.size
    }

    /// Writes as much of `buf` as fits at offset `addr`, and returns how many bytes that is.
    pub fn write(&self, mem: &mut HostMemory<'_>, buf: &[u8], addr: usize) -> (written: Result<
        usize,
        Error,
    >)
        requires
            self@.valid_in(old(mem)@),
        ensures
            self@.len <= addr ==> written == Err::<usize, Error>(Error::OutOfBounds { addr }),
            addr < self@.len ==> written == Ok::<usize, Error>(
                self@.room(addr, buf@.len()) as usize,
            ),
            addr < self@.len ==> final(mem)@ == self@.store(
                old(mem)@,
                addr as int,
                buf@.take(self@.room(addr, buf@.len()) as int),
            ),
            self@.len <= addr ==> final(mem)@ == old(mem)@,
            final(mem).areas@.len() == old(mem).areas@.len(),
            forall|i: int|
                #![trigger final(mem).areas@[i]]
                0 <= i < old(mem).areas@.len() ==> final(final(mem).areas@[i].bytes)@
                    == final(old(mem).areas@[i].bytes)@,
    {
        if addr >= self.size {
            return Err(Error::OutOfBounds { addr });
        }
        let room: usize = self.size - addr;
        let count: usize = if buf.len() <= room { buf.len() } else { room };
        copy_bytes(mem.area_bytes_mut(self.area), self.start + addr, buf, 0, count);
        assert(buf@.subrange(0, count as int) =~= buf@.take(count as int));
        Ok(count)
    }

    /// Reads the bytes at offset `addr` into `buf`, as many as there are and fit, and returns how
    /// many that is.
    pub fn read(&self, mem: &HostMemory<'_>, buf: &mut [u8], addr: usize) -> (read: Result<
        usize,
        Error,
    >)
        requires
            self@.valid_in(mem@),
        ensures
            self@.len <= addr ==> read == Err::<usize, Error>(Error::OutOfBounds { addr }),
            addr < self@.len ==> read == Ok::<usize, Error>(
                self@.room(addr, old(buf)@.len()) as usize,
            ),
            addr < self@.len ==> final(buf)@ == overwrite(
                old(buf)@,
                0,
                self@.bytes(mem@).subrange(
                    addr as int,
                    (addr + self@.room(addr, old(buf)@.len())) as int,
                ),
            ),
            self@.len <= addr ==> final(buf)@ == old(buf)@,
    {
        if addr >= self.size {
            return Err(Error::OutOfBounds { addr });
        }
        let room: usize = self.size - addr;
        let count: usize = if buf.len() <= room { buf.len() } else { room };
        copy_bytes(buf, 0, mem.area_bytes(self.area), self.start + addr, count);
        assert(mem@[self.area as int].bytes.subrange(
            self.start + addr,
            self.start + addr + count,
        ) =~= self@.bytes(mem@).subrange(addr as int, addr + count));
        Ok(count)
    }

    /// Writes all of `buf` at offset `addr`. Where only a part fits, that part is written, and the
    /// error says how much it is.
    pub fn write_slice(&self, mem: &mut HostMemory<'_>, buf: &[u8], addr: usize) -> (written:
        Result<(), Error>)
        requires
            self@.valid_in(old(mem)@),
        ensures
            self@.len <= addr ==> written == Err::<(), Error>(Error::OutOfBounds { addr }),
            addr < self@.len && addr + buf@.len() <= self@.len ==> written == Ok::<(), Error>(()),
            addr < self@.len < addr + buf@.len() ==> written == Err::<(), Error>(
                Error::PartialBuffer {
                    expected: buf@.len() as usize,
                    completed: (self@.len - addr) as usize,
                },
            ),
            addr < self@.len ==> final(mem)@ == self@.store(
                old(mem)@,
                addr as int,
                buf@.take(self@.room(addr, buf@.len()) as int),
            ),
            self@.len <= addr ==> final(mem)@ == old(mem)@,
            final(mem).areas@.len() == old(mem).areas@.len(),
            forall|i: int|
                #![trigger final(mem).areas@[i]]
                0 <= i < old(mem).areas@.len() ==> final(final(mem).areas@[i].bytes)@
                    == final(old(mem).areas@[i].bytes)@,
    {
        match self.write(mem, buf, addr) {
            Err(e) => Err(e),
            Ok(completed) => {
                if completed != buf.len() {
                    return Err(Error::PartialBuffer { expected: buf.len(), completed });
                }
                Ok(())
            },
        }
    }

    /// Fills `buf` from offset `addr` on. Where only a part can be filled, that part is, and the
    /// error says how much it is.
    pub fn read_slice(&self, mem: &HostMemory<'_>, buf: &mut [u8], addr: usize) -> (read: Result<
        (),
        Error,
    >)
        requires
            self@.valid_in(mem@),
        ensures
            self@.len <= addr ==> read == Err::<(), Error>(Error::OutOfBounds { addr }),
            addr < self@.len && addr + old(buf)@.len() <= self@.len ==> read == Ok::<(), Error>(()),
            addr < self@.len < addr + old(buf)@.len() ==> read == Err::<(), Error>(
                Error::PartialBuffer {
                    expected: old(buf)@.len() as usize,
                    completed: (self@.len - addr) as usize,
                },
            ),
            addr < self@.len ==> final(buf)@ == overwrite(
                old(buf)@,
                0,
                self@.bytes(mem@).subrange(
                    addr as int,
                    (addr + self@.room(addr, old(buf)@.len())) as int,
                ),
            ),
            self@.len <= addr ==> final(buf)@ == old(buf)@,
    {
        let expected: usize = buf.len();
        match self.read(mem, buf, addr) {
            Err(e) => Err(e),
            Ok(completed) => {
                if completed != expected {
                    return Err(Error::PartialBuffer { expected, completed });
                }
                Ok(())
            },
        }
    }

    /// Stores at offset `addr` what one read of at most `count` bytes from `src` gives, and returns
    /// how many bytes that is. Nothing is read where `count` bytes at `addr` are not in the slice.
    pub fn read_from<F>(&self, mem: &mut HostMemory<'_>, addr: usize, src: F, count: usize) -> (read:
        Result<usize, Error>) where F: FnOnce(usize) -> Result<Vec<u8>, std::io::Error>
        requires
            self@.valid_in(old(mem)@),
            range_error(self@.len, addr, count) is None ==> reads_up_to(src, count),
        ensures
            range_error(self@.len, addr, count) matches Some(e) ==> read == Err::<usize, Error>(e)
                && final(mem)@ == old(mem)@,
            range_error(self@.len, addr, count) is None ==> exists|reply|
                {
                    &&& #[trigger] call_ensures(src, (count,), reply)
                    &&& match reply {
                        Ok(data) => {
                            &&& read == Ok::<usize, Error>(data@.len() as usize)
                            &&& final(mem)@ == self@.store(old(mem)@, addr as int, data@)
                        },
                        Err(e) => {
                            &&& read == Err::<usize, Error>(Error::IOError(e))
                            &&& final(mem)@ == old(mem)@
                        },
                    }
                },
            final(mem).areas@.len() == old(mem).areas@.len(),
            forall|i: int|
                #![trigger final(mem).areas@[i]]
                0 <= i < old(mem).areas@.len() ==> final(final(mem).areas@[i].bytes)@
                    == final(old(mem).areas@[i].bytes)@,
    {
        match compute_end_offset(self.size, addr, count) {
            Err(e) => Err(e),
            Ok(_) => {
                let reply = src(count);
                match reply {
                    Err(e) => Err(Error::IOError(e)),
                    Ok(data) => {
                        let len: usize = data.len();
                        copy_bytes(mem.area_bytes_mut(self.area), self.start + addr, &data, 0, len);
                        assert(data@.subrange(0, len as int) =~= data@);
                        Ok(len)
                    },
                }
            },
        }
    }

    /// Stores at offset `addr` the `count` bytes that `src` gives. Nothing is read where `count`
    /// bytes at `addr` are not in the slice.
    pub fn read_exact_from<F>(
        &self,
        mem: &mut HostMemory<'_>,
        addr: usize,
        src: F,
        count: usize,
    ) -> (read: Result<(), Error>) where F: FnOnce(usize) -> Result<Vec<u8>, std::io::Error>
        requires
            self@.valid_in(old(mem)@),
            range_error(self@.len, addr, count) is None ==> reads_exactly(src, count),
        ensures
            range_error(self@.len, addr, count) matches Some(e) ==> read == Err::<(), Error>(e)
                && final(mem)@ == old(mem)@,
            range_error(self@.len, addr, count) is None ==> exists|reply|
                {
                    &&& #[trigger] call_ensures(src, (count,), reply)
                    &&& match reply {
                        Ok(data) => {
                            &&& read == Ok::<(), Error>(())
                            &&& final(mem)@ == self@.store(old(mem)@, addr as int, data@)
                        },
                        Err(e) => {
                            &&& read == Err::<(), Error>(Error::IOError(e))
                            &&& final(mem)@ == old(mem)@
                        },
                    }
                },
            final(mem).areas@.len() == old(mem).areas@.len(),
            forall|i: int|
                #![trigger final(mem).areas@[i]]
                0 <= i < old(mem).areas@.len() ==> final(final(mem).areas@[i].bytes)@
                    == final(old(mem).areas@[i].bytes)@,
    {
        match self.read_from(mem, addr, src, count) {
            Err(e) => Err(e),
            Ok(_) => Ok(()),
        }
    }

    /// Hands the `count` bytes at offset `addr` to `dst` and returns how many of them it took.
    /// Nothing is handed out where they are not all in the slice.
    pub fn write_to<F>(&self, mem: &HostMemory<'_>, addr: usize, dst: F, count: usize) -> (written:
        Result<usize, Error>) where F: FnOnce(&[u8]) -> Result<usize, std::io::Error>
        requires
            self@.valid_in(mem@),
            range_error(self@.len, addr, count) is None ==> accepts(
                dst,
                self@.bytes(mem@).subrange(addr as int, addr + count),
            ),
        ensures
            range_error(self@.len, addr, count) matches Some(e) ==> written == Err::<usize, Error>(
                e,
            ),
            range_error(self@.len, addr, count) is None ==> exists|reply|
                {
                    &&& #[trigger] replies(
                        dst,
                        self@.bytes(mem@).subrange(addr as int, addr + count),
                        reply,
                    )
                    &&& match reply {
                        Ok(taken) => written == Ok::<usize, Error>(taken),
                        Err(e) => written == Err::<usize, Error>(Error::IOError(e)),
                    }
                },
    {
        match compute_end_offset(self.size, addr, count) {
            Err(e) => Err(e),
            Ok(end) => {
                let out = &mem.area_bytes(self.area)[self.start + addr..self.start + end];
                assert(out@ =~= self@.bytes(mem@).subrange(addr as int, addr + count));
                let reply = dst(out);
                assert(replies(dst, self@.bytes(mem@).subrange(addr as int, addr + count), reply));
                match reply {
                    Err(e) => Err(Error::IOError(e)),
                    Ok(taken) => Ok(taken),
                }
            },
        }
    }

    /// Hands the `count` bytes at offset `addr` to `dst`, which takes them all or fails. Nothing is
    /// handed out where they are not all in the slice.
    pub fn write_all_to<F>(&self, mem: &HostMemory<'_>, addr: usize, dst: F, count: usize) -> (written:
        Result<(), Error>) where F: FnOnce(&[u8]) -> Result<(), std::io::Error>
        requires
            self@.valid_in(mem@),
            range_error(self@.len, addr, count) is None ==> accepts(
                dst,
                self@.bytes(mem@).subrange(addr as int, addr + count),
            ),
        ensures
            range_error(self@.len, addr, count) matches Some(e) ==> written == Err::<(), Error>(e),
            range_error(self@.len, addr, count) is None ==> exists|reply|
                {
                    &&& #[trigger] replies(
                        dst,
                        self@.bytes(mem@).subrange(addr as int, addr + count),
                        reply,
                    )
                    &&& match reply {
                        Ok(_) => written == Ok::<(), Error>(()),
                        Err(e) => written == Err::<(), Error>(Error::IOError(e)),
                    }
                },
    {
        match compute_end_offset(self.size, addr, count) {
            Err(e) => Err(e),
            Ok(end) => {
                let out = &mem.area_bytes(self.area)[self.start + addr..self.start + end];
                assert(out@ =~= self@.bytes(mem@).subrange(addr as int, addr + count));
                let reply = dst(out);
                assert(replies(dst, self@.bytes(mem@).subrange(addr as int, addr + count), reply));
                match reply {
                    Err(e) => Err(Error::IOError(e)),
                    Ok(_) => Ok(()),
                }
            },
        }
    }
}

} // verus!
