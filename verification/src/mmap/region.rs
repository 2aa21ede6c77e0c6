//! A region of guest memory: a mapping and the guest address at which it starts.

use crate::address::{GuestAddress, GuestUsize, MemoryRegionAddress};
use crate::guest_memory::{guest_error, Error, RegionView};
use crate::host_memory::{overwrite, AreaView, HostMemory};
use crate::mmap::mapping::MmapRegion;
use crate::volatile_memory::{accepts, range_error, reads_exactly, reads_up_to, replies};
use vstd::prelude::*;

verus! {

/// Tracks a mapping of memory in this process and the corresponding base address in the guest's
/// memory space.
#[derive(Debug)]
pub struct GuestRegionMmap {
    mapping: MmapRegion,
    guest_base: GuestAddress,
}

impl View for GuestRegionMmap {
    type V = RegionView;

    closed spec fn view(&self) -> RegionView {
        RegionView { base: self.guest_base.0, mapping: self.mapping@ }
    }
}

impl std::ops::Deref for GuestRegionMmap {
    type Target = MmapRegion;

    fn deref(&self) -> (mapping: &MmapRegion)
        ensures
            mapping@ == self@.mapping,
    {
        &self.mapping
    }
}

impl GuestRegionMmap {
    /// Creates a region of guest memory that starts at `guest_base`.
    ///
    /// The caller sees to it that `guest_base` and the length of the mapping do not add up to more
    /// than the largest guest address.
    pub fn new(mapping: MmapRegion, guest_base: GuestAddress) -> (region: Self)
        ensures
            region@ == (RegionView { base: guest_base.0, mapping: mapping@ }),
    {
        GuestRegionMmap { mapping, guest_base }
    }

    /// The address in this process of the byte at offset `addr`, or `None` if that is out of bounds.
    pub fn get_host_address(&self, addr: MemoryRegionAddress) -> (host: Option<usize>)
        ensures
            addr.0 < self@.mapping.len ==> host == Some((self@.mapping.addr + addr.0) as usize),
            addr.0 < self@.mapping.len ==> self@.mapping.addr + addr.0 <= usize::MAX,
            addr.0 >= self@.mapping.len ==> host is None,
    {
        proof {
            use_type_invariant(&self.mapping);
        }
        if addr.raw_value() < self.len() {
            Some(self.mapping.as_ptr() + addr.raw_value() as usize)
        } else {
            None
        }
    }

    /// The number of bytes in the region.
    pub fn len(&self) -> (len: GuestUsize)
        ensures
            len == self@.mapping.len,
    {
        self.mapping.len() as GuestUsize
    }

    /// The first address of the region.
    pub fn min_addr(&self) -> (addr: GuestAddress)
        ensures
            addr.0 == self@.base,
    {
        self.guest_base
    }

    /// The address right behind the region.
    pub fn max_addr(&self) -> (addr: GuestAddress)
        requires
            self@.bounded(),
        ensures
            addr.0 == self@.end(),
    {
        self.min_addr().unchecked_add(self.len())
    }

    /// The offset of a guest address in the region, or `None` if the region does not hold it.
    pub fn to_region_addr(&self, addr: GuestAddress) -> (offset: Option<MemoryRegionAddress>)
        ensures
            self@.covers(addr.0 as int) ==> offset == Some(
                MemoryRegionAddress((addr.0 - self@.base) as u64),
            ),
            !self@.covers(addr.0 as int) ==> offset is None,
    {
        match addr.checked_offset_from(self.min_addr()) {
            None => None,
            Some(offset) => {
                if offset < self.len() {
                    Some(MemoryRegionAddress(offset))
                } else {
                    None
                }
            },
        }
    }

    /// The bytes of the region.
    pub fn as_slice<'m>(&self, mem: &'m HostMemory<'_>) -> (bytes: Option<&'m [u8]>)
        requires
            self@.mapping.mapped_in(mem@),
        ensures
            bytes matches Some(b) && b@ == self@.mapping.bytes(mem@),
    {
        Some(self.mapping.as_slice(mem))
    }

    /// The bytes of the region, to be changed in place.
    pub fn as_mut_slice<'m>(&self, mem: &'m mut HostMemory<'_>) -> (bytes: Option<&'m mut [u8]>)
        requires
            self@.mapping.mapped_in(old(mem)@),
        ensures
            bytes matches Some(b) && {
                &&& b@ == self@.mapping.bytes(old(mem)@)
                &&& final(mem)@ == old(mem)@.update(
                    self@.mapping.area as int,
                    AreaView { addr: self@.mapping.addr, bytes: final(b)@ },
                )
            },
            final(mem).areas@.len() == old(mem).areas@.len(),
            forall|i: int|
                #![trigger final(mem).areas@[i]]
                0 <= i < old(mem).areas@.len() ==> final(final(mem).areas@[i].bytes)@
                    == final(old(mem).areas@[i].bytes)@,
    {
        Some(self.mapping.as_mut_slice(mem))
    }

    /// Writes as much of `buf` as fits at offset `addr`, and returns how many bytes that is.
    pub fn write(
        &self,
        mem: &mut HostMemory<'_>,
        buf: &[u8],
        addr: MemoryRegionAddress,
    ) -> (written: Result<usize, Error>)
        requires
            self@.mapping.mapped_in(old(mem)@),
        ensures
            ({
                let at = addr.0 as usize;
                let n = self@.mapping.room(at, buf@.len());
                if at < self@.mapping.len {
                    &&& written == Ok::<usize, Error>(n as usize)
                    &&& final(mem)@ == self@.mapping.store(
                        old(mem)@,
                        at as int,
                        buf@.take(n as int),
                    )
                } else {
                    &&& written == Err::<usize, Error>(Error::InvalidBackendAddress)
                    &&& final(mem)@ == old(mem)@
                }
            }),
            final(mem).areas@.len() == old(mem).areas@.len(),
            forall|i: int|
                #![trigger final(mem).areas@[i]]
                0 <= i < old(mem).areas@.len() ==> final(final(mem).areas@[i].bytes)@
                    == final(old(mem).areas@[i].bytes)@,
    {
        let maddr: usize = addr.raw_value() as usize;
        match self.as_volatile_slice().write(mem, buf, maddr) {
            Ok(count) => Ok(count),
            Err(e) => Err(Error::from(e)),
        }
    }

    /// Reads the bytes at offset `addr` into `buf`, as many as there are and fit, and returns how
    /// many that is.
    pub fn read(
        &self,
        mem: &HostMemory<'_>,
        buf: &mut [u8],
        addr: MemoryRegionAddress,
    ) -> (read: Result<usize, Error>)
        requires
            self@.mapping.mapped_in(mem@),
        ensures
            ({
                let at = addr.0 as usize;
                let n = self@.mapping.room(at, old(buf)@.len());
                if at < self@.mapping.len {
                    &&& read == Ok::<usize, Error>(n as usize)
                    &&& final(buf)@ == overwrite(
                        old(buf)@,
                        0,
                        self@.mapping.bytes(mem@).subrange(at as int, at + n),
                    )
                } else {
                    &&& read == Err::<usize, Error>(Error::InvalidBackendAddress)
                    &&& final(buf)@ == old(buf)@
                }
            }),
    {
        let maddr: usize = addr.raw_value() as usize;
        match self.as_volatile_slice().read(mem, buf, maddr) {
            Ok(count) => Ok(count),
            Err(e) => Err(Error::from(e)),
        }
    }

    /// Writes all of `buf` at offset `addr`. Where only a part fits, that part is written, and the
    /// error says how much it is.
    pub fn write_slice(
        &self,
        mem: &mut HostMemory<'_>,
        buf: &[u8],
        addr: MemoryRegionAddress,
    ) -> (written: Result<(), Error>)
        requires
            self@.mapping.mapped_in(old(mem)@),
        ensures
            ({
                let at = addr.0 as usize;
                let n = self@.mapping.room(at, buf@.len());
                if at < self@.mapping.len {
                    &&& written == if n == buf@.len() {
                        Ok::<(), Error>(())
                    } else {
                        Err(
                            Error::PartialBuffer {
                                expected: buf@.len() as usize,
                                completed: n as usize,
                            },
                        )
                    }
                    &&& final(mem)@ == self@.mapping.store(
                        old(mem)@,
                        at as int,
                        buf@.take(n as int),
                    )
                } else {
                    &&& written == Err::<(), Error>(Error::InvalidBackendAddress)
                    &&& final(mem)@ == old(mem)@
                }
            }),
            final(mem).areas@.len() == old(mem).areas@.len(),
            forall|i: int|
                #![trigger final(mem).areas@[i]]
                0 <= i < old(mem).areas@.len() ==> final(final(mem).areas@[i].bytes)@
                    == final(old(mem).areas@[i].bytes)@,
    {
        let maddr: usize = addr.raw_value() as usize;
        match self.as_volatile_slice().write_slice(mem, buf, maddr) {
            Ok(()) => Ok(()),
            Err(e) => Err(Error::from(e)),
        }
    }

    /// Fills `buf` from offset `addr` on. Where only a part can be filled, that part is, and the
    /// error says how much it is.
    pub fn read_slice(
        &self,
        mem: &HostMemory<'_>,
        buf: &mut [u8],
        addr: MemoryRegionAddress,
    ) -> (read: Result<(), Error>)
        requires
            self@.mapping.mapped_in(mem@),
        ensures
            ({
                let at = addr.0 as usize;
                let n = self@.mapping.room(at, old(buf)@.len());
                if at < self@.mapping.len {
                    &&& read == if n == old(buf)@.len() {
                        Ok::<(), Error>(())
                    } else {
                        Err(
                            Error::PartialBuffer {
                                expected: old(buf)@.len() as usize,
                                completed: n as usize,
                            },
                        )
                    }
                    &&& final(buf)@ == overwrite(
                        old(buf)@,
                        0,
                        self@.mapping.bytes(mem@).subrange(at as int, at + n),
                    )
                } else {
                    &&& read == Err::<(), Error>(Error::InvalidBackendAddress)
                    &&& final(buf)@ == old(buf)@
                }
            }),
    {
        let maddr: usize = addr.raw_value() as usize;
        match self.as_volatile_slice().read_slice(mem, buf, maddr) {
            Ok(()) => Ok(()),
            Err(e) => Err(Error::from(e)),
        }
    }

    /// Stores at offset `addr` what one read of at most `count` bytes from `src` gives, and returns
    /// how many bytes that is. Nothing is read where `count` bytes at `addr` are not in the region.
    pub fn read_from<F>(
        &self,
        mem: &mut HostMemory<'_>,
        addr: MemoryRegionAddress,
        src: F,
        count: usize,
    ) -> (read: Result<usize, Error>) where F: FnOnce(usize) -> Result<Vec<u8>, std::io::Error>
        requires
            self@.mapping.mapped_in(old(mem)@),
            range_error(self@.mapping.len, addr.0 as usize, count) is None ==> reads_up_to(
                src,
                count,
            ),
        ensures
            match range_error(self@.mapping.len, addr.0 as usize, count) {
                Some(e) => {
                    &&& read == Err::<usize, Error>(guest_error(e))
                    &&& final(mem)@ == old(mem)@
                },
                None => exists|reply|
                    {
                        &&& #[trigger] call_ensures(src, (count,), reply)
                        &&& match reply {
                            Ok(data) => {
                                &&& read == Ok::<usize, Error>(data@.len() as usize)
                                &&& final(mem)@ == self@.mapping.store(
                                    old(mem)@,
                                    (addr.0 as usize) as int,
                                    data@,
                                )
                            },
                            Err(e) => {
                                &&& read == Err::<usize, Error>(Error::IOError(e))
                                &&& final(mem)@ == old(mem)@
                            },
                        }
                    },
            },
            final(mem).areas@.len() == old(mem).areas@.len(),
            forall|i: int|
                #![trigger final(mem).areas@[i]]
                0 <= i < old(mem).areas@.len() ==> final(final(mem).areas@[i].bytes)@
                    == final(old(mem).areas@[i].bytes)@,
    {
        let maddr: usize = addr.raw_value() as usize;
        match self.as_volatile_slice().read_from(mem, maddr, src, count) {
            Ok(len) => Ok(len),
            Err(e) => Err(Error::from(e)),
        }
    }

    /// Stores at offset `addr` the `count` bytes that `src` gives. Nothing is read where `count`
    /// bytes at `addr` are not in the region.
    pub fn read_exact_from<F>(
        &self,
        mem: &mut HostMemory<'_>,
        addr: MemoryRegionAddress,
        src: F,
        count: usize,
    ) -> (read: Result<(), Error>) where F: FnOnce(usize) -> Result<Vec<u8>, std::io::Error>
        requires
            self@.mapping.mapped_in(old(mem)@),
            range_error(self@.mapping.len, addr.0 as usize, count) is None ==> reads_exactly(
                src,
                count,
            ),
        ensures
            match range_error(self@.mapping.len, addr.0 as usize, count) {
                Some(e) => {
                    &&& read == Err::<(), Error>(guest_error(e))
                    &&& final(mem)@ == old(mem)@
                },
                None => exists|reply|
                    {
                        &&& #[trigger] call_ensures(src, (count,), reply)
                        &&& match reply {
                            Ok(data) => {
                                &&& read == Ok::<(), Error>(())
                                &&& final(mem)@ == self@.mapping.store(
                                    old(mem)@,
                                    (addr.0 as usize) as int,
                                    data@,
                                )
                            },
                            Err(e) => {
                                &&& read == Err::<(), Error>(Error::IOError(e))
                                &&& final(mem)@ == old(mem)@
                            },
                        }
                    },
            },
            final(mem).areas@.len() == old(mem).areas@.len(),
            forall|i: int|
                #![trigger final(mem).areas@[i]]
                0 <= i < old(mem).areas@.len() ==> final(final(mem).areas@[i].bytes)@
                    == final(old(mem).areas@[i].bytes)@,
    {
        let maddr: usize = addr.raw_value() as usize;
        match self.as_volatile_slice().read_exact_from(mem, maddr, src, count) {
            Ok(()) => Ok(()),
            Err(e) => Err(Error::from(e)),
        }
    }

    /// Hands the `count` bytes at offset `addr` to `dst` and returns how many of them it took.
    /// Nothing is handed out where they are not all in the region.
    pub fn write_to<F>(
        &self,
        mem: &HostMemory<'_>,
        addr: MemoryRegionAddress,
        dst: F,
        count: usize,
    ) -> (written: Result<usize, Error>) where F: FnOnce(&[u8]) -> Result<usize, std::io::Error>
        requires
            self@.mapping.mapped_in(mem@),
            range_error(self@.mapping.len, addr.0 as usize, count) is None ==> accepts(
                dst,
                self@.mapping.bytes(mem@).subrange(
                    (addr.0 as usize) as int,
                    (addr.0 as usize) + count,
                ),
            ),
        ensures
            match range_error(self@.mapping.len, addr.0 as usize, count) {
                Some(e) => written == Err::<usize, Error>(guest_error(e)),
                None => exists|reply|
                    {
                        &&& #[trigger] replies(
                            dst,
                            self@.mapping.bytes(mem@).subrange(
                                (addr.0 as usize) as int,
                                (addr.0 as usize) + count,
                            ),
                            reply,
                        )
                        &&& match reply {
                            Ok(taken) => written == Ok::<usize, Error>(taken),
                            Err(e) => written == Err::<usize, Error>(Error::IOError(e)),
                        }
                    },
            },
    {
        let maddr: usize = addr.raw_value() as usize;
        let slice = self.as_volatile_slice();
        assert(slice@.bytes(mem@) =~= self@.mapping.bytes(mem@));
        match slice.write_to(mem, maddr, dst, count) {
            Ok(taken) => Ok(taken),
            Err(e) => Err(Error::from(e)),
        }
    }

    /// Hands the `count` bytes at offset `addr` to `dst`, which takes them all or fails. Nothing is
    /// handed out where they are not all in the region.
    pub fn write_all_to<F>(
        &self,
        mem: &HostMemory<'_>,
        addr: MemoryRegionAddress,
        dst: F,
        count: usize,
    ) -> (written: Result<(), Error>) where F: FnOnce(&[u8]) -> Result<(), std::io::Error>
        requires
            self@.mapping.mapped_in(mem@),
            range_error(self@.mapping.len, addr.0 as usize, count) is None ==> accepts(
                dst,
                self@.mapping.bytes(mem@).subrange(
                    (addr.0 as usize) as int,
                    (addr.0 as usize) + count,
                ),
            ),
        ensures
            match range_error(self@.mapping.len, addr.0 as usize, count) {
                Some(e) => written == Err::<(), Error>(guest_error(e)),
                None => exists|reply|
                    {
                        &&& #[trigger] replies(
                            dst,
                            self@.mapping.bytes(mem@).subrange(
                                (addr.0 as usize) as int,
                                (addr.0 as usize) + count,
                            ),
                            reply,
                        )
                        &&& match reply {
                            Ok(_) => written == Ok::<(), Error>(()),
                            Err(e) => written == Err::<(), Error>(Error::IOError(e)),
                        }
                    },
            },
    {
        let maddr: usize = addr.raw_value() as usize;
        let slice = self.as_volatile_slice();
        assert(slice@.bytes(mem@) =~= self@.mapping.bytes(mem@));
        match slice.write_all_to(mem, maddr, dst, count) {
            Ok(()) => Ok(()),
            Err(e) => Err(Error::from(e)),
        }
    }
}

} // verus!
