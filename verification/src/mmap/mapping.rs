//! A continuous mapping in this process.
//!
//! The mapping itself is made by a function that the caller hands in: it gets a [`MapRequest`] and
//! the host memory that there is, and lends the bytes that it mapped in a place apart from that.

use crate::guest_memory::MappingView;
use crate::host_memory::{areas_apart, AreaView, HostArea, HostMemory};
use crate::volatile_memory;
use crate::volatile_memory::{compute_end_offset, range_error, VolatileSlice};
use vstd::prelude::*;

verus! {

/// What the kernel is asked to map. It chooses the address.
#[derive(Clone, Copy, Debug, PartialEq, Eq, Structural)]
pub struct MapRequest {
    /// The number of bytes.
    pub len: usize,
    /// Whether the memory can be read.
    pub read: bool,
    /// Whether the memory can be written.
    pub write: bool,
    /// Whether writes are shared with others that map the same memory.
    pub shared: bool,
    /// Whether the memory is not backed by a file.
    pub anonymous: bool,
    /// Whether no swap space is set aside for the memory.
    pub no_reserve: bool,
    /// The file descriptor of the file that backs the memory, or -1.
    pub fd: i32,
    /// The byte of the file at which the memory starts.
    pub offset: i64,
}

impl MapRequest {
    /// The request for `size` bytes of shared memory that no file backs.
    pub open spec fn anonymous_request(size: usize) -> Self {
        MapRequest {
            len: size,
            read: true,
            write: true,
            shared: true,
            anonymous: true,
            no_reserve: true,
            fd: (-1) as i32,
            offset: 0,
        }
    }

    /// The request for the `size` bytes of a file that start at `offset`.
    pub open spec fn file_request(fd: i32, size: usize, offset: i64) -> Self {
        MapRequest {
            len: size,
            read: true,
            write: true,
            shared: true,
            anonymous: false,
            no_reserve: false,
            fd,
            offset,
        }
    }
}

/// Whether `mmap` can be called with `request` and the host memory `mem`, and then lends memory of
/// the length asked for, which is not 0. All of it has an address, and none that an area of `mem`
/// has.
pub open spec fn can_map<'a, F>(mmap: F, request: MapRequest, mem: HostMemory<'a>) -> bool where
    F: FnOnce(MapRequest, &HostMemory<'a>) -> Result<HostArea<'a>, std::io::Error>,
 {
    &&& call_requires(mmap, (request, &mem))
    &&& forall|area: HostArea<'a>| #[trigger]
        call_ensures(mmap, (request, &mem), Ok(area)) ==> {
            &&& area@.bytes.len() == request.len > 0
            &&& area@.addr + request.len <= usize::MAX
            &&& forall|i: int|
                #![trigger mem@[i]]
                0 <= i < mem@.len() ==> mem@[i].apart_from(area@)
        }
}

/// Whether `region` is what comes of the kernel's `reply` to a request for a mapping, and `after`
/// is what becomes of the host memory `before`: the memory that was lent is a further area of it,
/// and the region is that area.
pub open spec fn region_of_reply<'a>(
    reply: Result<HostArea<'a>, std::io::Error>,
    before: Seq<HostArea<'a>>,
    after: Seq<HostArea<'a>>,
    region: Result<MmapRegion, std::io::Error>,
) -> bool {
    match reply {
        Ok(area) => {
            &&& after == before.push(area)
            &&& region matches Ok(region) && region@ == MappingView {
                addr: area@.addr,
                len: area@.bytes.len() as usize,
                area: before.len(),
            }
        },
        Err(e) => {
            &&& after == before
            &&& region == Err::<MmapRegion, std::io::Error>(e)
        },
    }
}

/// A continuous mapping in this process.
#[derive(Debug)]
pub struct MmapRegion {
    addr: usize,
    size: usize,
    area: usize,
}

impl View for MmapRegion {
    type V = MappingView;

    closed spec fn view(&self) -> MappingView {
        MappingView { addr: self.addr, len: self.size, area: self.area as nat }
    }
}

impl MmapRegion {
    /// There is a byte, and every byte has an address.
    #[verifier::type_invariant]
    pub open spec fn valid(&self) -> bool {
        0 < self@.len <= usize::MAX - self@.addr
    }

    /// Creates an anonymous shared mapping of `size` bytes.
    pub fn new<'a, F>(size: usize, mem: &mut HostMemory<'a>, mmap: F) -> (region: Result<
        Self,
        std::io::Error,
    >) where F: FnOnce(MapRequest, &HostMemory<'a>) -> Result<HostArea<'a>, std::io::Error>
        requires
            can_map(mmap, MapRequest::anonymous_request(size), *old(mem)),
        ensures
            exists|reply|
                {
                    &&& #[trigger] call_ensures(
                        mmap,
                        (MapRequest::anonymous_request(size), &*old(mem)),
                        reply,
                    )
                    &&& region_of_reply(reply, old(mem).areas@, final(mem).areas@, region)
                },
            region matches Ok(r) ==> {
                &&& r@.len == size > 0
                &&& r@.mapped_in(final(mem)@)
                &&& final(mem)@ == old(mem)@.push(final(mem)@.last())
                &&& forall|i: int|
                    #![trigger old(mem)@[i]]
                    0 <= i < old(mem)@.len() ==> old(mem)@[i].apart_from(final(mem)@.last())
            },
            areas_apart(old(mem)@) ==> areas_apart(final(mem)@),
    {
        let request = MapRequest {
            len: size,
            read: true,
            write: true,
            shared: true,
            anonymous: true,
            no_reserve: true,
            fd: -1,
            offset: 0,
        };
        let reply = mmap(request, mem);
        let ghost lent = reply;
        let region = Self::adopt(reply, mem);
        assert(lent matches Ok(area) ==> mem@ =~= old(mem)@.push(area@));
        assert(call_ensures(mmap, (MapRequest::anonymous_request(size), &*old(mem)), lent));
        region
    }

    /// Maps the `size` bytes starting at `offset` bytes of the file that `fd` refers to.
    pub fn from_fd<'a, F>(
        fd: i32,
        size: usize,
        offset: i64,
        mem: &mut HostMemory<'a>,
        mmap: F,
    ) -> (region: Result<Self, std::io::Error>) where
        F: FnOnce(MapRequest, &HostMemory<'a>) -> Result<HostArea<'a>, std::io::Error>,

        requires
            can_map(mmap, MapRequest::file_request(fd, size, offset), *old(mem)),
        ensures
            exists|reply|
                {
                    &&& #[trigger] call_ensures(
                        mmap,
                        (MapRequest::file_request(fd, size, offset), &*old(mem)),
                        reply,
                    )
                    &&& region_of_reply(reply, old(mem).areas@, final(mem).areas@, region)
                },
            region matches Ok(r) ==> {
                &&& r@.len == size > 0
                &&& r@.mapped_in(final(mem)@)
                &&& final(mem)@ == old(mem)@.push(final(mem)@.last())
                &&& forall|i: int|
                    #![trigger old(mem)@[i]]
                    0 <= i < old(mem)@.len() ==> old(mem)@[i].apart_from(final(mem)@.last())
            },
            areas_apart(old(mem)@) ==> areas_apart(final(mem)@),
    {
        let request = MapRequest {
            len: size,
            read: true,
            write: true,
            shared: true,
            anonymous: false,
            no_reserve: false,
            fd,
            offset,
        };
        let reply = mmap(request, mem);
        let ghost lent = reply;
        let region = Self::adopt(reply, mem);
        assert(lent matches Ok(area) ==> mem@ =~= old(mem)@.push(area@));
        assert(call_ensures(mmap, (MapRequest::file_request(fd, size, offset), &*old(mem)), lent));
        region
    }

    /// Takes the memory that was lent in reply to a request into `mem`.
    fn adopt<'a>(
        reply: Result<HostArea<'a>, std::io::Error>,
        mem: &mut HostMemory<'a>,
    ) -> (region: Result<Self, std::io::Error>)
        requires
            reply matches Ok(area) ==> 0 < area@.bytes.len() <= usize::MAX - area@.addr,
        ensures
            region_of_reply(reply, old(mem).areas@, final(mem).areas@, region),
    {
        match reply {
            Err(e) => Err(e),
            Ok(lent) => {
                let addr: usize = lent.addr();
                let size: usize = lent.len();
                let area: usize = mem.add_area(lent);
                Ok(MmapRegion { addr, size, area })
            },
        }
    }

    /// Returns the address of the beginning of the memory region.
    pub fn as_ptr(&self) -> (addr: usize)
        ensures
            addr == self@.addr,
    {
        self.addr
    }

    /// The bytes of the mapping.
    pub fn as_slice<'m>(&self, mem: &'m HostMemory<'_>) -> (bytes: &'m [u8])
        requires
            self@.mapped_in(mem@),
        ensures
            bytes@ == self@.bytes(mem@),
    {
        mem.area_bytes(self.area)
    }

    /// The bytes of the mapping, to be changed in place.
    pub fn as_mut_slice<'m>(&self, mem: &'m mut HostMemory<'_>) -> (bytes: &'m mut [u8])
        requires
            self@.mapped_in(old(mem)@),
        ensures
            bytes@ == self@.bytes(old(mem)@),
            final(mem)@ == old(mem)@.update(
                self@.area as int,
                (AreaView { addr: self@.addr, bytes: final(bytes)@ }),
            ),
            final(mem).areas@.len() == old(mem).areas@.len(),
            forall|i: int|
                #![trigger final(mem).areas@[i]]
                0 <= i < old(mem).areas@.len() ==> final(final(mem).areas@[i].bytes)@
                    == final(old(mem).areas@[i].bytes)@,
    {
        mem.area_bytes_mut(self.area)
    }

    /// The number of bytes.
    pub fn len(&self) -> (len: usize)
        ensures
            len == self@.len > 0,
    {
        proof {
            use_type_invariant(self);
        }
        self.size
    }

    /// The slice of `count` bytes at `offset`.
    pub fn get_slice(&self, offset: usize, count: usize) -> (slice: Result<
        VolatileSlice,
        volatile_memory::Error,
    >)
        ensures
            match range_error(self@.len, offset, count) {
                Some(e) => slice == Err::<VolatileSlice, volatile_memory::Error>(e),
                None => slice matches Ok(s) && s@ == self@.slice(offset, count),
            },
            slice is Ok <==> offset + count <= self@.len,
            slice matches Ok(s) ==> s@.addr == self@.addr + offset && s@.len == count,
    {
        proof {
            use_type_invariant(self);
        }
        match compute_end_offset(self.size, offset, count) {
            Err(e) => Err(e),
            Ok(_) => Ok(VolatileSlice::new(self.addr + offset, count, self.area, offset)),
        }
    }

    /// The slice of all bytes.
    pub fn as_volatile_slice(&self) -> (slice: VolatileSlice)
        ensures
            slice@ == self@.slice(0, self@.len),
    {
        VolatileSlice::new(self.addr, self.size, self.area, 0)
    }
}

} // verus!
