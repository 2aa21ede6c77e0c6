//! What the words of the contracts come down to: addresses, numbers of bytes, and single bytes.

use crate::address::GuestAddress;
use crate::guest_memory::{
    access_bounded, bounded_up_to, changed_to, contents, guest_error, lemma_contents, lemma_run,
    mapped, mapped_in, patched, region_at, run, well_formed, window, Error, MappingView,
    RegionView,
};
use crate::host_memory::{areas_apart, overwrite, same_areas, store, AreaView, HostArea, HostMemory};
use crate::mmap::mapping::{can_map, region_of_reply, MapRequest, MmapRegion};
use crate::mmap::memory::{
    can_reply, created, folded, layout_of, replied, visited, GuestMemoryMmap, MmapError,
};
use crate::mmap::region::GuestRegionMmap;
use crate::mmap::stream::{
    all_or_error, given, joined, read_done, step_len, sum, takes_up_to_all, took, write_done,
};
use crate::volatile_memory;
use crate::volatile_memory::{
    accepts, range_error, reads_exactly, reads_up_to, replies, SliceView,
};
use vstd::prelude::*;

verus! {

/// `count` bytes at `offset` can be had from memory of `len` bytes exactly where they end at or
/// before its end. Otherwise the error tells whether the end is a number at all.
pub proof fn law_range_is_in_bounds(len: usize, offset: usize, count: usize)
    ensures
        range_error(len, offset, count) is None <==> offset + count <= len,
        range_error(len, offset, count) == Some(
            volatile_memory::Error::Overflow { base: offset, offset: count },
        ) <==> offset + count > usize::MAX,
        len < offset + count <= usize::MAX ==> (range_error(len, offset, count) matches Some(
            volatile_memory::Error::OutOfBounds { addr },
        ) && addr == offset + count),
{
}

/// A slice of a mapping lies at its offset: in the host, and in the bytes of the mapping.
pub proof fn law_slice_is_at_its_offset(
    mapping: MappingView,
    mem: Seq<AreaView>,
    offset: usize,
    count: usize,
    k: int,
)
    requires
        mapping.mapped_in(mem),
        offset + count <= mapping.len,
        0 <= k < count,
    ensures
        mapping.slice(offset, count).addr == mapping.addr + offset,
        mapping.slice(offset, count).len == count,
        mapping.slice(offset, count).bytes(mem).len() == count,
        mapping.slice(offset, count).bytes(mem)[k] == mem[mapping.area as int].bytes[offset + k],
{
}

/// As many of `count` bytes at `at` go into a slice as there is room for: all of them, or those up to
/// the end of the slice; none where `at` is not in the slice.
pub proof fn law_room_is_used_in_full(slice: SliceView, at: usize, count: nat)
    ensures
        slice.room(at, count) <= count,
        at < slice.len ==> at + slice.room(at, count) <= slice.len,
        at < slice.len ==> slice.room(at, count) == count || at + slice.room(at, count)
            == slice.len,
        slice.len <= at ==> slice.room(at, count) == 0,
{
}

/// The same of a mapping.
pub proof fn law_room_of_a_mapping_is_used_in_full(mapping: MappingView, at: usize, count: nat)
    ensures
        mapping.room(at, count) <= count,
        at < mapping.len ==> at + mapping.room(at, count) <= mapping.len,
        at < mapping.len ==> mapping.room(at, count) == count || at + mapping.room(at, count)
            == mapping.len,
        mapping.len <= at ==> mapping.room(at, count) == 0,
{
}

/// Overwriting puts each new byte in its place, keeps every other byte, and changes no length.
pub proof fn law_overwriting_byte_by_byte(bytes: Seq<u8>, at: int, data: Seq<u8>, k: int)
    requires
        0 <= at,
        at + data.len() <= bytes.len(),
        0 <= k < bytes.len(),
    ensures
        overwrite(bytes, at, data).len() == bytes.len(),
        overwrite(bytes, at, data)[k] == if at <= k < at + data.len() {
            data[k - at]
        } else {
            bytes[k]
        },
{
}

/// Storing in host memory puts each new byte in its place in one area, and keeps every other byte of
/// every area, and where the areas are.
pub proof fn law_storing_byte_by_byte(
    mem: Seq<AreaView>,
    area: int,
    at: int,
    data: Seq<u8>,
    i: int,
    k: int,
)
    requires
        0 <= area < mem.len(),
        0 <= at,
        at + data.len() <= mem[area].bytes.len(),
        0 <= i < mem.len(),
        0 <= k < mem[i].bytes.len(),
    ensures
        store(mem, area, at, data).len() == mem.len(),
        store(mem, area, at, data)[i].addr == mem[i].addr,
        store(mem, area, at, data)[i].bytes.len() == mem[i].bytes.len(),
        store(mem, area, at, data)[i].bytes[k] == if i == area && at <= k < at + data.len() {
            data[k - at]
        } else {
            mem[i].bytes[k]
        },
{
}

/// Storing in a slice is storing in its area, from the start of the slice on; the same of a mapping.
pub proof fn law_storing_in_a_slice(
    slice: SliceView,
    mapping: MappingView,
    mem: Seq<AreaView>,
    at: int,
    data: Seq<u8>,
    k: int,
)
    requires
        slice.valid_in(mem),
        mapping.mapped_in(mem),
        0 <= at,
        at + data.len() <= slice.len,
        at + data.len() <= mapping.len,
        0 <= k,
    ensures
        k < slice.len ==> slice.store(mem, at, data)[slice.area as int].bytes[slice.start + k]
            == if at <= k < at + data.len() {
            data[k - at]
        } else {
            mem[slice.area as int].bytes[slice.start + k]
        },
        k < mapping.len ==> mapping.store(mem, at, data)[mapping.area as int].bytes[k] == if at <= k
            < at + data.len() {
            data[k - at]
        } else {
            mem[mapping.area as int].bytes[k]
        },
{
}

/// Two areas are apart exactly where no address is in both.
pub proof fn law_apart_areas_share_no_address(first: AreaView, second: AreaView)
    requires
        first.bytes.len() > 0,
        second.bytes.len() > 0,
    ensures
        first.apart_from(second) <==> (forall|x: int|
            !(#[trigger] within(x, first.addr as int, first.bytes.len() as int) && within(
                x,
                second.addr as int,
                second.bytes.len() as int,
            ))),
{
    if !first.apart_from(second) {
        let x = if first.addr <= second.addr {
            second.addr as int
        } else {
            first.addr as int
        };
        assert(within(x, first.addr as int, first.bytes.len() as int));
        assert(within(x, second.addr as int, second.bytes.len() as int));
    }
}

/// Whether `x` is one of the `len` numbers from `start` on.
pub open spec fn within(x: int, start: int, len: int) -> bool {
    start <= x < start + len
}

/// Two mappings are apart exactly where no address is in both.
pub proof fn law_apart_mappings_share_no_address(first: MappingView, second: MappingView)
    requires
        first.len > 0,
        second.len > 0,
    ensures
        first.apart_from(second) <==> (forall|x: int|
            !(#[trigger] within(x, first.addr as int, first.len as int) && within(
                x,
                second.addr as int,
                second.len as int,
            ))),
{
    if !first.apart_from(second) {
        let x = if first.addr <= second.addr {
            second.addr as int
        } else {
            first.addr as int
        };
        assert(within(x, first.addr as int, first.len as int));
        assert(within(x, second.addr as int, second.len as int));
    }
}

/// The areas of host memory are apart exactly where each two are, and stay the same exactly where
/// each keeps its address and its length.
pub proof fn law_areas_one_by_one(mem: Seq<AreaView>, other: Seq<AreaView>)
    ensures
        areas_apart(mem) <==> (forall|i: int, j: int|
            0 <= i < j < mem.len() ==> (#[trigger] mem[i]).apart_from(#[trigger] mem[j])),
        same_areas(mem, other) <==> mem.len() == other.len() && (forall|i: int|
            0 <= i < mem.len() ==> (#[trigger] mem[i]).addr == other[i].addr
                && mem[i].bytes.len() == other[i].bytes.len()),
{
}

/// The kernel is asked for anonymous memory with the size that was given, to be read and written,
/// shared, with no swap space set aside, and no file.
pub proof fn law_anonymous_request_field_by_field(size: usize)
    ensures
        MapRequest::anonymous_request(size).len == size,
        MapRequest::anonymous_request(size).read,
        MapRequest::anonymous_request(size).write,
        MapRequest::anonymous_request(size).shared,
        MapRequest::anonymous_request(size).anonymous,
        MapRequest::anonymous_request(size).no_reserve,
        MapRequest::anonymous_request(size).fd == -1,
        MapRequest::anonymous_request(size).offset == 0,
{
}

/// The kernel is asked for a part of a file with the file, the size and the offset that were given,
/// to be read and written, shared, and nothing else.
pub proof fn law_file_request_field_by_field(fd: i32, size: usize, offset: i64)
    ensures
        MapRequest::file_request(fd, size, offset).len == size,
        MapRequest::file_request(fd, size, offset).fd == fd,
        MapRequest::file_request(fd, size, offset).offset == offset,
        MapRequest::file_request(fd, size, offset).read,
        MapRequest::file_request(fd, size, offset).write,
        MapRequest::file_request(fd, size, offset).shared,
        !MapRequest::file_request(fd, size, offset).anonymous,
        !MapRequest::file_request(fd, size, offset).no_reserve,
{
}

/// A mapping is the memory that the kernel lent for it, the last area of host memory, at the address
/// and of the length at which it was lent; and an error is the kernel's.
pub proof fn law_mapping_is_what_was_lent<'a>(
    reply: Result<HostArea<'a>, std::io::Error>,
    before: Seq<HostArea<'a>>,
    after: Seq<HostArea<'a>>,
    region: Result<MmapRegion, std::io::Error>,
)
    requires
        region_of_reply(reply, before, after, region),
    ensures
        reply is Ok <==> region is Ok,
        reply matches Ok(area) ==> {
            &&& after.len() == before.len() + 1
            &&& after.last() == area
            &&& forall|i: int| 0 <= i < before.len() ==> #[trigger] after[i] == before[i]
            &&& region->Ok_0@.area == before.len()
            &&& region->Ok_0@.addr == area.addr
            &&& area.bytes@.len() <= usize::MAX ==> region->Ok_0@.len == area.bytes@.len()
        },
        reply matches Err(e) ==> after == before && region->Err_0 == e,
{
}

/// No more is asked of a mapping function than that it can be called and lends memory of the length
/// asked for, not empty, with addresses, and apart from every area that there is.
pub proof fn law_what_a_mapping_function_has_to_do<'a, F>(
    mmap: F,
    request: MapRequest,
    mem: HostMemory<'a>,
) where F: FnOnce(MapRequest, &HostMemory<'a>) -> Result<HostArea<'a>, std::io::Error>
    requires
        call_requires(mmap, (request, &mem)),
        forall|area: HostArea<'a>| #[trigger]
            call_ensures(mmap, (request, &mem), Ok(area)) ==> {
                &&& area.bytes@.len() == request.len
                &&& request.len > 0
                &&& area.addr + request.len <= usize::MAX
                &&& forall|i: int|
                    0 <= i < mem@.len() ==> (#[trigger] mem@[i]).apart_from(area@)
            },
    ensures
        can_map(mmap, request, mem),
{
}

/// How an error of host memory shows in guest memory, for each of them.
pub proof fn law_errors_of_host_memory(
    addr: usize,
    base: usize,
    offset: usize,
    expected: usize,
    completed: usize,
    e: std::io::Error,
)
    ensures
        guest_error(volatile_memory::Error::OutOfBounds { addr }) is InvalidBackendAddress,
        guest_error(volatile_memory::Error::Overflow { base, offset }) is InvalidBackendAddress,
        guest_error(volatile_memory::Error::IOError(e)) == Error::IOError(e),
        guest_error(volatile_memory::Error::PartialBuffer { expected, completed })
            == (Error::PartialBuffer { expected, completed }),
{
}

/// A region holds the guest addresses from its first one on, as many as its mapping has bytes.
pub proof fn law_region_holds_its_addresses(region: RegionView, a: int)
    ensures
        region.covers(a) <==> region.base <= a < region.base + region.mapping.len,
        region.end() == region.base + region.mapping.len,
        region.bounded() <==> region.base + region.mapping.len <= u64::MAX,
{
}

/// Guest memory holds an address exactly where it is in one of the regions, and the region that is
/// found is that one.
pub proof fn law_memory_holds_the_addresses_of_its_regions(layout: Seq<RegionView>, a: int, i: int)
    requires
        well_formed(layout),
        0 <= i < layout.len(),
    ensures
        layout[i].base <= a < layout[i].base + layout[i].mapping.len <==> mapped(layout, a)
            && region_at(layout, a) == i,
        mapped(layout, a) ==> {
            let r = region_at(layout, a);
            &&& 0 <= r < layout.len()
            &&& layout[r].base <= a < layout[r].base + layout[r].mapping.len
        },
{
    if layout[i].covers(a) {
        crate::guest_memory::lemma_one_region(layout, a, i);
    }
}

/// No more is asked of a lookup than that the regions at or below the address end within the guest's
/// address space, and no more of an access than that those do to which it comes.
pub proof fn law_what_has_to_be_bounded(layout: Seq<RegionView>, a: int, count: nat)
    ensures
        bounded_up_to(layout, a) <==> (forall|i: int|
            0 <= i < layout.len() && (#[trigger] layout[i]).base <= a ==> layout[i].base
                + layout[i].mapping.len <= u64::MAX),
        access_bounded(layout, a, 0),
        access_bounded(layout, a, count) <==> count == 0 || bounded_up_to(
            layout,
            a + if run(layout, a, count) < count {
                run(layout, a, count) as int
            } else {
                count - 1
            },
        ),
        bounded_up_to(layout, a + count) ==> access_bounded(layout, a, count),
{
    lemma_run(layout, a, count);
}

/// A mapping is in host memory exactly where its area is there, at its address and of its length; a
/// layout, where the mappings of all its regions are.
pub proof fn law_what_is_mapped(layout: Seq<RegionView>, mapping: MappingView, mem: Seq<AreaView>)
    ensures
        mapping.mapped_in(mem) <==> mapping.area < mem.len() && mem[mapping.area as int].addr
            == mapping.addr && mem[mapping.area as int].bytes.len() == mapping.len && mapping.addr
            + mapping.len <= usize::MAX,
        mapped_in(layout, mem) <==> (forall|i: int|
            0 <= i < layout.len() ==> (#[trigger] layout[i]).mapping.mapped_in(mem)),
        mapping.bytes(mem) == mem[mapping.area as int].bytes,
{
}

/// A slice is in host memory exactly where its bytes are in its area, at its address.
pub proof fn law_what_is_a_valid_slice(slice: SliceView, mem: Seq<AreaView>)
    ensures
        slice.valid_in(mem) <==> slice.area < mem.len() && slice.start + slice.len
            <= mem[slice.area as int].bytes.len() && slice.addr == mem[slice.area as int].addr
            + slice.start && slice.addr + slice.len <= usize::MAX,
{
}

/// The guest sees at an address of a region the byte that is as far from the start of the region's
/// area as the address from that of the region; at other addresses it sees nothing.
pub proof fn law_guest_sees_the_bytes_of_its_areas(
    layout: Seq<RegionView>,
    mem: Seq<AreaView>,
    a: int,
    i: int,
)
    requires
        well_formed(layout),
        0 <= i < layout.len(),
    ensures
        layout[i].base <= a < layout[i].base + layout[i].mapping.len ==> {
            &&& contents(layout, mem).contains_key(a)
            &&& contents(layout, mem)[a] == mem[layout[i].mapping.area as int].bytes[a
                - layout[i].base]
        },
        contents(layout, mem).contains_key(a) ==> mapped(layout, a),
{
    if layout[i].covers(a) {
        lemma_contents(layout, mem, a, i);
    }
}

/// A window has the bytes from its address on; a patch has the new bytes at its addresses and the old
/// ones at all others, and adds no address.
pub proof fn law_windows_and_patches_byte_by_byte(
    m: Map<int, u8>,
    a: int,
    count: nat,
    data: Seq<u8>,
    k: int,
)
    ensures
        window(m, a, count).len() == count,
        0 <= k < count ==> window(m, a, count)[k] == m[a + k],
        patched(m, a, data).contains_key(k) <==> m.contains_key(k),
        m.contains_key(k) ==> patched(m, a, data)[k] == if a <= k < a + data.len() {
            data[k - a]
        } else {
            m[k]
        },
{
}

/// What a write of `buf` at `a` leaves at each guest address: the byte of `buf` for it, as far as
/// regions hold the addresses without a gap, and the byte that was there at every other address.
pub proof fn law_write_byte_by_byte(
    layout: Seq<RegionView>,
    before: Seq<AreaView>,
    after: Seq<AreaView>,
    a: int,
    buf: Seq<u8>,
    k: int,
)
    requires
        changed_to(
            layout,
            before,
            after,
            patched(contents(layout, before), a, buf.take(run(layout, a, buf.len()) as int)),
        ),
        mapped(layout, k),
    ensures
        a <= k < a + buf.len() && (forall|j: int| a <= j <= k ==> #[trigger] mapped(layout, j))
            ==> contents(layout, after)[k] == buf[k - a],
        !(a <= k < a + buf.len()) || (exists|j: int| a <= j <= k && !#[trigger] mapped(layout, j))
            ==> contents(layout, after)[k] == contents(layout, before)[k],
        forall|i: int|
            0 <= i < before.len() ==> (#[trigger] after[i]).addr == before[i].addr
                && after[i].bytes.len() == before[i].bytes.len(),
{
    lemma_run(layout, a, buf.len());
    let n = run(layout, a, buf.len());
    if a <= k < a + buf.len() {
        if forall|j: int| a <= j <= k ==> #[trigger] mapped(layout, j) {
            if n <= k - a {
                assert(mapped(layout, a + n));
            }
        }
        if exists|j: int| a <= j <= k && !#[trigger] mapped(layout, j) {
            let j = choose|j: int| a <= j <= k && !#[trigger] mapped(layout, j);
            if k - a < n {
                assert(mapped(layout, j));
            }
        }
    }
}

/// What a read into a buffer leaves in it: what the guest sees, as far as regions hold the addresses
/// without a gap, and behind that what the buffer had.
pub proof fn law_read_byte_by_byte(
    layout: Seq<RegionView>,
    mem: Seq<AreaView>,
    a: int,
    buf: Seq<u8>,
    k: int,
)
    requires
        0 <= k < buf.len(),
    ensures
        ({
            let got = overwrite(
                buf,
                0,
                window(contents(layout, mem), a, run(layout, a, buf.len())),
            );
            &&& got.len() == buf.len()
            &&& (forall|j: int| a <= j <= a + k ==> #[trigger] mapped(layout, j)) ==> got[k]
                == contents(layout, mem)[a + k]
            &&& (exists|j: int| a <= j <= a + k && !#[trigger] mapped(layout, j)) ==> got[k]
                == buf[k]
        }),
{
    lemma_run(layout, a, buf.len());
    let n = run(layout, a, buf.len());
    if forall|j: int| a <= j <= a + k ==> #[trigger] mapped(layout, j) {
        if n <= k {
            assert(mapped(layout, a + n));
        }
    }
    if exists|j: int| a <= j <= a + k && !#[trigger] mapped(layout, j) {
        let j = choose|j: int| a <= j <= a + k && !#[trigger] mapped(layout, j);
        if k < n {
            assert(mapped(layout, j));
        }
    }
}

/// Where the kernel refuses nothing, a list of ranges makes guest memory exactly where it has a range
/// and each starts at or behind the end of the one before it, as numbers. Only a list in which one
/// starts before that overlaps, and only an empty one has no region.
pub proof fn law_ranges_decide_by_their_numbers<'a>(
    ranges: Seq<(GuestAddress, usize)>,
    lent: Seq<HostArea<'a>>,
    first: nat,
    result: Result<GuestMemoryMmap, MmapError>,
)
    requires
        created(ranges, lent, None, first, result),
    ensures
        result is Ok <==> ranges.len() > 0 && (forall|i: int|
            0 < i < ranges.len() ==> ranges[i - 1].0.0 + ranges[i - 1].1 <= (
            #[trigger] ranges[i]).0.0),
        result == Err::<GuestMemoryMmap, MmapError>(MmapError::MemoryRegionOverlap) <==> (exists|
            i: int,
        |
            0 < i < ranges.len() && ranges[i - 1].0.0 + ranges[i - 1].1 > (#[trigger] ranges[i]).0.0),
        result == Err::<GuestMemoryMmap, MmapError>(MmapError::NoMemoryRegion) <==> ranges.len()
            == 0,
{
}

/// As many ranges are mapped as come before the first that starts before the end of the one before
/// it; all of them where there is none.
pub proof fn law_ranges_are_mapped_up_to_an_overlap<'a>(
    ranges: Seq<(GuestAddress, usize)>,
    lent: Seq<HostArea<'a>>,
    first: nat,
    result: Result<GuestMemoryMmap, MmapError>,
)
    requires
        created(ranges, lent, None, first, result),
    ensures
        lent.len() <= ranges.len(),
        forall|i: int|
            0 < i < lent.len() ==> ranges[i - 1].0.0 + ranges[i - 1].1 <= (
            #[trigger] ranges[i]).0.0,
        lent.len() < ranges.len() ==> 0 < lent.len() && ranges[lent.len() - 1].0.0
            + ranges[lent.len() - 1].1 > ranges[lent.len() as int].0.0,
{
}

/// A refusal of the kernel is the error, and nothing is mapped behind it; the ranges up to the refused
/// one are in order.
pub proof fn law_refusal_is_the_error<'a>(
    ranges: Seq<(GuestAddress, usize)>,
    lent: Seq<HostArea<'a>>,
    refusal: Option<std::io::Error>,
    first: nat,
    result: Result<GuestMemoryMmap, MmapError>,
)
    requires
        created(ranges, lent, refusal, first, result),
    ensures
        refusal matches Some(e) ==> {
            &&& result matches Err(MmapError::SystemCallFailed(f)) && f == e
            &&& lent.len() < ranges.len()
            &&& forall|i: int|
                0 < i <= lent.len() ==> ranges[i - 1].0.0 + ranges[i - 1].1 <= (
                #[trigger] ranges[i]).0.0
        },
        refusal is None ==> !(result matches Err(MmapError::SystemCallFailed(_))),
{
}

/// Each region of created memory starts at the address of its range, and is the area that was lent
/// for it, in order.
pub proof fn law_regions_are_the_areas_lent<'a>(
    ranges: Seq<(GuestAddress, usize)>,
    lent: Seq<HostArea<'a>>,
    first: nat,
    memory: GuestMemoryMmap,
    i: int,
)
    requires
        created(ranges, lent, None, first, Ok(memory)),
        0 <= i < ranges.len(),
    ensures
        memory@.len() == ranges.len() == lent.len(),
        memory@[i].base == ranges[i].0.0,
        memory@[i].mapping.len == ranges[i].1,
        memory@[i].mapping.addr == lent[i].addr,
        memory@[i].mapping.area == first + i,
{
    assert(memory@ == layout_of(ranges, lent, first));
}

/// The kernel is asked for each range in turn: for anonymous memory of the size of the range, when
/// host memory has what it had and what was lent for the ranges before.
pub proof fn law_each_range_is_asked_for<'a, F>(
    mmap: F,
    ranges: Seq<(GuestAddress, usize)>,
    areas: Seq<HostArea<'a>>,
    lent: Seq<HostArea<'a>>,
    refusal: Option<std::io::Error>,
    i: int,
) where F: Fn(MapRequest, &HostMemory<'a>) -> Result<HostArea<'a>, std::io::Error>
    requires
        replied(mmap, ranges, areas, lent, refusal),
    ensures
        0 <= i < lent.len() ==> exists|request: MapRequest, mem: HostMemory<'a>|
            {
                &&& #[trigger] call_ensures(mmap, (request, &mem), Ok(lent[i]))
                &&& request.len == ranges[i].1
                &&& request.anonymous && request.read && request.write && request.shared
                &&& mem.areas@ == areas + lent.take(i)
            },
        refusal matches Some(e) ==> exists|request: MapRequest, mem: HostMemory<'a>|
            {
                &&& #[trigger] call_ensures(mmap, (request, &mem), Err::<HostArea<'a>, _>(e))
                &&& request.len == ranges[lent.len() as int].1
                &&& request.anonymous && request.read && request.write && request.shared
                &&& mem.areas@ == areas + lent
            },
{
    if 0 <= i < lent.len() {
        let request = MapRequest::anonymous_request(ranges[i].1);
        assert(can_reply(mmap, request, areas + lent.take(i), Ok(lent[i])));
        let mem = choose|mem: HostMemory<'a>|
            mem.areas@ == areas + lent.take(i) && #[trigger] call_ensures(
                mmap,
                (request, &mem),
                Ok(lent[i]),
            );
        assert(call_ensures(mmap, (request, &mem), Ok(lent[i])));
    }
    if let Some(e) = refusal {
        let request = MapRequest::anonymous_request(ranges[lent.len() as int].1);
        let mem = choose|mem: HostMemory<'a>|
            mem.areas@ == areas + lent && #[trigger] call_ensures(
                mmap,
                (request, &mem),
                Err::<HostArea<'a>, _>(e),
            );
        assert(call_ensures(mmap, (request, &mem), Err::<HostArea<'a>, _>(e)));
    }
}

/// A visit that fails comes to the first region for which the callback fails, with the callback's
/// error, after all regions before it.
pub proof fn law_visit_fails_where_the_callback_does<F, E>(
    cb: F,
    regions: Seq<GuestRegionMmap>,
    e: E,
) -> (k: usize) where F: FnOnce(usize, &GuestRegionMmap) -> Result<(), E>
    requires
        visited(cb, regions, Err::<(), E>(e)),
    ensures
        k < regions.len(),
        call_ensures(cb, (k, &regions[k as int]), Err::<(), E>(e)),
        forall|i: usize|
            i < k ==> #[trigger] call_ensures(cb, (i, &regions[i as int]), Ok::<(), E>(())),
{
    choose|k: usize|
        {
            &&& k < regions.len()
            &&& #[trigger] call_ensures(cb, (k, &regions[k as int]), Err::<(), E>(e))
            &&& crate::mmap::memory::passed(cb, regions, k as nat)
        }
}

/// A fold with functions is the left fold of what they give, over the regions in order.
pub proof fn law_fold_is_a_left_fold<F, G, T>(
    mapf: F,
    foldf: G,
    regions: Seq<GuestRegionMmap>,
    init: T,
    n: nat,
    acc: T,
    item_of: spec_fn(int, GuestRegionMmap) -> T,
    combine: spec_fn(T, T) -> T,
) where F: Fn((usize, &GuestRegionMmap)) -> T, G: Fn(T, T) -> T
    requires
        n <= regions.len(),
        n <= usize::MAX,
        forall|i: usize, region: &GuestRegionMmap, item: T| #[trigger]
            call_ensures(mapf, ((i, region),), item) ==> item == item_of(i as int, *region),
        forall|prev: T, item: T, next: T| #[trigger]
            call_ensures(foldf, (prev, item), next) ==> next == combine(prev, item),
        folded(mapf, foldf, regions, init, n, acc),
    ensures
        acc == Seq::new(n, |i: int| item_of(i, regions[i])).fold_left(init, combine),
    decreases n,
{
    let items = Seq::new(n, |i: int| item_of(i, regions[i]));
    if n > 0 {
        let k = (n - 1) as nat;
        let (prev, item) = choose|prev: T, item: T|
            {
                &&& folded(mapf, foldf, regions, init, k, prev)
                &&& #[trigger] call_ensures(mapf, ((k as usize, &regions[k as int]),), item)
                &&& #[trigger] call_ensures(foldf, (prev, item), acc)
            };
        law_fold_is_a_left_fold(mapf, foldf, regions, init, k, prev, item_of, combine);
        assert(items.drop_last() =~= Seq::new(k, |i: int| item_of(i, regions[i])));
    }
}

/// One step of a transfer is for all bytes that are left, or for those up to the end of the region,
/// whichever are fewer.
pub proof fn law_step_goes_to_the_end_of_the_region(
    layout: Seq<RegionView>,
    a: int,
    left: int,
    i: int,
)
    requires
        well_formed(layout),
        0 <= i < layout.len(),
        layout[i].base <= a < layout[i].base + layout[i].mapping.len,
        left > 0,
    ensures
        0 < step_len(layout, a, left) <= left,
        a + step_len(layout, a, left) <= layout[i].base + layout[i].mapping.len,
        step_len(layout, a, left) == left || a + step_len(layout, a, left) == layout[i].base
            + layout[i].mapping.len,
{
    crate::guest_memory::lemma_one_region(layout, a, i);
}

/// Pieces are joined one behind the other, and numbers are added up.
pub proof fn law_joining_and_adding(
    pieces: Seq<Vec<u8>>,
    piece: Vec<u8>,
    numbers: Seq<usize>,
    number: usize,
)
    ensures
        joined(Seq::<Vec<u8>>::empty()) == Seq::<u8>::empty(),
        joined(pieces.push(piece)) == joined(pieces) + piece@,
        sum(Seq::<usize>::empty()) == 0,
        sum(numbers.push(number)) == sum(numbers) + number,
{
    assert(pieces.push(piece).drop_last() =~= pieces);
    assert(numbers.push(number).drop_last() =~= numbers);
}

/// A transfer that has to move all bytes succeeds exactly where it moved all, and otherwise tells how
/// many it moved, or what failed.
pub proof fn law_all_or_an_error(count: usize, moved: Result<usize, Error>, n: usize, e: Error)
    ensures
        all_or_error(count, moved) is Ok <==> moved is Ok && moved->Ok_0 == count,
        n != count ==> all_or_error(count, Ok(n)) == Err::<(), Error>(
            Error::PartialBuffer { expected: count, completed: n },
        ),
        all_or_error(count, Err(e)) == Err::<(), Error>(e),
{
}

/// Each piece that a function gives to a transfer is its reply to one request: for the bytes that are
/// left, or those up to the end of the region.
pub proof fn law_pieces_are_replies<F>(
    src: F,
    layout: Seq<RegionView>,
    a: int,
    count: int,
    pieces: Seq<Vec<u8>>,
    k: int,
) where F: FnOnce(usize) -> Result<Vec<u8>, std::io::Error>
    requires
        given(src, layout, a, count, pieces),
        0 <= k < pieces.len(),
    ensures
        ({
            let at = a + joined(pieces.take(k)).len();
            let left = a + count - at;
            &&& pieces[k]@.len() > 0
            &&& 0 < left
            &&& mapped(layout, at)
            &&& call_ensures(src, (step_len(layout, at, left) as usize,), Ok(pieces[k]))
        }),
    decreases pieces.len(),
{
    if k == pieces.len() - 1 {
        assert(pieces.take(k) =~= pieces.drop_last());
    } else {
        law_pieces_are_replies(src, layout, a, count, pieces.drop_last(), k);
        assert(pieces.drop_last().take(k) =~= pieces.take(k));
    }
}

/// What a function takes in each step of a transfer it takes of the bytes that the guest sees there:
/// all that are left, or those up to the end of the region.
pub proof fn law_takes_are_replies<F>(
    dst: F,
    layout: Seq<RegionView>,
    seen: Map<int, u8>,
    a: int,
    count: int,
    taken: Seq<usize>,
    k: int,
) where F: FnOnce(&[u8]) -> Result<usize, std::io::Error>
    requires
        took(dst, layout, seen, a, count, taken),
        0 <= k < taken.len(),
    ensures
        ({
            let at = a + sum(taken.take(k));
            let left = a + count - at;
            &&& taken[k] > 0
            &&& 0 < left
            &&& mapped(layout, at)
            &&& exists|out: &[u8]|
                {
                    &&& #[trigger] call_ensures(dst, (out,), Ok(taken[k]))
                    &&& out@ == window(seen, at, step_len(layout, at, left) as nat)
                }
        }),
    decreases taken.len(),
{
    if k == taken.len() - 1 {
        assert(taken.take(k) =~= taken.drop_last());
        let at = a + sum(taken.take(k));
        let data = window(seen, at, step_len(layout, at, a + count - at) as nat);
        assert(replies(dst, data, Ok(taken[k])));
    } else {
        law_takes_are_replies(dst, layout, seen, a, count, taken.drop_last(), k);
        assert(taken.drop_last().take(k) =~= taken.take(k));
    }
}

/// A transfer from a function ends with all bytes there, at an address that no region holds, where the
/// function gives nothing, or with its error; and its result counts the bytes that are stored.
pub proof fn law_transfer_in_ends_for_a_reason<F>(
    src: F,
    layout: Seq<RegionView>,
    before: Seq<AreaView>,
    after: Seq<AreaView>,
    addr: GuestAddress,
    count: usize,
    pieces: Seq<Vec<u8>>,
    read: Result<usize, Error>,
) where F: FnOnce(usize) -> Result<Vec<u8>, std::io::Error>
    requires
        read_done(src, layout, before, after, addr, count as int, pieces, read),
    ensures
        ({
            let n = joined(pieces).len();
            let ask = step_len(layout, addr.0 + n, count - n) as usize;
            &&& n <= count
            &&& match read {
                Ok(k) => k == n && n > 0,
                Err(Error::InvalidGuestAddress(bad)) => bad == addr && n == 0,
                Err(Error::IOError(e)) => n < count && call_ensures(
                    src,
                    (ask,),
                    Err::<Vec<u8>, _>(e),
                ),
                Err(_) => false,
            }
            &&& (read matches Err(Error::IOError(_))) || n == count || !mapped(layout, addr.0 + n)
                || exists|piece: Vec<u8>|
                #[trigger] call_ensures(src, (ask,), Ok(piece)) && piece@.len() == 0
        }),
{
}

/// The same of a transfer to a function.
pub proof fn law_transfer_out_ends_for_a_reason<F>(
    dst: F,
    layout: Seq<RegionView>,
    mem: Seq<AreaView>,
    addr: GuestAddress,
    count: usize,
    taken: Seq<usize>,
    written: Result<usize, Error>,
) where F: FnOnce(&[u8]) -> Result<usize, std::io::Error>
    requires
        write_done(dst, layout, mem, addr, count as int, taken, written),
    ensures
        ({
            let n = sum(taken);
            let seen = contents(layout, mem);
            let data = window(
                seen,
                addr.0 + n,
                step_len(layout, addr.0 + n, count - n) as nat,
            );
            &&& n <= count
            &&& match written {
                Ok(k) => k == n && n > 0,
                Err(Error::InvalidGuestAddress(bad)) => bad == addr && n == 0,
                Err(Error::IOError(e)) => n < count && exists|out: &[u8]|
                    out@ == data && #[trigger] call_ensures(dst, (out,), Err::<usize, _>(e)),
                Err(_) => false,
            }
            &&& (written matches Err(Error::IOError(_))) || n == count || !mapped(layout, addr.0 + n)
                || exists|out: &[u8]|
                out@ == data && #[trigger] call_ensures(dst, (out,), Ok(0usize))
        }),
{
}

/// No more is asked of a function that gives bytes than that it can be called and gives at most as
/// many as it is asked for, or exactly as many.
pub proof fn law_what_a_giving_function_has_to_do<F>(src: F, count: usize) where
    F: FnOnce(usize) -> Result<Vec<u8>, std::io::Error>,

    requires
        call_requires(src, (count,)),
    ensures
        (forall|data: Vec<u8>| #[trigger]
            call_ensures(src, (count,), Ok(data)) ==> data@.len() <= count) ==> reads_up_to(
            src,
            count,
        ),
        (forall|data: Vec<u8>| #[trigger]
            call_ensures(src, (count,), Ok(data)) ==> data@.len() == count) ==> reads_exactly(
            src,
            count,
        ),
{
}

/// No more is asked of a function that takes bytes than that it can be called with them, and takes at
/// most all.
pub proof fn law_what_a_taking_function_has_to_do<F>(dst: F, data: Seq<u8>) where
    F: FnOnce(&[u8]) -> Result<usize, std::io::Error>,

    requires
        forall|out: &[u8]| #[trigger] call_requires(dst, (out,)),
    ensures
        accepts(dst, data),
        (forall|out: &[u8], n: usize| #[trigger]
            call_ensures(dst, (out,), Ok(n)) ==> n <= out@.len()) ==> takes_up_to_all(dst),
{
}

} // verus!
