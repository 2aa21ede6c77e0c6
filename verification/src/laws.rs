//! What holds of guest memory as a whole.

use crate::address::GuestAddress;
use crate::guest_memory::{
    access_bounded, bounded_up_to, changed_to, contents, lemma_contents, lemma_one_region,
    lemma_run, lemma_run_in_region, lemma_store, mapped, mapped_in, patched, region_at, run,
    well_formed, window, Error, MappingView, RegionView,
};
use crate::host_memory::{
    areas_apart, law_lent_memory_keeps_what_was_stored, same_areas, AreaView, HostArea, HostMemory,
};
use crate::mmap::memory::{
    created, folded, in_order, layout_of, visited, GuestMemoryMmap, MmapError,
};
use crate::mmap::region::GuestRegionMmap;
use crate::mmap::stream::{all_or_error, given, joined, read_done, step_len};
use crate::volatile_memory::{range_error, reads_up_to};
use vstd::prelude::*;

verus! {

/// A guest address belongs to at most one region.
pub proof fn law_address_has_one_region(layout: Seq<RegionView>, a: int, i: int, j: int)
    requires
        well_formed(layout),
        0 <= i < layout.len(),
        0 <= j < layout.len(),
        layout[i].covers(a),
        layout[j].covers(a),
    ensures
        i == j,
{
    lemma_one_region(layout, a, i);
    lemma_one_region(layout, a, j);
}

/// An access moves the longest run of bytes that the regions hold from its address on: it stops only
/// at its last byte or at an address that no region holds, and there is only one such number of
/// bytes.
pub proof fn law_access_stops_at_a_hole(layout: Seq<RegionView>, a: int, count: nat)
    ensures
        run(layout, a, count) <= count,
        forall|k: int| a <= k < a + run(layout, a, count) ==> #[trigger] mapped(layout, k),
        run(layout, a, count) < count ==> !mapped(layout, a + run(layout, a, count)),
        forall|n: nat|
            n <= count && (forall|k: int| a <= k < a + n ==> #[trigger] mapped(layout, k)) && (n
                < count ==> !#[trigger] mapped(layout, a + n)) ==> n == run(layout, a, count),
{
    lemma_run(layout, a, count);
    let m = run(layout, a, count);
    assert forall|n: nat|
        n <= count && (forall|k: int| a <= k < a + n ==> #[trigger] mapped(layout, k)) && (n < count
            ==> !#[trigger] mapped(layout, a + n)) implies n == m by {
        if n < m {
            assert(mapped(layout, a + n));
        } else if m < n {
            assert(mapped(layout, a + m));
        }
    }
}

/// An access that starts in a region and ends in the next one is whole where the next region starts
/// right behind the first.
pub proof fn law_access_crosses_a_boundary(layout: Seq<RegionView>, a: int, count: nat, i: int)
    requires
        0 <= i < layout.len() - 1,
        layout[i].covers(a),
        layout[i].end() == layout[i + 1].base,
        a + count <= layout[i + 1].end(),
    ensures
        run(layout, a, count) == count,
{
    let room = (layout[i].end() - a) as nat;
    if count <= room {
        lemma_run_in_region(layout, a, count, i, count);
    } else {
        lemma_run_in_region(layout, a, count, i, room);
        lemma_run_in_region(
            layout,
            a + room,
            (count - room) as nat,
            i + 1,
            (count - room) as nat,
        );
    }
}

/// Only the last region of guest memory can run past the end of the guest's address space; where it
/// does not, every address can be looked up and every access can be made.
pub proof fn law_only_the_last_region_can_wrap(layout: Seq<RegionView>, a: int, count: nat)
    requires
        well_formed(layout),
    ensures
        forall|i: int| 0 <= i < layout.len() - 1 ==> (#[trigger] layout[i]).bounded(),
        layout.last().bounded() ==> bounded_up_to(layout, a) && access_bounded(layout, a, count),
{
    assert forall|i: int| 0 <= i < layout.len() - 1 implies (#[trigger] layout[i]).bounded() by {
        assert(layout[i].end() <= layout[i + 1].base);
    }
}

/// What is read of a mapping after a write is what was written, and the rest of the mapping is as it
/// was.
pub proof fn law_mapping_gives_what_was_stored(
    mapping: MappingView,
    mem: Seq<AreaView>,
    at: int,
    data: Seq<u8>,
)
    requires
        mapping.mapped_in(mem),
        0 <= at,
        at + data.len() <= mapping.len,
    ensures
        ({
            let after = mapping.store(mem, at, data);
            &&& mapping.mapped_in(after)
            &&& mapping.bytes(after).subrange(at, at + data.len()) == data
            &&& forall|k: int|
                0 <= k < mapping.len && !(at <= k < at + data.len()) ==> #[trigger] mapping.bytes(
                    after,
                )[k] == mapping.bytes(mem)[k]
        }),
{
    let after = mapping.store(mem, at, data);
    assert(mapping.bytes(after).subrange(at, at + data.len()) =~= data);
}

/// What is read of guest memory after a write is what was written.
pub proof fn law_read_gives_what_was_written(
    layout: Seq<RegionView>,
    before: Seq<AreaView>,
    after: Seq<AreaView>,
    a: int,
    buf: Seq<u8>,
    count: nat,
)
    requires
        count <= run(layout, a, buf.len()),
        changed_to(
            layout,
            before,
            after,
            patched(
                contents(layout, before),
                a,
                buf.take(run(layout, a, buf.len()) as int),
            ),
        ),
    ensures
        run(layout, a, count) == count,
        window(contents(layout, after), a, run(layout, a, count)) == buf.take(count as int),
{
    lemma_run(layout, a, buf.len());
    lemma_run(layout, a, count);
    if run(layout, a, count) < count {
        assert(mapped(layout, a + run(layout, a, count)));
    }
    assert forall|k: int| 0 <= k < count implies contents(layout, after)[a + k] == buf[k] by {
        assert(mapped(layout, a + k));
    }
    assert(window(contents(layout, after), a, count) =~= buf.take(count as int));
}

/// A write to guest memory changes no byte but those that it writes, and no address becomes or stops
/// being one of the memory.
pub proof fn law_write_leaves_the_rest(
    layout: Seq<RegionView>,
    before: Seq<AreaView>,
    after: Seq<AreaView>,
    a: int,
    data: Seq<u8>,
    k: int,
)
    requires
        changed_to(layout, before, after, patched(contents(layout, before), a, data)),
        !(a <= k < a + data.len()),
        mapped(layout, k),
    ensures
        contents(layout, after).dom() == contents(layout, before).dom(),
        contents(layout, after)[k] == contents(layout, before)[k],
{
    assert(contents(layout, after).dom() =~= contents(layout, before).dom());
}

/// Two writes, of which the second goes on where the first ends, leave the guest the same bytes as
/// one write of both.
pub proof fn law_writes_join(
    layout: Seq<RegionView>,
    first: Seq<AreaView>,
    second: Seq<AreaView>,
    third: Seq<AreaView>,
    a: int,
    head: Seq<u8>,
    tail: Seq<u8>,
)
    requires
        changed_to(layout, first, second, patched(contents(layout, first), a, head)),
        changed_to(
            layout,
            second,
            third,
            patched(contents(layout, second), a + head.len(), tail),
        ),
    ensures
        changed_to(layout, first, third, patched(contents(layout, first), a, head + tail)),
{
    assert(contents(layout, third) =~= patched(contents(layout, first), a, head + tail));
}

/// What is written through one region of guest memory is seen by the guest at the addresses of the
/// region, and nothing else changes.
pub proof fn law_region_write_is_seen(
    layout: Seq<RegionView>,
    mem: Seq<AreaView>,
    i: int,
    at: int,
    data: Seq<u8>,
)
    requires
        well_formed(layout),
        mapped_in(layout, mem),
        0 <= i < layout.len(),
        0 <= at,
        at + data.len() <= layout[i].mapping.len,
    ensures
        changed_to(
            layout,
            mem,
            layout[i].mapping.store(mem, at, data),
            patched(contents(layout, mem), layout[i].base + at, data),
        ),
{
    lemma_store(layout, mem, i, layout[i].base + at, data);
}

/// A slice of a mapping is a window on it: it has the bytes of the mapping from its offset on, and
/// what is stored in it is stored there in the mapping.
pub proof fn law_slice_is_part_of_mapping(
    mapping: MappingView,
    mem: Seq<AreaView>,
    offset: usize,
    count: usize,
    at: int,
    data: Seq<u8>,
)
    requires
        mapping.mapped_in(mem),
        range_error(mapping.len, offset, count) is None,
    ensures
        mapping.slice(offset, count).valid_in(mem),
        mapping.slice(offset, count).bytes(mem) == mapping.bytes(mem).subrange(
            offset as int,
            offset + count,
        ),
        mapping.slice(offset, count).store(mem, at, data) == mapping.store(
            mem,
            offset + at,
            data,
        ),
{
}

/// The host address of a guest address is in the mapping of its region, at the byte that the guest
/// sees there.
pub proof fn law_host_address_is_where_the_byte_is(
    layout: Seq<RegionView>,
    mem: Seq<AreaView>,
    a: int,
)
    requires
        well_formed(layout),
        mapped_in(layout, mem),
        mapped(layout, a),
    ensures
        ({
            let region = layout[region_at(layout, a)];
            let host = region.mapping.addr + (a - region.base);
            &&& region.mapping.addr <= host < region.mapping.addr + region.mapping.len
            &&& contents(layout, mem)[a] == mem[region.mapping.area as int].bytes[host
                - mem[region.mapping.area as int].addr]
        }),
{
    let i = region_at(layout, a);
    lemma_contents(layout, mem, a, i);
    assert(layout[i].mapping.mapped_in(mem));
}

/// Different guest addresses have different host addresses, and inside one region these are as far
/// from each other as the guest addresses.
pub proof fn law_host_addresses_differ(layout: Seq<RegionView>, a: int, b: int)
    requires
        well_formed(layout),
        mapped(layout, a),
        mapped(layout, b),
    ensures
        ({
            let here = layout[region_at(layout, a)];
            let there = layout[region_at(layout, b)];
            let p = here.mapping.addr + (a - here.base);
            let q = there.mapping.addr + (b - there.base);
            &&& a != b ==> p != q
            &&& region_at(layout, a) == region_at(layout, b) ==> q - p == b - a
        }),
{
    let i = region_at(layout, a);
    let j = region_at(layout, b);
    if i < j {
        assert(layout[i].mapping.apart_from(layout[j].mapping));
    } else if j < i {
        assert(layout[j].mapping.apart_from(layout[i].mapping));
    }
}

/// Guest memory has a region, none of its regions is empty, and they are sorted by their addresses
/// and apart, in the guest and in the host.
pub proof fn law_regions_are_apart(layout: Seq<RegionView>, i: int, j: int)
    requires
        well_formed(layout),
        0 <= i < j < layout.len(),
    ensures
        layout[i].mapping.len > 0,
        layout[j].mapping.len > 0,
        layout[i].base < layout[j].base,
        layout[i].end() <= layout[j].base,
        layout[i].bounded(),
        layout[i].mapping.apart_from(layout[j].mapping),
{
}

/// Two mappings that are different areas of the same host memory have no host address in common.
pub proof fn law_mappings_are_apart(mem: Seq<AreaView>, first: MappingView, second: MappingView)
    requires
        areas_apart(mem),
        first.mapped_in(mem),
        second.mapped_in(mem),
        first.area != second.area,
    ensures
        first.apart_from(second),
{
    if first.area < second.area {
        assert(mem[first.area as int].apart_from(mem[second.area as int]));
    } else {
        assert(mem[second.area as int].apart_from(mem[first.area as int]));
    }
}

/// A mapping that is made while another one is there has no host address in common with it, and
/// leaves it where it is, with the bytes that it has.
pub proof fn law_new_mapping_is_apart(
    before: Seq<AreaView>,
    after: Seq<AreaView>,
    there: MappingView,
    made: MappingView,
)
    requires
        there.mapped_in(before),
        after == before.push(after.last()),
        made.mapped_in(after),
        made.area == before.len(),
        forall|i: int|
            #![trigger before[i]]
            0 <= i < before.len() ==> before[i].apart_from(after.last()),
    ensures
        there.apart_from(made),
        there.mapped_in(after),
        there.bytes(after) == there.bytes(before),
{
    assert(before[there.area as int].apart_from(after.last()));
    assert(after[there.area as int] == before[there.area as int]);
}

/// Reading and writing leave every area where it is: areas that are apart stay apart, and a mapping
/// keeps its address and its length. The slice at its start has its address.
pub proof fn law_mapping_stays_where_it_is(
    before: Seq<AreaView>,
    after: Seq<AreaView>,
    mapping: MappingView,
)
    requires
        same_areas(before, after),
        mapping.mapped_in(before),
    ensures
        mapping.mapped_in(after),
        areas_apart(before) ==> areas_apart(after),
        mapping.addr == after[mapping.area as int].addr,
        mapping.addr == mapping.slice(0, 0).addr,
{
}

/// Storing in a mapping leaves every area where it is.
pub proof fn law_storing_moves_no_area(
    mapping: MappingView,
    mem: Seq<AreaView>,
    at: int,
    data: Seq<u8>,
)
    requires
        mapping.mapped_in(mem),
        0 <= at,
        at + data.len() <= mapping.len,
    ensures
        same_areas(mem, mapping.store(mem, at, data)),
{
}

/// A byte that is set in the bytes of a mapping, in place, is what the mapping then has there; its
/// other bytes, and those of other areas, are as they were.
pub proof fn law_byte_set_in_place(
    mapping: MappingView,
    before: Seq<AreaView>,
    after: Seq<AreaView>,
    k: int,
    b: u8,
)
    requires
        mapping.mapped_in(before),
        0 <= k < mapping.len,
        after == before.update(
            mapping.area as int,
            (AreaView { addr: mapping.addr, bytes: mapping.bytes(before).update(k, b) }),
        ),
    ensures
        mapping.mapped_in(after),
        same_areas(before, after),
        mapping.bytes(after).len() == mapping.len,
        mapping.bytes(after)[k] == b,
        forall|i: int|
            0 <= i < mapping.len && i != k ==> #[trigger] mapping.bytes(after)[i] == mapping.bytes(
                before,
            )[i],
        forall|i: int|
            0 <= i < before.len() && i != mapping.area ==> #[trigger] after[i] == before[i],
{
}

/// When host memory is no longer used, the memory that was lent for a region holds the bytes that
/// the guest saw in it last.
pub proof fn law_lent_memory_is_what_the_guest_saw(
    layout: Seq<RegionView>,
    mem: HostMemory<'_>,
    a: int,
)
    requires
        well_formed(layout),
        mapped_in(layout, mem@),
        mapped(layout, a),
        has_resolved(mem),
    ensures
        ({
            let region = layout[region_at(layout, a)];
            final(mem.areas@[region.mapping.area as int].bytes)@[a - region.base] == contents(
                layout,
                mem@,
            )[a]
        }),
{
    let i = region_at(layout, a);
    assert(layout[i].mapping.mapped_in(mem@));
    lemma_contents(layout, mem@, a, i);
    law_lent_memory_keeps_what_was_stored(mem, layout[i].mapping.area as int);
}

/// Guest memory that shares no area of host memory with the memory that is written keeps its bytes,
/// and stays mapped.
pub proof fn law_other_memory_is_untouched(
    layout: Seq<RegionView>,
    other: Seq<RegionView>,
    before: Seq<AreaView>,
    after: Seq<AreaView>,
    seen: Map<int, u8>,
)
    requires
        changed_to(layout, before, after, seen),
        mapped_in(other, before),
        forall|i: int, j: int|
            #![trigger layout[i], other[j]]
            0 <= i < layout.len() && 0 <= j < other.len() ==> layout[i].mapping.area
                != other[j].mapping.area,
    ensures
        mapped_in(other, after),
        contents(other, after) == contents(other, before),
{
    assert forall|j: int| 0 <= j < other.len() implies (#[trigger] other[j]).mapping.mapped_in(after)
        && other[j].mapping.bytes(after) == other[j].mapping.bytes(before) by {
        let k = other[j].mapping.area as int;
        assert(other[j].mapping.mapped_in(before));
        assert(after[k] == before[k]);
    }
    assert forall|a: int| mapped(other, a) implies contents(other, after)[a] == contents(
        other,
        before,
    )[a] by {
        let j = region_at(other, a);
        assert(other[j].mapping.bytes(after) == other[j].mapping.bytes(before));
    }
    assert(contents(other, after) =~= contents(other, before));
}

/// Memory that is mapped further leaves what was there as it was.
pub proof fn law_mapping_more_changes_nothing(
    layout: Seq<RegionView>,
    mem: Seq<AreaView>,
    more: Seq<AreaView>,
)
    requires
        mapped_in(layout, mem),
    ensures
        mapped_in(layout, mem + more),
        contents(layout, mem + more) == contents(layout, mem),
{
    assert forall|i: int| 0 <= i < layout.len() implies (#[trigger] layout[i]).mapping.mapped_in(
        mem + more,
    ) by {
        assert(layout[i].mapping.mapped_in(mem));
    }
    assert forall|a: int| mapped(layout, a) implies contents(layout, mem + more)[a] == contents(
        layout,
        mem,
    )[a] by {
        let i = region_at(layout, a);
        assert(layout[i].mapping.mapped_in(mem));
    }
    assert(contents(layout, mem + more) =~= contents(layout, mem));
}

/// Where the kernel refuses nothing, guest memory is created from every list of ranges that has one
/// and in which each range starts at or behind the end of the one before it, and from no other: an
/// empty list and one out of order have their own errors.
pub proof fn law_ranges_decide<'a>(
    ranges: Seq<(GuestAddress, usize)>,
    lent: Seq<HostArea<'a>>,
    first: nat,
    result: Result<GuestMemoryMmap, MmapError>,
)
    requires
        created(ranges, lent, None, first, result),
    ensures
        result is Ok <==> ranges.len() > 0 && in_order(ranges, ranges.len()),
        result == Err::<GuestMemoryMmap, MmapError>(MmapError::NoMemoryRegion) <==> ranges.len()
            == 0,
        result == Err::<GuestMemoryMmap, MmapError>(MmapError::MemoryRegionOverlap)
            <==> ranges.len() > 0 && !in_order(ranges, ranges.len()),
{
}

/// Guest memory that was created has a region for each range, in the order of the list, and holds
/// exactly the addresses of the ranges.
pub proof fn law_memory_is_its_ranges<'a>(
    ranges: Seq<(GuestAddress, usize)>,
    lent: Seq<HostArea<'a>>,
    first: nat,
    memory: GuestMemoryMmap,
    a: int,
)
    requires
        created(ranges, lent, None, first, Ok(memory)),
    ensures
        memory@.len() == ranges.len(),
        forall|i: int|
            0 <= i < ranges.len() ==> (#[trigger] memory@[i]).base == ranges[i].0.0
                && memory@[i].mapping.len == ranges[i].1,
        mapped(memory@, a) <==> exists|i: int|
            0 <= i < ranges.len() && (#[trigger] ranges[i]).0.0 <= a < ranges[i].0.0 + ranges[i].1,
{
    let layout = memory@;
    assert(layout == layout_of(ranges, lent, first));
    if mapped(layout, a) {
        let i = region_at(layout, a);
        assert(ranges[i].0.0 <= a < ranges[i].0.0 + ranges[i].1);
    }
    if exists|i: int|
        0 <= i < ranges.len() && (#[trigger] ranges[i]).0.0 <= a < ranges[i].0.0 + ranges[i].1 {
        let i = choose|i: int|
            0 <= i < ranges.len() && (#[trigger] ranges[i]).0.0 <= a < ranges[i].0.0 + ranges[i].1;
        assert(layout[i].covers(a));
    }
}

/// A visit of all regions of guest memory that does not fail calls back with every region, of which
/// there are as many as ranges.
pub proof fn law_every_region_is_visited<'a, F, E>(
    ranges: Seq<(GuestAddress, usize)>,
    lent: Seq<HostArea<'a>>,
    first: nat,
    memory: GuestMemoryMmap,
    cb: F,
    i: usize,
) where F: FnOnce(usize, &GuestRegionMmap) -> Result<(), E>
    requires
        created(ranges, lent, None, first, Ok(memory)),
        visited(cb, memory.all_regions(), Ok::<(), E>(())),
        i < ranges.len(),
    ensures
        memory@.len() == ranges.len(),
        call_ensures(cb, (i, &memory.all_regions()[i as int]), Ok::<(), E>(())),
{
    assert(memory@.len() == memory.all_regions().len());
}

/// A fold takes every region in once: one that adds 1 for each region counts the regions.
pub proof fn law_fold_counts_the_regions<F, G>(
    mapf: F,
    foldf: G,
    regions: Seq<GuestRegionMmap>,
    n: nat,
    acc: usize,
) where F: Fn((usize, &GuestRegionMmap)) -> usize, G: Fn(usize, usize) -> usize
    requires
        forall|i: usize, region: &GuestRegionMmap, item: usize| #[trigger]
            call_ensures(mapf, ((i, region),), item) ==> item == 1,
        forall|prev: usize, item: usize, next: usize| #[trigger]
            call_ensures(foldf, (prev, item), next) ==> next == prev + item,
        folded(mapf, foldf, regions, 0, n, acc),
    ensures
        acc == n,
    decreases n,
{
    if n > 0 {
        let k = (n - 1) as nat;
        let (prev, item) = choose|prev: usize, item: usize|
            {
                &&& folded(mapf, foldf, regions, 0, k, prev)
                &&& #[trigger] call_ensures(mapf, ((k as usize, &regions[k as int]),), item)
                &&& #[trigger] call_ensures(foldf, (prev, item), acc)
            };
        law_fold_counts_the_regions(mapf, foldf, regions, k, prev);
    }
}

/// The pieces that a source gives to a transfer fit into the addresses that regions hold.
proof fn lemma_pieces_fit<F>(
    src: F,
    layout: Seq<RegionView>,
    a: int,
    count: usize,
    pieces: Seq<Vec<u8>>,
) where F: FnOnce(usize) -> Result<Vec<u8>, std::io::Error>
    requires
        given(src, layout, a, count as int, pieces),
        forall|n: usize| n <= count ==> #[trigger] reads_up_to(src, n),
    ensures
        joined(pieces).len() <= count,
        forall|k: int| a <= k < a + joined(pieces).len() ==> #[trigger] mapped(layout, k),
    decreases pieces.len(),
{
    if pieces.len() > 0 {
        let done = joined(pieces.drop_last()).len();
        lemma_pieces_fit(src, layout, a, count, pieces.drop_last());
        let i = region_at(layout, a + done);
        let ask = step_len(layout, a + done, count - done);
        assert(layout[i].covers(a + done));
        assert(reads_up_to(src, ask as usize));
        assert(pieces.last()@.len() <= ask);
        assert forall|k: int| a <= k < a + joined(pieces).len() implies #[trigger] mapped(
            layout,
            k,
        ) by {
            if k >= a + done {
                assert(layout[i].covers(k));
            }
        }
    }
}

/// A transfer into guest memory that has to move all bytes, and succeeds, has stored as many as it
/// was asked for, and the guest sees at its address what the source gave.
pub proof fn law_exact_transfer_is_whole<F>(
    src: F,
    layout: Seq<RegionView>,
    before: Seq<AreaView>,
    after: Seq<AreaView>,
    addr: GuestAddress,
    count: usize,
    pieces: Seq<Vec<u8>>,
    moved: Result<usize, Error>,
) where F: FnOnce(usize) -> Result<Vec<u8>, std::io::Error>
    requires
        forall|n: usize| n <= count ==> #[trigger] reads_up_to(src, n),
        read_done(src, layout, before, after, addr, count as int, pieces, moved),
        all_or_error(count, moved) is Ok,
    ensures
        joined(pieces).len() == count,
        window(contents(layout, after), addr.0 as int, count as nat) == joined(pieces),
{
    let a = addr.0 as int;
    lemma_pieces_fit(src, layout, a, count, pieces);
    assert forall|k: int| 0 <= k < count implies contents(layout, after)[a + k] == joined(
        pieces,
    )[k] by {
        assert(mapped(layout, a + k));
    }
    assert(window(contents(layout, after), a, count as nat) =~= joined(pieces));
}

} // verus!
