//! The memory of a guest: its regions, and how they are found.

use crate::address::{GuestAddress, MemoryRegionAddress};
use crate::guest_memory::{
    bounded_up_to, lemma_one_region, mapped, mapped_in, region_at, well_formed, MappingView,
    RegionView,
};
use crate::host_memory::{areas_apart, HostArea, HostMemory};
use crate::mmap::mapping::{can_map, region_of_reply, MapRequest, MmapRegion};
use crate::mmap::region::GuestRegionMmap;
use crate::mmap::visit::{lemma_function_visited, visit_done, VisitorFn};
use std::sync::Arc;
use vstd::prelude::*;

verus! {

/// Errors that can happen when creating guest memory.
#[derive(Debug)]
pub enum MmapError {
    /// The kernel returned the given error.
    SystemCallFailed(std::io::Error),
    /// No memory region found.
    NoMemoryRegion,
    /// Some of the memory regions intersect with each other.
    MemoryRegionOverlap,
}

/// Whether a range of guest memory may come after another: it starts at or behind the end of the
/// other.
pub open spec fn may_follow(range: (GuestAddress, usize), prev: (GuestAddress, usize)) -> bool {
    prev.0.0 + prev.1 <= range.0.0
}

/// Whether each of the first `n` ranges may come after the one before it.
pub open spec fn in_order(ranges: Seq<(GuestAddress, usize)>, n: nat) -> bool {
    forall|i: int| 0 < i < n ==> may_follow(#[trigger] ranges[i], ranges[i - 1])
}

/// The layout of regions that start at the addresses of `ranges` and are the memory that was lent
/// for them, which is in host memory from area `first` on.
pub open spec fn layout_of<'a>(
    ranges: Seq<(GuestAddress, usize)>,
    lent: Seq<HostArea<'a>>,
    first: nat,
) -> Seq<RegionView> {
    Seq::new(
        lent.len(),
        |i: int|
            RegionView {
                base: ranges[i].0.0,
                mapping: MappingView {
                    addr: lent[i]@.addr,
                    len: ranges[i].1,
                    area: (first + i) as nat,
                },
            },
    )
}

/// Whether `result` is what comes of a list of ranges when the kernel lends `lent`, one area for
/// each of the first ranges, and `refusal` is its reply to the request after these, if it failed.
pub open spec fn created<'a>(
    ranges: Seq<(GuestAddress, usize)>,
    lent: Seq<HostArea<'a>>,
    refusal: Option<std::io::Error>,
    first: nat,
    result: Result<GuestMemoryMmap, MmapError>,
) -> bool {
    match result {
        Ok(memory) => {
            &&& 0 < ranges.len() == lent.len()
            &&& refusal is None
            &&& in_order(ranges, ranges.len())
            &&& memory@ == layout_of(ranges, lent, first)
        },
        Err(MmapError::NoMemoryRegion) => {
            &&& ranges.len() == lent.len() == 0
            &&& refusal is None
        },
        Err(MmapError::MemoryRegionOverlap) => {
            &&& 0 < lent.len() < ranges.len()
            &&& refusal is None
            &&& in_order(ranges, lent.len())
            &&& !may_follow(ranges[lent.len() as int], ranges[lent.len() - 1])
        },
        Err(MmapError::SystemCallFailed(e)) => {
            &&& lent.len() < ranges.len()
            &&& refusal == Some(e)
            &&& in_order(ranges, lent.len() + 1)
        },
    }
}

/// Whether `reply` is one that `mmap` can give to `request` when host memory has the given areas.
pub open spec fn can_reply<'a, F>(
    mmap: F,
    request: MapRequest,
    areas: Seq<HostArea<'a>>,
    reply: Result<HostArea<'a>, std::io::Error>,
) -> bool where F: Fn(MapRequest, &HostMemory<'a>) -> Result<HostArea<'a>, std::io::Error> {
    exists|mem: HostMemory<'a>|
        mem.areas@ == areas && #[trigger] call_ensures(mmap, (request, &mem), reply)
}

/// Whether `lent` and `refusal` are replies that `mmap` can give to the requests for `ranges`, one
/// after the other. Host memory has the given areas first, and then what was lent so far as well.
pub open spec fn replied<'a, F>(
    mmap: F,
    ranges: Seq<(GuestAddress, usize)>,
    areas: Seq<HostArea<'a>>,
    lent: Seq<HostArea<'a>>,
    refusal: Option<std::io::Error>,
) -> bool where F: Fn(MapRequest, &HostMemory<'a>) -> Result<HostArea<'a>, std::io::Error> {
    &&& forall|i: int|
        #![trigger lent[i]]
        0 <= i < lent.len() ==> can_reply(
            mmap,
            MapRequest::anonymous_request(ranges[i].1),
            areas + lent.take(i),
            Ok(lent[i]),
        )
    &&& refusal matches Some(e) ==> can_reply(
        mmap,
        MapRequest::anonymous_request(ranges[lent.len() as int].1),
        areas + lent,
        Err(e),
    )
}

/// Whether `cb` can return without an error when it is called with each of the first `n` regions.
pub open spec fn passed<F, E>(cb: F, regions: Seq<GuestRegionMmap>, n: nat) -> bool where
    F: FnOnce(usize, &GuestRegionMmap) -> Result<(), E>,
 {
    forall|i: usize|
        i < n ==> #[trigger] call_ensures(cb, (i, &regions[i as int]), Ok::<(), E>(()))
}

/// Whether `result` comes of calling `cb` with the number and the value of each region in turn,
/// until a call fails.
pub open spec fn visited<F, E>(
    cb: F,
    regions: Seq<GuestRegionMmap>,
    result: Result<(), E>,
) -> bool where F: FnOnce(usize, &GuestRegionMmap) -> Result<(), E> {
    match result {
        Ok(()) => passed(cb, regions, regions.len()),
        Err(e) => exists|k: usize|
            {
                &&& k < regions.len()
                &&& #[trigger] call_ensures(cb, (k, &regions[k as int]), Err::<(), E>(e))
                &&& passed(cb, regions, k as nat)
            },
    }
}

/// Whether `acc` can be what `foldf` has made of `init` and of what `mapf` gives for the first `n`
/// regions.
pub open spec fn folded<F, G, T>(
    mapf: F,
    foldf: G,
    regions: Seq<GuestRegionMmap>,
    init: T,
    n: nat,
    acc: T,
) -> bool where F: Fn((usize, &GuestRegionMmap)) -> T, G: Fn(T, T) -> T
    decreases n,
{
    if n == 0 {
        acc == init
    } else {
        let k = (n - 1) as nat;
        exists|prev: T, item: T|
            {
                &&& folded(mapf, foldf, regions, init, k, prev)
                &&& #[trigger] call_ensures(mapf, ((k as usize, &regions[k as int]),), item)
                &&& #[trigger] call_ensures(foldf, (prev, item), acc)
            }
    }
}

/// Tracks memory regions allocated/mapped for the guest in this process.
#[derive(Debug)]
pub struct GuestMemoryMmap {
    regions: Arc<Vec<GuestRegionMmap>>,
}

impl View for GuestMemoryMmap {
    type V = Seq<RegionView>;

    open spec fn view(&self) -> Seq<RegionView> {
        self.all_regions().map_values(|region: GuestRegionMmap| region@)
    }
}

impl Clone for GuestMemoryMmap {
    /// The same guest memory: what is written through one is read through the other.
    fn clone(&self) -> (memory: Self)
        ensures
            memory == *self,
    {
        proof {
            use_type_invariant(self);
        }
        GuestMemoryMmap { regions: self.regions.clone() }
    }
}

impl GuestMemoryMmap {
    /// The regions, in the order of their addresses.
    pub closed spec fn all_regions(&self) -> Seq<GuestRegionMmap> {
        self.regions@
    }

    /// The regions make up guest memory.
    #[verifier::type_invariant]
    pub open spec fn valid(&self) -> bool {
        well_formed(self@)
    }

    /// Maps anonymous memory for the regions of guest memory, which are given as addresses and
    /// sizes, sorted by address.
    ///
    /// On an error, the memory that was lent until then stays in `mem`: whoever lent it has to take
    /// it back from there and unmap it.
    pub fn new<'a, F>(
        ranges: &[(GuestAddress, usize)],
        mem: &mut HostMemory<'a>,
        mmap: F,
    ) -> (memory: Result<Self, MmapError>) where
        F: Fn(MapRequest, &HostMemory<'a>) -> Result<HostArea<'a>, std::io::Error>,

        requires
            forall|i: int, m: HostMemory<'a>|
                #![trigger ranges@[i], m.areas@]
                0 <= i < ranges@.len() && in_order(ranges@, (i + 1) as nat)
                    && old(mem).areas@.is_prefix_of(m.areas@) ==> can_map(
                    mmap,
                    MapRequest::anonymous_request(ranges@[i].1),
                    m,
                ),
        ensures
            exists|lent: Seq<HostArea<'a>>, refusal: Option<std::io::Error>|
                {
                    &&& #[trigger] replied(mmap, ranges@, old(mem).areas@, lent, refusal)
                    &&& created(ranges@, lent, refusal, old(mem)@.len(), memory)
                    &&& final(mem).areas@ == old(mem).areas@ + lent
                },
            areas_apart(old(mem)@) ==> areas_apart(final(mem)@),
            memory == Err::<Self, MmapError>(MmapError::NoMemoryRegion) <==> ranges@.len() == 0,
            memory == Err::<Self, MmapError>(MmapError::MemoryRegionOverlap) ==> exists|i: int|
                0 < i < ranges@.len() && ranges@[i - 1].0.0 + ranges@[i - 1].1 > (
                #[trigger] ranges@[i]).0.0,
            memory is Ok ==> forall|i: int|
                0 < i < ranges@.len() ==> ranges@[i - 1].0.0 + ranges@[i - 1].1 <= (
                #[trigger] ranges@[i]).0.0,
            memory matches Ok(m) ==> m@.len() == ranges@.len() && forall|i: int|
                0 <= i < ranges@.len() ==> (#[trigger] m@[i]).base == ranges@[i].0.0
                    && m@[i].mapping.len == ranges@[i].1,
            memory matches Ok(m) ==> well_formed(m@) && mapped_in(m@, final(mem)@),
    {
        if ranges.len() == 0 {
            proof {
                let none = Seq::<HostArea<'a>>::empty();
                assert(replied(mmap, ranges@, mem.areas@, none, None));
                assert(mem.areas@ =~= old(mem).areas@ + none);
            }
            return Err(MmapError::NoMemoryRegion);
        }
        let ghost first = old(mem)@.len();
        let ghost mut lent = Seq::<HostArea<'a>>::empty();
        let mut regions: Vec<GuestRegionMmap> = Vec::new();
        assert(mem.areas@ =~= old(mem).areas@ + lent);
        let mut i: usize = 0;
        while i < ranges.len()
            invariant
                i <= ranges@.len(),
                first == old(mem)@.len(),
                forall|k: int, m: HostMemory<'a>|
                    #![trigger ranges@[k], m.areas@]
                    0 <= k < ranges@.len() && in_order(ranges@, (k + 1) as nat)
                        && old(mem).areas@.is_prefix_of(m.areas@) ==> can_map(
                        mmap,
                        MapRequest::anonymous_request(ranges@[k].1),
                        m,
                    ),
                lent.len() == regions@.len() == i,
                replied(mmap, ranges@, old(mem).areas@, lent, None),
                in_order(ranges@, i as nat),
                mem.areas@ == old(mem).areas@ + lent,
                areas_apart(old(mem)@) ==> areas_apart(mem@),
                regions@.map_values(|region: GuestRegionMmap| region@) == layout_of(
                    ranges@,
                    lent,
                    first,
                ),
                i > 0 ==> well_formed(layout_of(ranges@, lent, first)),
                mapped_in(layout_of(ranges@, lent, first), mem@),
            decreases ranges@.len() - i,
        {
            let (guest_base, size): (GuestAddress, usize) = ranges[i];
            if i > 0 {
                let last = &regions[i - 1];
                assert(last@ == layout_of(ranges@, lent, first)[i - 1]);
                let overlaps: bool = match last.min_addr().checked_add(last.len()) {
                    None => true,
                    Some(end) => end.raw_value() > guest_base.raw_value(),
                };
                if overlaps {
                    return Err(MmapError::MemoryRegionOverlap);
                }
            }
            let ghost before = *mem;
            let ghost request = MapRequest::anonymous_request(size);
            assert(in_order(ranges@, (i + 1) as nat));
            assert(old(mem).areas@.is_prefix_of(before.areas@));
            assert(can_map(mmap, MapRequest::anonymous_request(ranges@[i as int].1), before));
            let outcome = MmapRegion::new(size, mem, &mmap);
            let ghost reply = choose|reply| #[trigger]
                call_ensures(mmap, (request, &before), reply) && region_of_reply(
                    reply,
                    before.areas@,
                    mem.areas@,
                    outcome,
                );
            assert(can_reply(mmap, request, old(mem).areas@ + lent, reply));
            match outcome {
                Err(e) => {
                    assert(replied(mmap, ranges@, old(mem).areas@, lent, Some(e)));
                    return Err(MmapError::SystemCallFailed(e));
                },
                Ok(mapping) => {
                    proof {
                        let area = reply->Ok_0;
                        let all = lent.push(area);
                        assert(mem.areas@ =~= old(mem).areas@ + all);
                        assert forall|k: int| 0 <= k < all.len() implies can_reply(
                            mmap,
                            MapRequest::anonymous_request(ranges@[k].1),
                            old(mem).areas@ + all.take(k),
                            Ok(#[trigger] all[k]),
                        ) by {
                            if k < i {
                                assert(all.take(k) =~= lent.take(k));
                                assert(all[k] == lent[k]);
                            } else {
                                assert(all.take(k) =~= lent);
                            }
                        }
                        assert(layout_of(ranges@, all, first) =~= layout_of(
                            ranges@,
                            lent,
                            first,
                        ).push(RegionView { base: guest_base.0, mapping: mapping@ }));
                        if i > 0 {
                            let layout = layout_of(ranges@, lent, first);
                            assert forall|k: int| 0 <= k < i implies (
                            #[trigger] layout[k]).end() <= guest_base.0
                                && layout[k].mapping.apart_from(mapping@) by {
                                if k < i - 1 {
                                    assert(layout[k].end() <= layout[i - 1].base);
                                }
                                assert(layout[k].mapping.mapped_in(before@));
                                assert(before@[first + k].apart_from(area@));
                            }
                        }
                        lent = all;
                    }
                    regions.push(GuestRegionMmap::new(mapping, guest_base));
                    assert(regions@.map_values(|region: GuestRegionMmap| region@) =~= layout_of(
                        ranges@,
                        lent,
                        first,
                    ));
                },
            }
            i = i + 1;
        }
        assert(replied(mmap, ranges@, old(mem).areas@, lent, None));
        Ok(GuestMemoryMmap { regions: Arc::new(regions) })
    }

    /// The number of regions.
    pub fn num_regions(&self) -> (count: usize)
        ensures
            count == self@.len(),
    {
        self.regions.len()
    }

    /// Whether every region that starts at or below `addr` ends within the guest's address space, so
    /// that `addr` can be looked up.
    pub fn is_bounded_up_to(&self, addr: GuestAddress) -> (bounded: bool)
        ensures
            bounded == bounded_up_to(self@, addr.0 as int),
    {
        let mut i: usize = 0;
        while i < self.regions.len()
            invariant
                i <= self@.len(),
                forall|k: int|
                    #![trigger self@[k]]
                    0 <= k < i && self@[k].base <= addr.0 ==> self@[k].bounded(),
            decreases self@.len() - i,
        {
            let region = &self.regions[i];
            assert(region@ == self@[i as int]);
            if region.min_addr().raw_value() <= addr.raw_value() {
                match region.min_addr().checked_add(region.len()) {
                    None => {
                        assert(!self@[i as int].bounded());
                        return false;
                    },
                    Some(_) => {},
                }
            }
            i = i + 1;
        }
        true
    }

    /// The region that holds a guest address, or `None` if none does.
    pub fn find_region(&self, addr: GuestAddress) -> (region: Option<&GuestRegionMmap>)
        requires
            bounded_up_to(self@, addr.0 as int),
        ensures
            match region {
                Some(r) => {
                    &&& mapped(self@, addr.0 as int)
                    &&& *r == self.all_regions()[region_at(self@, addr.0 as int)]
                },
                None => !mapped(self@, addr.0 as int),
            },
    {
        proof {
            use_type_invariant(self);
        }
        let mut i: usize = 0;
        while i < self.regions.len()
            invariant
                well_formed(self@),
                bounded_up_to(self@, addr.0 as int),
                i <= self@.len(),
                forall|k: int|
                    #![trigger self@[k]]
                    0 <= k < i ==> !self@[k].covers(addr.0 as int),
            decreases self@.len() - i,
        {
            let region = &self.regions[i];
            assert(region@ == self@[i as int]);
            if addr.raw_value() >= region.min_addr().raw_value() && addr.raw_value()
                < region.max_addr().raw_value() {
                proof {
                    lemma_one_region(self@, addr.0 as int, i as int);
                }
                return Some(region);
            }
            i = i + 1;
        }
        None
    }

    /// The region that holds a guest address and the offset of the address in it, or `None` if no
    /// region holds it.
    pub fn to_region_addr(&self, addr: GuestAddress) -> (place: Option<
        (&GuestRegionMmap, MemoryRegionAddress),
    >)
        requires
            bounded_up_to(self@, addr.0 as int),
        ensures
            match place {
                Some((r, offset)) => {
                    let i = region_at(self@, addr.0 as int);
                    &&& mapped(self@, addr.0 as int)
                    &&& *r == self.all_regions()[i]
                    &&& offset.0 == addr.0 - self@[i].base
                },
                None => !mapped(self@, addr.0 as int),
            },
    {
        match self.find_region(addr) {
            None => None,
            Some(region) => match region.to_region_addr(addr) {
                None => None,
                Some(offset) => Some((region, offset)),
            },
        }
    }

    /// The address in this process of the byte at a guest address, or `None` if no region holds it.
    pub fn get_host_address(&self, addr: GuestAddress) -> (host: Option<usize>)
        requires
            bounded_up_to(self@, addr.0 as int),
        ensures
            match host {
                Some(h) => {
                    let region = self@[region_at(self@, addr.0 as int)];
                    &&& mapped(self@, addr.0 as int)
                    &&& h == region.mapping.addr + (addr.0 - region.base)
                },
                None => !mapped(self@, addr.0 as int),
            },
    {
        match self.to_region_addr(addr) {
            None => None,
            Some((region, offset)) => region.get_host_address(offset),
        }
    }

    /// The regions, in the order of their addresses.
    pub(crate) fn region_list(&self) -> (regions: &[GuestRegionMmap])
        ensures
            regions@ == self.all_regions(),
    {
        self.regions.as_slice()
    }

    /// Calls `cb` with the number and the value of each region in turn, until a call fails.
    pub fn with_regions<F, E>(&self, cb: F) -> (result: Result<(), E>) where
        F: Fn(usize, &GuestRegionMmap) -> Result<(), E>,

        requires
            forall|i: usize|
                i < self@.len() && passed(cb, self.all_regions(), i as nat)
                    ==> #[trigger] call_requires(cb, (i, &self.all_regions()[i as int])),
        ensures
            visited(cb, self.all_regions(), result),
    {
        let ghost f = cb;
        let mut visitor = VisitorFn { f: cb };
        let result = self.visit_regions(&mut visitor);
        proof {
            let first = VisitorFn { f };
            assert(self.regions.len() == self.all_regions().len());
            let states = choose|states: Seq<VisitorFn<F>>| #[trigger]
                visit_done(first, visitor, states, self.all_regions(), result);
            lemma_function_visited(first, visitor, states, self.all_regions(), result);
        }
        result
    }

    /// Calls `cb`, which may change what it has captured, with the number and the value of each
    /// region in turn, until a call fails.
    pub fn with_regions_mut<F, E>(&self, cb: F) -> (result: Result<(), E>) where
        F: FnMut(usize, &GuestRegionMmap) -> Result<(), E>,

        requires
            forall|i: usize|
                i < self@.len() && passed(cb, self.all_regions(), i as nat)
                    ==> #[trigger] call_requires(cb, (i, &self.all_regions()[i as int])),
        ensures
            visited(cb, self.all_regions(), result),
    {
        let ghost f = cb;
        let mut visitor = VisitorFn { f: cb };
        let result = self.visit_regions(&mut visitor);
        proof {
            let first = VisitorFn { f };
            assert(self.regions.len() == self.all_regions().len());
            let states = choose|states: Seq<VisitorFn<F>>| #[trigger]
                visit_done(first, visitor, states, self.all_regions(), result);
            lemma_function_visited(first, visitor, states, self.all_regions(), result);
        }
        result
    }

    /// Folds what `mapf` gives for the number and the value of each region, in turn, into `init`
    /// with `foldf`.
    pub fn map_and_fold<F, G, T>(&self, init: T, mapf: F, foldf: G) -> (acc: T) where
        F: Fn((usize, &GuestRegionMmap)) -> T,
        G: Fn(T, T) -> T,

        requires
            forall|i: usize|
                i < self@.len() ==> #[trigger] call_requires(
                    mapf,
                    ((i, &self.all_regions()[i as int]),),
                ),
            forall|i: usize, prev: T, item: T|
                i < self@.len() && #[trigger] folded(
                    mapf,
                    foldf,
                    self.all_regions(),
                    init,
                    i as nat,
                    prev,
                ) && #[trigger] call_ensures(mapf, ((i, &self.all_regions()[i as int]),), item)
                    ==> call_requires(foldf, (prev, item)),
        ensures
            folded(mapf, foldf, self.all_regions(), init, self@.len(), acc),
    {
        let mut acc = init;
        let mut i: usize = 0;
        while i < self.regions.len()
            invariant
                i <= self@.len(),
                forall|k: usize|
                    k < self@.len() ==> #[trigger] call_requires(
                        mapf,
                        ((k, &self.all_regions()[k as int]),),
                    ),
                forall|k: usize, prev: T, item: T|
                    k < self@.len() && #[trigger] folded(
                        mapf,
                        foldf,
                        self.all_regions(),
                        init,
                        k as nat,
                        prev,
                    ) && #[trigger] call_ensures(mapf, ((k, &self.all_regions()[k as int]),), item)
                        ==> call_requires(foldf, (prev, item)),
                folded(mapf, foldf, self.all_regions(), init, i as nat, acc),
            decreases self@.len() - i,
        {
            let item = mapf((i, &self.regions[i]));
            let ghost prev = acc;
            acc = foldf(acc, item);
            proof {
                let n = (i + 1) as nat;
                let k = (n - 1) as nat;
                assert(k as usize == i);
                assert(folded(mapf, foldf, self.all_regions(), init, k, prev));
                assert(call_ensures(mapf, ((k as usize, &self.all_regions()[k as int]),), item));
                assert(call_ensures(foldf, (prev, item), acc));
                assert(folded(mapf, foldf, self.all_regions(), init, n, acc));
            }
            i = i + 1;
        }
        acc
    }
}

} // verus!
