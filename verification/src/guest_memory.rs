//! What guest memory is: regions of the guest's physical address space, each of which stands for an
//! area of host memory, and the bytes that the guest sees through them.

use crate::address::GuestAddress;
use crate::host_memory::{same_areas, store, AreaView};
use crate::volatile_memory;
use crate::volatile_memory::SliceView;
use vstd::prelude::*;

verus! {

/// Errors of an access to guest memory.
#[derive(Debug)]
pub enum Error {
    /// No region of guest memory holds the address.
    InvalidGuestAddress(GuestAddress),
    /// Reading from a source or writing to a sink failed.
    IOError(std::io::Error),
    /// Only a part of the buffer was read or written.
    PartialBuffer { expected: usize, completed: usize },
    /// The address is out of the range of the memory behind a region.
    InvalidBackendAddress,
}

/// How an error of host memory shows in guest memory.
pub open spec fn guest_error(e: volatile_memory::Error) -> Error {
    match e {
        volatile_memory::Error::OutOfBounds { .. } => Error::InvalidBackendAddress,
        volatile_memory::Error::Overflow { .. } => Error::InvalidBackendAddress,
        volatile_memory::Error::IOError(e) => Error::IOError(e),
        volatile_memory::Error::PartialBuffer { expected, completed } => Error::PartialBuffer {
            expected,
            completed,
        },
    }
}

impl From<volatile_memory::Error> for Error {
    fn from(e: volatile_memory::Error) -> (error: Self) {
        match e {
            volatile_memory::Error::OutOfBounds { .. } => Error::InvalidBackendAddress,
            volatile_memory::Error::Overflow { .. } => Error::InvalidBackendAddress,
            volatile_memory::Error::IOError(e) => Error::IOError(e),
            volatile_memory::Error::PartialBuffer { expected, completed } => Error::PartialBuffer {
                expected,
                completed,
            },
        }
    }
}

impl vstd::std_specs::convert::FromSpecImpl<volatile_memory::Error> for Error {
    open spec fn obeys_from_spec() -> bool {
        true
    }

    open spec fn from_spec(e: volatile_memory::Error) -> Self {
        guest_error(e)
    }
}

/// What a mapping is: where it starts in this process, how long it is, and the number of the area
/// of host memory that it is.
pub struct MappingView {
    pub addr: usize,
    pub len: usize,
    pub area: nat,
}

impl MappingView {
    /// Whether the mapping is an area of `mem`.
    pub open spec fn mapped_in(self, mem: Seq<AreaView>) -> bool {
        &&& self.area < mem.len()
        &&& mem[self.area as int].addr == self.addr
        &&& mem[self.area as int].bytes.len() == self.len
        &&& self.addr + self.len <= usize::MAX
    }

    /// Whether the mapping has no host address in common with another.
    pub open spec fn apart_from(self, other: MappingView) -> bool {
        ||| self.addr + self.len <= other.addr
        ||| other.addr + other.len <= self.addr
    }

    /// The bytes of the mapping.
    pub open spec fn bytes(self, mem: Seq<AreaView>) -> Seq<u8> {
        mem[self.area as int].bytes
    }

    /// `mem` with `data` stored at offset `at` of the mapping.
    pub open spec fn store(self, mem: Seq<AreaView>, at: int, data: Seq<u8>) -> Seq<AreaView> {
        store(mem, self.area as int, at, data)
    }

    /// How many of `count` bytes at offset `at` lie in the mapping.
    pub open spec fn room(self, at: usize, count: nat) -> nat {
        self.slice(0, self.len).room(at, count)
    }

    /// The slice of `count` bytes at `offset`.
    pub open spec fn slice(self, offset: usize, count: usize) -> SliceView {
        SliceView {
            addr: (self.addr + offset) as usize,
            len: count,
            area: self.area,
            start: offset as nat,
        }
    }
}

/// What a region of guest memory is: its first guest address and the mapping behind it.
pub struct RegionView {
    pub base: u64,
    pub mapping: MappingView,
}

impl RegionView {
    /// The guest address right behind the region.
    pub open spec fn end(self) -> int {
        self.base + self.mapping.len
    }

    /// Whether the region holds the guest address `a`.
    pub open spec fn covers(self, a: int) -> bool {
        self.base <= a < self.end()
    }

    /// Whether the end of the region is a guest address.
    pub open spec fn bounded(self) -> bool {
        self.end() <= u64::MAX
    }
}

/// Whether `layout` can be that of guest memory: there is a region, none is empty, each region ends
/// before the next one starts, and no two stand for the same area of host memory or have a host
/// address in common.
pub open spec fn well_formed(layout: Seq<RegionView>) -> bool {
    &&& layout.len() > 0
    &&& forall|i: int|
        #![trigger layout[i]]
        0 <= i < layout.len() ==> layout[i].mapping.len > 0
    &&& forall|i: int, j: int|
        #![trigger layout[i], layout[j]]
        0 <= i < j < layout.len() ==> {
            &&& layout[i].end() <= layout[j].base
            &&& layout[i].mapping.area != layout[j].mapping.area
            &&& layout[i].mapping.apart_from(layout[j].mapping)
        }
}

/// Whether every region of `layout` is an area of `mem`.
pub open spec fn mapped_in(layout: Seq<RegionView>, mem: Seq<AreaView>) -> bool {
    forall|i: int|
        #![trigger layout[i]]
        0 <= i < layout.len() ==> layout[i].mapping.mapped_in(mem)
}

/// Whether every region that starts at or below `a` ends within the guest's address space.
pub open spec fn bounded_up_to(layout: Seq<RegionView>, a: int) -> bool {
    forall|i: int|
        #![trigger layout[i]]
        0 <= i < layout.len() && layout[i].base <= a ==> layout[i].bounded()
}

/// Whether some region holds the guest address `a`.
pub open spec fn mapped(layout: Seq<RegionView>, a: int) -> bool {
    exists|i: int| #![trigger layout[i]] 0 <= i < layout.len() && layout[i].covers(a)
}

/// The region that holds the guest address `a`, where there is one.
pub open spec fn region_at(layout: Seq<RegionView>, a: int) -> int {
    choose|i: int| #![trigger layout[i]] 0 <= i < layout.len() && layout[i].covers(a)
}

/// What the guest sees: the byte at each guest address that some region holds.
pub open spec fn contents(layout: Seq<RegionView>, mem: Seq<AreaView>) -> Map<int, u8> {
    Map::new(
        |a: int| mapped(layout, a),
        |a: int|
            {
                let region = layout[region_at(layout, a)];
                region.mapping.bytes(mem)[a - region.base]
            },
    )
}

/// How many of the `count` guest addresses from `a` on are held by regions without a gap.
pub open spec fn run(layout: Seq<RegionView>, a: int, count: nat) -> nat
    decreases count,
{
    if count == 0 || !mapped(layout, a) {
        0
    } else {
        1 + run(layout, a + 1, (count - 1) as nat)
    }
}

/// Whether no region that an access to `count` bytes at `a` comes to runs past the end of the
/// guest's address space. The access ends with its last byte or at the first address that no region
/// holds, whichever comes first.
pub open spec fn access_bounded(layout: Seq<RegionView>, a: int, count: nat) -> bool {
    let n = run(layout, a, count);
    count > 0 ==> bounded_up_to(
        layout,
        if n < count {
            a + n
        } else {
            a + n - 1
        },
    )
}

/// The bytes of `m` at the `count` addresses from `a` on.
pub open spec fn window(m: Map<int, u8>, a: int, count: nat) -> Seq<u8> {
    Seq::new(count, |i: int| m[a + i])
}

/// `m` with `data` at the addresses from `a` on.
pub open spec fn patched(m: Map<int, u8>, a: int, data: Seq<u8>) -> Map<int, u8> {
    Map::new(
        |k: int| m.contains_key(k),
        |k: int|
            if a <= k < a + data.len() {
                data[k - a]
            } else {
                m[k]
            },
    )
}

/// Whether guest memory of the given layout went from `before` to `after` by a change of what the
/// guest sees to `seen`, and by nothing else: areas of host memory that belong to no region have the
/// bytes that they had, and every area is where it was.
pub open spec fn changed_to(
    layout: Seq<RegionView>,
    before: Seq<AreaView>,
    after: Seq<AreaView>,
    seen: Map<int, u8>,
) -> bool {
    &&& same_areas(before, after)
    &&& contents(layout, after) == seen
    &&& forall|k: int|
        #![trigger after[k]]
        0 <= k < after.len() && (forall|i: int|
            0 <= i < layout.len() ==> (#[trigger] layout[i]).mapping.area != k) ==> after[k]
            == before[k]
}

/// At most one region holds a guest address.
pub(crate) proof fn lemma_one_region(layout: Seq<RegionView>, a: int, i: int)
    requires
        well_formed(layout),
        0 <= i < layout.len(),
        layout[i].covers(a),
    ensures
        mapped(layout, a),
        region_at(layout, a) == i,
{
    let j = region_at(layout, a);
    if j < i {
        assert(layout[j].end() <= layout[i].base);
    } else if i < j {
        assert(layout[i].end() <= layout[j].base);
    }
}

/// What the guest sees at an address is what the host holds in the region there.
pub(crate) proof fn lemma_contents(layout: Seq<RegionView>, mem: Seq<AreaView>, a: int, i: int)
    requires
        well_formed(layout),
        0 <= i < layout.len(),
        layout[i].covers(a),
    ensures
        contents(layout, mem).contains_key(a),
        contents(layout, mem)[a] == layout[i].mapping.bytes(mem)[a - layout[i].base],
{
    lemma_one_region(layout, a, i);
}

/// A run that starts in a region goes on behind the region.
pub(crate) proof fn lemma_run_in_region(layout: Seq<RegionView>, a: int, count: nat, i: int, n: nat)
    requires
        0 <= i < layout.len(),
        layout[i].base <= a,
        n <= count,
        a + n <= layout[i].end(),
    ensures
        run(layout, a, count) == n + run(layout, a + n, (count - n) as nat),
    decreases n,
{
    if n > 0 {
        assert(layout[i].covers(a));
        assert(mapped(layout, a));
        lemma_run_in_region(layout, a + 1, (count - 1) as nat, i, (n - 1) as nat);
    }
}

/// A run is no longer than asked for, and every address of it is held by a region.
pub(crate) proof fn lemma_run(layout: Seq<RegionView>, a: int, count: nat)
    ensures
        run(layout, a, count) <= count,
        forall|k: int| a <= k < a + run(layout, a, count) ==> #[trigger] mapped(layout, k),
        run(layout, a, count) < count ==> !mapped(layout, a + run(layout, a, count)),
    decreases count,
{
    if count > 0 && mapped(layout, a) {
        lemma_run(layout, a + 1, (count - 1) as nat);
    }
}

/// Storing bytes in a region changes what the guest sees at the addresses of these bytes, and
/// nothing else.
pub(crate) proof fn lemma_store(
    layout: Seq<RegionView>,
    mem: Seq<AreaView>,
    i: int,
    a: int,
    data: Seq<u8>,
)
    requires
        well_formed(layout),
        mapped_in(layout, mem),
        0 <= i < layout.len(),
        layout[i].base <= a,
        a + data.len() <= layout[i].end(),
    ensures
        ({
            let after = store(mem, layout[i].mapping.area as int, a - layout[i].base, data);
            &&& changed_to(layout, mem, after, patched(contents(layout, mem), a, data))
            &&& mapped_in(layout, after)
        }),
{
    let after = store(mem, layout[i].mapping.area as int, a - layout[i].base, data);
    let seen = patched(contents(layout, mem), a, data);
    assert(layout[i].mapping.mapped_in(mem));
    assert forall|k: int| mapped(layout, k) implies contents(layout, after)[k] == seen[k] by {
        let j = region_at(layout, k);
        lemma_contents(layout, mem, k, j);
        lemma_contents(layout, after, k, j);
        assert(layout[j].mapping.mapped_in(mem));
        if j < i {
            assert(layout[j].end() <= layout[i].base);
        } else if i < j {
            assert(layout[i].end() <= layout[j].base);
        }
    }
    assert(contents(layout, after) =~= seen);
}

/// Two changes in turn are one change.
pub(crate) proof fn lemma_change_twice(
    layout: Seq<RegionView>,
    first: Seq<AreaView>,
    second: Seq<AreaView>,
    third: Seq<AreaView>,
    seen: Map<int, u8>,
    seen_last: Map<int, u8>,
)
    requires
        changed_to(layout, first, second, seen),
        changed_to(layout, second, third, seen_last),
    ensures
        changed_to(layout, first, third, seen_last),
{
}

/// A region that an access comes to ends within the guest's address space.
pub(crate) proof fn lemma_bounded_on_the_way(
    layout: Seq<RegionView>,
    a: int,
    count: nat,
    done: nat,
)
    requires
        access_bounded(layout, a, count),
        done < count,
        done <= run(layout, a, count),
    ensures
        bounded_up_to(layout, a + done),
{
    lemma_run(layout, a, count);
}

} // verus!
