//! The memory of this process that has been mapped to hold guest memory.
//!
//! Whoever maps an area lends its bytes to a [`HostMemory`]. Regions and slices of guest memory are
//! plain handles: they say where in which area they lie, may be copied freely, and reach the bytes
//! through the [`HostMemory`] that holds the area. While an area is lent, its bytes are taken to
//! change through the [`HostMemory`] alone: what is stated of them leaves out writes by a guest that
//! runs at the same time.
//!
//! What is stored in an area is stored in the memory that was lent for it, and nowhere else: every
//! function that changes a [`HostMemory`] says that the areas still stand for the memory for which
//! they stood before.

use vstd::prelude::*;

verus! {

/// What an area of host memory is: where it starts in this process, and its bytes.
#[verifier::ext_equal]
pub struct AreaView {
    pub addr: usize,
    pub bytes: Seq<u8>,
}

impl AreaView {
    /// Whether the area has no address in common with another.
    pub open spec fn apart_from(self, other: AreaView) -> bool {
        ||| self.addr + self.bytes.len() <= other.addr
        ||| other.addr + other.bytes.len() <= self.addr
    }
}

/// Whether no two areas of `mem` have an address in common.
pub open spec fn areas_apart(mem: Seq<AreaView>) -> bool {
    forall|i: int, j: int|
        #![trigger mem[i], mem[j]]
        0 <= i < j < mem.len() ==> mem[i].apart_from(mem[j])
}

/// `bytes` with `data` in place of what stood at `at`.
pub open spec fn overwrite(bytes: Seq<u8>, at: int, data: Seq<u8>) -> Seq<u8>
    recommends
        0 <= at,
        at + data.len() <= bytes.len(),
{
    bytes.take(at) + data + bytes.skip(at + data.len())
}

/// Host memory `mem` with `data` stored at offset `at` of one of its areas.
pub open spec fn store(mem: Seq<AreaView>, area: int, at: int, data: Seq<u8>) -> Seq<AreaView>
    recommends
        0 <= area < mem.len(),
        0 <= at,
        at + data.len() <= mem[area].bytes.len(),
{
    mem.update(area, AreaView { addr: mem[area].addr, bytes: overwrite(mem[area].bytes, at, data) })
}

/// Whether two states of host memory have the same areas, at the same addresses and of the same
/// lengths.
pub open spec fn same_areas(mem: Seq<AreaView>, other: Seq<AreaView>) -> bool {
    &&& mem.len() == other.len()
    &&& forall|i: int|
        #![trigger mem[i]]
        #![trigger other[i]]
        0 <= i < mem.len() ==> mem[i].addr == other[i].addr && mem[i].bytes.len()
            == other[i].bytes.len()
}

/// An area of this process's memory, lent by whoever mapped it.
pub struct HostArea<'a> {
    /// The address at which the area starts.
    pub addr: usize,
    /// The memory that was lent.
    pub bytes: &'a mut [u8],
}

impl<'a> View for HostArea<'a> {
    type V = AreaView;

    open spec fn view(&self) -> AreaView {
        AreaView { addr: self.addr, bytes: self.bytes@ }
    }
}

impl<'a> HostArea<'a> {
    /// The area of `bytes`, which start at the address `addr` of this process.
    ///
    /// That they start there is the lender's word; nothing here looks at where a slice lies.
    pub fn new(addr: usize, bytes: &'a mut [u8]) -> (area: Self)
        ensures
            area@ == (AreaView { addr, bytes: old(bytes)@ }),
            final(area.bytes)@ == final(bytes)@,
    {
        HostArea { addr, bytes }
    }

    /// The address at which the area starts.
    pub fn addr(&self) -> (addr: usize)
        ensures
            addr == self@.addr,
    {
        self.addr
    }

    /// The number of bytes in the area.
    pub fn len(&self) -> (len: usize)
        ensures
            len == self@.bytes.len(),
    {
        self.bytes.len()
    }
}

/// The areas of this process's memory that hold guest memory.
pub struct HostMemory<'a> {
    /// The areas, in the order in which they came.
    pub areas: Vec<HostArea<'a>>,
}

impl<'a> View for HostMemory<'a> {
    type V = Seq<AreaView>;

    open spec fn view(&self) -> Seq<AreaView> {
        self.areas@.map_values(|area: HostArea<'a>| area@)
    }
}

impl<'a> HostMemory<'a> {
    /// Host memory without any area.
    pub fn new() -> (mem: Self)
        ensures
            mem@ == Seq::<AreaView>::empty(),
            areas_apart(mem@),
    {
        let mem = HostMemory { areas: Vec::new() };
        assert(mem@ =~= Seq::<AreaView>::empty());
        mem
    }

    /// Takes in one more area and returns its number.
    pub fn add_area(&mut self, area: HostArea<'a>) -> (number: usize)
        ensures
            number == old(self)@.len(),
            final(self)@ == old(self)@.push(area@),
            final(self).areas@ == old(self).areas@.push(area),
    {
        let number: usize = self.areas.len();
        self.areas.push(area);
        assert(self@ =~= old(self)@.push(area@));
        number
    }

    /// Gives the areas back to whoever lent them, in the order in which they came.
    pub fn into_areas(self) -> (areas: Vec<HostArea<'a>>)
        ensures
            areas@ == self.areas@,
    {
        self.areas
    }

    /// The bytes of an area.
    pub fn area_bytes(&self, area: usize) -> (bytes: &[u8])
        requires
            area < self@.len(),
        ensures
            bytes@ == self@[area as int].bytes,
    {
        &*self.areas[area].bytes
    }

    /// The bytes of an area, to be changed in place.
    pub fn area_bytes_mut(&mut self, area: usize) -> (bytes: &mut [u8])
        requires
            area < old(self)@.len(),
        ensures
            bytes@ == old(self)@[area as int].bytes,
            final(self)@ == old(self)@.update(
                area as int,
                (AreaView { addr: old(self)@[area as int].addr, bytes: final(bytes)@ }),
            ),
            final(self).areas@.len() == old(self).areas@.len(),
            forall|i: int|
                #![trigger final(self).areas@[i]]
                0 <= i < old(self).areas@.len() ==> final(final(self).areas@[i].bytes)@
                    == final(old(self).areas@[i].bytes)@,
    {
        &mut *self.areas[area].bytes
    }
}

/// When host memory is no longer used, the memory that was lent as an area holds what the area held
/// last.
pub proof fn law_lent_memory_keeps_what_was_stored(mem: HostMemory<'_>, i: int)
    requires
        has_resolved(mem),
        0 <= i < mem@.len(),
    ensures
        final(mem.areas@[i].bytes)@ == mem@[i].bytes,
{
}

/// Copies `count` bytes of `src`, from offset `from` on, over those of `dst` at offset `at`.
pub fn copy_bytes(dst: &mut [u8], at: usize, src: &[u8], from: usize, count: usize)
    requires
        at + count <= old(dst)@.len(),
        from + count <= src@.len(),
    ensures
        final(dst)@ == overwrite(old(dst)@, at as int, src@.subrange(from as int, from + count)),
{
    let ghost before = dst@;
    assert(at + count <= dst.len() && from + count <= src.len());
    let mut done: usize = 0;
    while done < count
        invariant
            done <= count,
            at + count <= before.len() <= usize::MAX,
            from + count <= src@.len() <= usize::MAX,
            dst@ == overwrite(before, at as int, src@.subrange(from as int, from + done)),
        decreases count - done,
    {
        let byte: u8 = src[from + done];
        dst[at + done] = byte;
        done = done + 1;
        assert(dst@ =~= overwrite(before, at as int, src@.subrange(from as int, from + done)));
    }
}

} // verus!
