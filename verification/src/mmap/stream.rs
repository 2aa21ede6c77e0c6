//! Transfers between guest memory and functions that give or take bytes.

use crate::address::GuestAddress;
use crate::guest_memory::{
    access_bounded, changed_to, contents, mapped, mapped_in, patched, region_at, window, Error,
    RegionView,
};
use crate::host_memory::{AreaView, HostMemory};
use crate::mmap::memory::GuestMemoryMmap;
use crate::mmap::transfer::{reached, sink_done, sink_took, source_done, source_gave};
use crate::ports::{ByteSource, SinkFn, SourceFn};
use crate::volatile_memory::{reads_up_to, replies};
use vstd::prelude::*;

verus! {

/// How many bytes one step of a transfer at `a` is for, when `left` are still to go: those up to the
/// end of the region.
pub open spec fn step_len(layout: Seq<RegionView>, a: int, left: int) -> int {
    let room = layout[region_at(layout, a)].end() - a;
    if left <= room {
        left
    } else {
        room
    }
}

/// The bytes of the pieces, one after the other.
pub open spec fn joined(pieces: Seq<Vec<u8>>) -> Seq<u8>
    decreases pieces.len(),
{
    if pieces.len() == 0 {
        Seq::empty()
    } else {
        joined(pieces.drop_last()) + pieces.last()@
    }
}

/// Whether `src` can give `pieces` to the steps of a transfer of `count` bytes to `a`. No piece is
/// empty.
pub open spec fn given<F>(
    src: F,
    layout: Seq<RegionView>,
    a: int,
    count: int,
    pieces: Seq<Vec<u8>>,
) -> bool where F: FnOnce(usize) -> Result<Vec<u8>, std::io::Error>
    decreases pieces.len(),
{
    pieces.len() > 0 ==> {
        let done = joined(pieces.drop_last()).len();
        &&& given(src, layout, a, count, pieces.drop_last())
        &&& done < count
        &&& mapped(layout, a + done)
        &&& pieces.last()@.len() > 0
        &&& call_ensures(
            src,
            (step_len(layout, a + done, count - done) as usize,),
            Ok(pieces.last()),
        )
    }
}

/// Whether a transfer of `count` bytes from `src` to `addr` can come to `read` when `n` bytes have
/// been stored.
pub open spec fn read_result<F>(
    src: F,
    layout: Seq<RegionView>,
    addr: GuestAddress,
    count: int,
    n: int,
    read: Result<usize, Error>,
) -> bool where F: FnOnce(usize) -> Result<Vec<u8>, std::io::Error> {
    let at = addr.0 + n;
    let ask = step_len(layout, at, count - n) as usize;
    let ended = n == count || !mapped(layout, at) || exists|piece: Vec<u8>|
        piece@.len() == 0 && #[trigger] call_ensures(src, (ask,), Ok(piece));
    match read {
        Ok(k) => k == n && 0 < n <= count && ended,
        Err(Error::InvalidGuestAddress(bad)) => bad == addr && n == 0 && ended,
        Err(Error::IOError(e)) => {
            &&& 0 <= n < count
            &&& mapped(layout, at)
            &&& call_ensures(src, (ask,), Err(e))
        },
        Err(_) => false,
    }
}

/// Whether a transfer of `count` bytes from `src` to `addr` can come to `read` by way of `pieces`,
/// and takes host memory from `before` to `after`: the bytes of the pieces are stored, and nothing
/// else changes.
pub open spec fn read_done<F>(
    src: F,
    layout: Seq<RegionView>,
    before: Seq<AreaView>,
    after: Seq<AreaView>,
    addr: GuestAddress,
    count: int,
    pieces: Seq<Vec<u8>>,
    read: Result<usize, Error>,
) -> bool where F: FnOnce(usize) -> Result<Vec<u8>, std::io::Error> {
    &&& given(src, layout, addr.0 as int, count, pieces)
    &&& read_result(src, layout, addr, count, joined(pieces).len() as int, read)
    &&& changed_to(
        layout,
        before,
        after,
        patched(contents(layout, before), addr.0 as int, joined(pieces)),
    )
}

/// Whether `dst` can be called with any bytes, and takes at most all of them.
pub open spec fn takes_up_to_all<F>(dst: F) -> bool where
    F: FnOnce(&[u8]) -> Result<usize, std::io::Error>,
 {
    &&& forall|out: &[u8]| #[trigger] call_requires(dst, (out,))
    &&& forall|out: &[u8], n: usize| #[trigger]
        call_ensures(dst, (out,), Ok(n)) ==> n <= out@.len()
}

/// The sum of the numbers.
pub open spec fn sum(numbers: Seq<usize>) -> nat
    decreases numbers.len(),
{
    if numbers.len() == 0 {
        0
    } else {
        sum(numbers.drop_last()) + numbers.last() as nat
    }
}

/// Whether `dst` can take as many bytes as `taken` says in the steps of a transfer of the `count`
/// bytes at `a` of `seen`. In no step does it take none.
pub open spec fn took<F>(
    dst: F,
    layout: Seq<RegionView>,
    seen: Map<int, u8>,
    a: int,
    count: int,
    taken: Seq<usize>,
) -> bool where F: FnOnce(&[u8]) -> Result<usize, std::io::Error>
    decreases taken.len(),
{
    taken.len() > 0 ==> {
        let done = sum(taken.drop_last());
        &&& took(dst, layout, seen, a, count, taken.drop_last())
        &&& done < count
        &&& mapped(layout, a + done)
        &&& taken.last() > 0
        &&& replies(
            dst,
            window(seen, a + done, step_len(layout, a + done, count - done) as nat),
            Ok(taken.last()),
        )
    }
}

/// Whether a transfer of the `count` bytes at `addr` to `dst` can come to `written` when `n` bytes
/// have been taken.
pub open spec fn write_result<F>(
    dst: F,
    layout: Seq<RegionView>,
    seen: Map<int, u8>,
    addr: GuestAddress,
    count: int,
    n: int,
    written: Result<usize, Error>,
) -> bool where F: FnOnce(&[u8]) -> Result<usize, std::io::Error> {
    let at = addr.0 + n;
    let data = window(seen, at, step_len(layout, at, count - n) as nat);
    let ended = n == count || !mapped(layout, at) || replies(dst, data, Ok(0usize));
    match written {
        Ok(k) => k == n && 0 < n <= count && ended,
        Err(Error::InvalidGuestAddress(bad)) => bad == addr && n == 0 && ended,
        Err(Error::IOError(e)) => {
            &&& 0 <= n < count
            &&& mapped(layout, at)
            &&& replies(dst, data, Err::<usize, _>(e))
        },
        Err(_) => false,
    }
}

/// Whether a transfer of the `count` bytes at `addr` to `dst` can come to `written` by way of steps
/// in which `dst` takes as many bytes as `taken` says.
pub open spec fn write_done<F>(
    dst: F,
    layout: Seq<RegionView>,
    mem: Seq<AreaView>,
    addr: GuestAddress,
    count: int,
    taken: Seq<usize>,
    written: Result<usize, Error>,
) -> bool where F: FnOnce(&[u8]) -> Result<usize, std::io::Error> {
    let seen = contents(layout, mem);
    &&& took(dst, layout, seen, addr.0 as int, count, taken)
    &&& write_result(dst, layout, seen, addr, count, sum(taken) as int, written)
}

/// What a transfer that must move `count` bytes comes to, when it came to `moved` bytes.
pub open spec fn all_or_error(count: usize, moved: Result<usize, Error>) -> Result<(), Error> {
    match moved {
        Err(e) => Err(e),
        Ok(n) => if n == count {
            Ok(())
        } else {
            Err(Error::PartialBuffer { expected: count, completed: n })
        },
    }
}

/// What a function gives as a source is what it gives.
proof fn lemma_function_gave<F>(
    src: SourceFn<F>,
    states: Seq<SourceFn<F>>,
    layout: Seq<RegionView>,
    a: int,
    count: int,
    pieces: Seq<Vec<u8>>,
) where F: FnMut(usize) -> Result<Vec<u8>, std::io::Error>
    requires
        source_gave(src, states, layout, a, count, pieces),
    ensures
        given(src.f, layout, a, count, pieces),
        reached(src, states) == src,
    decreases pieces.len(),
{
    if pieces.len() > 0 {
        lemma_function_gave(src, states.drop_last(), layout, a, count, pieces.drop_last());
    }
}

/// What a function takes as a sink is what it takes.
proof fn lemma_function_took<F>(
    dst: SinkFn<F>,
    states: Seq<SinkFn<F>>,
    layout: Seq<RegionView>,
    seen: Map<int, u8>,
    a: int,
    count: int,
    taken: Seq<usize>,
) where F: FnMut(&[u8]) -> Result<usize, std::io::Error>
    requires
        sink_took(dst, states, layout, seen, a, count, taken),
    ensures
        took(dst.f, layout, seen, a, count, taken),
        reached(dst, states) == dst,
    decreases taken.len(),
{
    if taken.len() > 0 {
        lemma_function_took(dst, states.drop_last(), layout, seen, a, count, taken.drop_last());
    }
}

impl GuestMemoryMmap {
    /// Stores at `addr` up to `count` bytes that `src` gives, and returns how many they are. `src`
    /// is asked for at most as many bytes as it is called with, until they are all there, it gives
    /// none, it fails, or no region holds the next address.
    pub fn read_from<F>(
        &self,
        mem: &mut HostMemory<'_>,
        addr: GuestAddress,
        src: F,
        count: usize,
    ) -> (read: Result<usize, Error>) where F: FnMut(usize) -> Result<Vec<u8>, std::io::Error>
        requires
            mapped_in(self@, old(mem)@),
            access_bounded(self@, addr.0 as int, count as nat),
            forall|n: usize| n <= count ==> #[trigger] reads_up_to(src, n),
        ensures
            exists|pieces: Seq<Vec<u8>>| #[trigger]
                read_done(
                    src,
                    self@,
                    old(mem)@,
                    final(mem)@,
                    addr,
                    count as int,
                    pieces,
                    read,
                ),
            mapped_in(self@, final(mem)@),
            final(mem).areas@.len() == old(mem).areas@.len(),
            forall|i: int|
                #![trigger final(mem).areas@[i]]
                0 <= i < old(mem).areas@.len() ==> final(final(mem).areas@[i].bytes)@
                    == final(old(mem).areas@[i].bytes)@,
    {
        let ghost f = src;
        let mut source = SourceFn { f: src };
        assert forall|n: usize| n <= count implies #[trigger] source.readable(n) by {
            assert(reads_up_to(f, n));
        }
        let read = self.read_from_source(mem, addr, &mut source, count);
        proof {
            let first = SourceFn { f };
            let (states, pieces) = choose|states: Seq<SourceFn<F>>, pieces: Seq<Vec<u8>>| #[trigger]
                source_done(
                    first,
                    source,
                    self@,
                    old(mem)@,
                    mem@,
                    addr,
                    count as int,
                    states,
                    pieces,
                    read,
                );
            lemma_function_gave(first, states, self@, addr.0 as int, count as int, pieces);
            assert(read_done(f, self@, old(mem)@, mem@, addr, count as int, pieces, read));
        }
        read
    }

    /// Stores at `addr` the `count` bytes that `src` gives. Where there are fewer, these are stored,
    /// and the error says how many they are.
    pub fn read_exact_from<F>(
        &self,
        mem: &mut HostMemory<'_>,
        addr: GuestAddress,
        src: F,
        count: usize,
    ) -> (read: Result<(), Error>) where F: FnMut(usize) -> Result<Vec<u8>, std::io::Error>
        requires
            mapped_in(self@, old(mem)@),
            access_bounded(self@, addr.0 as int, count as nat),
            forall|n: usize| n <= count ==> #[trigger] reads_up_to(src, n),
        ensures
            exists|pieces: Seq<Vec<u8>>, moved: Result<usize, Error>| #[trigger]
                read_done(
                    src,
                    self@,
                    old(mem)@,
                    final(mem)@,
                    addr,
                    count as int,
                    pieces,
                    moved,
                ) && read == all_or_error(count, moved),
            mapped_in(self@, final(mem)@),
            final(mem).areas@.len() == old(mem).areas@.len(),
            forall|i: int|
                #![trigger final(mem).areas@[i]]
                0 <= i < old(mem).areas@.len() ==> final(final(mem).areas@[i].bytes)@
                    == final(old(mem).areas@[i].bytes)@,
    {
        let moved = self.read_from(mem, addr, src, count);
        match moved {
            Err(e) => Err(e),
            Ok(completed) => {
                if completed != count {
                    return Err(Error::PartialBuffer { expected: count, completed });
                }
                Ok(())
            },
        }
    }

    /// Hands up to `count` bytes from `addr` on to `dst`, and returns how many it took. `dst` gets
    /// the rest again until it has taken all, takes none, fails, or no region holds the next
    /// address.
    pub fn write_to<F>(
        &self,
        mem: &HostMemory<'_>,
        addr: GuestAddress,
        dst: F,
        count: usize,
    ) -> (written: Result<usize, Error>) where F: FnMut(&[u8]) -> Result<usize, std::io::Error>
        requires
            mapped_in(self@, mem@),
            access_bounded(self@, addr.0 as int, count as nat),
            takes_up_to_all(dst),
        ensures
            exists|taken: Seq<usize>| #[trigger]
                write_done(
                    dst,
                    self@,
                    mem@,
                    addr,
                    count as int,
                    taken,
                    written,
                ),
    {
        let ghost f = dst;
        let mut sink = SinkFn { f: dst };
        let written = self.write_to_sink(mem, addr, &mut sink, count);
        proof {
            let first = SinkFn { f };
            let (states, taken) = choose|states: Seq<SinkFn<F>>, taken: Seq<usize>| #[trigger]
                sink_done(
                    first,
                    sink,
                    self@,
                    mem@,
                    addr,
                    count as int,
                    states,
                    taken,
                    written,
                );
            lemma_function_took(
                first,
                states,
                self@,
                contents(self@, mem@),
                addr.0 as int,
                count as int,
                taken,
            );
            assert(write_done(f, self@, mem@, addr, count as int, taken, written));
        }
        written
    }

    /// Hands the `count` bytes from `addr` on to `dst`. Where it takes fewer, the error says how
    /// many.
    pub fn write_all_to<F>(
        &self,
        mem: &HostMemory<'_>,
        addr: GuestAddress,
        dst: F,
        count: usize,
    ) -> (written: Result<(), Error>) where F: FnMut(&[u8]) -> Result<usize, std::io::Error>
        requires
            mapped_in(self@, mem@),
            access_bounded(self@, addr.0 as int, count as nat),
            takes_up_to_all(dst),
        ensures
            exists|taken: Seq<usize>, moved: Result<usize, Error>| #[trigger]
                write_done(
                    dst,
                    self@,
                    mem@,
                    addr,
                    count as int,
                    taken,
                    moved,
                ) && written == all_or_error(count, moved),
    {
        let moved = self.write_to(mem, addr, dst, count);
        match moved {
            Err(e) => Err(e),
            Ok(completed) => {
                if completed != count {
                    return Err(Error::PartialBuffer { expected: count, completed });
                }
                Ok(())
            },
        }
    }
}

} // verus!
