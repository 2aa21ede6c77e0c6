//! Transfers between guest memory and a source or a sink that is changed by them.
//!
//! A transfer goes region by region. In each region the source or sink is asked once for all bytes
//! that are to go there, and again for the rest as long as it takes or gives some.

use crate::address::{GuestAddress, GuestUsize};
use crate::guest_memory::{
    access_bounded, changed_to, contents, lemma_bounded_on_the_way, lemma_change_twice,
    lemma_contents, lemma_run, lemma_run_in_region, lemma_store, mapped, mapped_in, patched,
    region_at, run, well_formed, window, Error, RegionView,
};
use crate::host_memory::{AreaView, HostMemory};
use crate::mmap::memory::GuestMemoryMmap;
use crate::mmap::stream::{all_or_error, joined, step_len, sum};
use crate::ports::{is_record, is_stream, ByteSink, ByteSource};
use std::ops::Deref;
use vstd::prelude::*;

verus! {

/// The last of the states, or the first one where there is no other.
pub open spec fn reached<S>(first: S, states: Seq<S>) -> S {
    if states.len() == 0 {
        first
    } else {
        states.last()
    }
}

/// Whether `src` can give `pieces` to the steps of a transfer of `count` bytes to `a`, and go
/// through `states` by that. No piece is empty.
pub open spec fn source_gave<S: ByteSource>(
    src: S,
    states: Seq<S>,
    layout: Seq<RegionView>,
    a: int,
    count: int,
    pieces: Seq<Vec<u8>>,
) -> bool
    decreases pieces.len(),
{
    &&& states.len() == pieces.len()
    &&& pieces.len() > 0 ==> {
        let done = joined(pieces.drop_last()).len();
        let ask = step_len(layout, a + done, count - done);
        &&& source_gave(src, states.drop_last(), layout, a, count, pieces.drop_last())
        &&& done < count
        &&& mapped(layout, a + done)
        &&& 0 < pieces.last()@.len() <= ask
        &&& reached(src, states.drop_last()).gives(
            ask as usize,
            Ok(pieces.last()),
            &states.last(),
        )
    }
}

/// Whether a transfer of `count` bytes to `addr` from a source that is `now` can come to `read`, and
/// leave the source as `last`, when `n` bytes have been stored.
pub open spec fn source_result<S: ByteSource>(
    now: S,
    last: S,
    layout: Seq<RegionView>,
    addr: GuestAddress,
    count: int,
    n: int,
    read: Result<usize, Error>,
) -> bool {
    let at = addr.0 + n;
    let ask = step_len(layout, at, count - n) as usize;
    let ended = if n == count || !mapped(layout, at) {
        last == now
    } else {
        exists|piece: Vec<u8>| piece@.len() == 0 && #[trigger] now.gives(ask, Ok(piece), &last)
    };
    match read {
        Ok(k) => k == n && 0 < n <= count && ended,
        Err(Error::InvalidGuestAddress(bad)) => bad == addr && n == 0 && ended,
        Err(Error::IOError(e)) => {
            &&& 0 <= n < count
            &&& mapped(layout, at)
            &&& now.gives(ask, Err(e), &last)
        },
        Err(_) => false,
    }
}

/// Whether a transfer of `count` bytes to `addr` can come to `read`, take the source from `src` to
/// `last` by way of `states`, in which it gives `pieces`, and host memory from `before` to `after`:
/// the bytes of the pieces are stored, and nothing else changes.
pub open spec fn source_done<S: ByteSource>(
    src: S,
    last: S,
    layout: Seq<RegionView>,
    before: Seq<AreaView>,
    after: Seq<AreaView>,
    addr: GuestAddress,
    count: int,
    states: Seq<S>,
    pieces: Seq<Vec<u8>>,
    read: Result<usize, Error>,
) -> bool {
    &&& source_gave(src, states, layout, addr.0 as int, count, pieces)
    &&& source_result(
        reached(src, states),
        last,
        layout,
        addr,
        count,
        joined(pieces).len() as int,
        read,
    )
    &&& changed_to(
        layout,
        before,
        after,
        patched(contents(layout, before), addr.0 as int, joined(pieces)),
    )
}

/// Whether `dst` can take as many bytes as `taken` says in the steps of a transfer of the `count`
/// bytes at `a` of `seen`, and go through `states` by that. In no step does it take none.
pub open spec fn sink_took<S: ByteSink>(
    dst: S,
    states: Seq<S>,
    layout: Seq<RegionView>,
    seen: Map<int, u8>,
    a: int,
    count: int,
    taken: Seq<usize>,
) -> bool
    decreases taken.len(),
{
    &&& states.len() == taken.len()
    &&& taken.len() > 0 ==> {
        let done = sum(taken.drop_last());
        let offer = step_len(layout, a + done, count - done);
        &&& sink_took(dst, states.drop_last(), layout, seen, a, count, taken.drop_last())
        &&& done < count
        &&& mapped(layout, a + done)
        &&& 0 < taken.last() <= offer
        &&& reached(dst, states.drop_last()).takes(
            window(seen, a + done, offer as nat),
            Ok(taken.last()),
            &states.last(),
        )
    }
}

/// Whether a transfer of the `count` bytes at `addr` to a sink that is `now` can come to `written`,
/// and leave the sink as `last`, when `n` bytes have been taken.
pub open spec fn sink_result<S: ByteSink>(
    now: S,
    last: S,
    layout: Seq<RegionView>,
    seen: Map<int, u8>,
    addr: GuestAddress,
    count: int,
    n: int,
    written: Result<usize, Error>,
) -> bool {
    let at = addr.0 + n;
    let data = window(seen, at, step_len(layout, at, count - n) as nat);
    let ended = if n == count || !mapped(layout, at) {
        last == now
    } else {
        now.takes(data, Ok(0usize), &last)
    };
    match written {
        Ok(k) => k == n && 0 < n <= count && ended,
        Err(Error::InvalidGuestAddress(bad)) => bad == addr && n == 0 && ended,
        Err(Error::IOError(e)) => {
            &&& 0 <= n < count
            &&& mapped(layout, at)
            &&& now.takes(data, Err(e), &last)
        },
        Err(_) => false,
    }
}

/// Whether a transfer of the `count` bytes at `addr` can come to `written`, and take the sink from
/// `dst` to `last` by way of `states`, in which it takes as many bytes as `taken` says.
pub open spec fn sink_done<S: ByteSink>(
    dst: S,
    last: S,
    layout: Seq<RegionView>,
    mem: Seq<AreaView>,
    addr: GuestAddress,
    count: int,
    states: Seq<S>,
    taken: Seq<usize>,
    written: Result<usize, Error>,
) -> bool {
    let seen = contents(layout, mem);
    &&& sink_took(dst, states, layout, seen, addr.0 as int, count, taken)
    &&& sink_result(
        reached(dst, states),
        last,
        layout,
        seen,
        addr,
        count,
        sum(taken) as int,
        written,
    )
}

/// What a source had is what it gave in the steps of a transfer, and what it has then.
proof fn lemma_stream<S: ByteSource>(
    src: S,
    states: Seq<S>,
    layout: Seq<RegionView>,
    a: int,
    count: int,
    pieces: Seq<Vec<u8>>,
    rest: spec_fn(S) -> Seq<u8>,
)
    requires
        source_gave(src, states, layout, a, count, pieces),
        is_stream(rest),
    ensures
        rest(src) == joined(pieces) + rest(reached(src, states)),
    decreases pieces.len(),
{
    if pieces.len() == 0 {
        assert(rest(src) =~= joined(pieces) + rest(src));
    } else {
        lemma_stream(
            src,
            states.drop_last(),
            layout,
            a,
            count,
            pieces.drop_last(),
            rest,
        );
        let before = reached(src, states.drop_last());
        assert(rest(before) == pieces.last()@ + rest(states.last()));
        assert(rest(src) =~= joined(pieces) + rest(states.last()));
    }
}

/// A transfer into guest memory takes the bytes of a stream off its front, one after the other, and
/// stores every one that it takes: what the guest sees at the address afterwards, followed by what
/// the stream still has, is what the stream had. As many bytes are gone from the stream as the
/// result says.
pub proof fn law_stream_is_stored_in_order<S: ByteSource>(
    src: S,
    last: S,
    layout: Seq<RegionView>,
    before: Seq<AreaView>,
    after: Seq<AreaView>,
    addr: GuestAddress,
    count: int,
    states: Seq<S>,
    pieces: Seq<Vec<u8>>,
    read: Result<usize, Error>,
    rest: spec_fn(S) -> Seq<u8>,
)
    requires
        source_done(src, last, layout, before, after, addr, count, states, pieces, read),
        is_stream(rest),
    ensures
        ({
            let n = rest(src).len() - rest(last).len();
            &&& 0 <= n <= count || n == 0
            &&& rest(last) == rest(src).skip(n)
            &&& changed_to(
                layout,
                before,
                after,
                patched(contents(layout, before), addr.0 as int, rest(src).take(n)),
            )
            &&& forall|k: int|
                0 <= k < n ==> mapped(layout, addr.0 + k) && #[trigger] contents(layout, after)[addr.0
                    + k] == rest(src)[k]
            &&& read matches Ok(moved) ==> 0 < moved == n
            &&& read matches Err(Error::InvalidGuestAddress(bad)) ==> n == 0 && bad == addr
        }),
{
    lemma_stream(src, states, layout, addr.0 as int, count, pieces, rest);
    lemma_pieces_lie_in_regions(src, states, layout, addr.0 as int, count, pieces);
    let now = reached(src, states);
    let data = joined(pieces);
    assert(rest(now) == rest(last)) by {
        let at = addr.0 + data.len();
        let ask = step_len(layout, at, count - data.len()) as usize;
        if !(read matches Err(Error::IOError(_))) && data.len() != count && mapped(layout, at) {
            let piece = choose|piece: Vec<u8>|
                piece@.len() == 0 && #[trigger] now.gives(ask, Ok(piece), &last);
            assert(rest(now) == piece@ + rest(last));
            assert(piece@ + rest(last) =~= rest(last));
        }
    }
    let n = rest(src).len() - rest(last).len();
    assert(n == data.len());
    assert(rest(src).take(n) =~= data);
    assert(rest(last) =~= rest(src).skip(n));
    assert forall|k: int| 0 <= k < n implies mapped(layout, addr.0 + k) && #[trigger] contents(
        layout,
        after,
    )[addr.0 + k] == rest(src)[k] by {
        assert(mapped(layout, addr.0 + k));
        assert(rest(src)[k] == data[k]);
    }
}

/// The pieces that a source gives to a transfer go to addresses that regions hold.
proof fn lemma_pieces_lie_in_regions<S: ByteSource>(
    src: S,
    states: Seq<S>,
    layout: Seq<RegionView>,
    a: int,
    count: int,
    pieces: Seq<Vec<u8>>,
)
    requires
        source_gave(src, states, layout, a, count, pieces),
    ensures
        joined(pieces).len() <= count || pieces.len() == 0,
        forall|k: int| a <= k < a + joined(pieces).len() ==> #[trigger] mapped(layout, k),
    decreases pieces.len(),
{
    if pieces.len() > 0 {
        let done = joined(pieces.drop_last()).len();
        lemma_pieces_lie_in_regions(
            src,
            states.drop_last(),
            layout,
            a,
            count,
            pieces.drop_last(),
        );
        let i = region_at(layout, a + done);
        assert(layout[i].covers(a + done));
        assert forall|k: int| a <= k < a + joined(pieces).len() implies #[trigger] mapped(
            layout,
            k,
        ) by {
            if k >= a + done {
                assert(layout[i].covers(k));
            }
        }
    }
}

/// A transfer into guest memory from a stream that does not fail, and is at its end where it gives
/// nothing, moves all that it can: as many bytes as asked for, as the stream has, and as the regions
/// hold from the address on without a gap, whichever is least. Only where that is none is there an
/// error.
pub proof fn law_stream_is_stored_in_full<S: ByteSource>(
    src: S,
    last: S,
    layout: Seq<RegionView>,
    before: Seq<AreaView>,
    after: Seq<AreaView>,
    addr: GuestAddress,
    count: nat,
    states: Seq<S>,
    pieces: Seq<Vec<u8>>,
    read: Result<usize, Error>,
    rest: spec_fn(S) -> Seq<u8>,
)
    requires
        source_done(src, last, layout, before, after, addr, count as int, states, pieces, read),
        is_stream(rest),
        forall|s: S, n: usize, reply: Result<Vec<u8>, std::io::Error>, t: S| #[trigger]
            s.gives(n, reply, &t) ==> reply is Ok,
        forall|s: S, n: usize, data: Vec<u8>, t: S| #[trigger]
            s.gives(n, Ok(data), &t) && data@.len() == 0 && n > 0 ==> rest(s).len() == 0,
        count <= usize::MAX,
    ensures
        read matches Ok(n) ==> {
            &&& 0 < n <= count
            &&& n <= rest(src).len()
            &&& forall|k: int| addr.0 <= k < addr.0 + n ==> #[trigger] mapped(layout, k)
            &&& n == count || n == rest(src).len() || !mapped(layout, addr.0 + n)
        },
        read is Err ==> {
            &&& read == Err::<usize, Error>(Error::InvalidGuestAddress(addr))
            &&& count == 0 || rest(src).len() == 0 || !mapped(layout, addr.0 as int)
        },
        count > 0 && rest(src).len() > 0 && mapped(layout, addr.0 as int) ==> read is Ok,
{
    law_stream_is_stored_in_order(
        src,
        last,
        layout,
        before,
        after,
        addr,
        count as int,
        states,
        pieces,
        read,
        rest,
    );
    lemma_stream(src, states, layout, addr.0 as int, count as int, pieces, rest);
    lemma_pieces_lie_in_regions(src, states, layout, addr.0 as int, count as int, pieces);
    let now = reached(src, states);
    let data = joined(pieces);
    let at = addr.0 + data.len();
    let ask = step_len(layout, at, count - data.len()) as usize;
    if data.len() != count && mapped(layout, at) {
        assert(layout[region_at(layout, at)].covers(at));
        if !(read matches Err(Error::IOError(_))) {
            let piece = choose|piece: Vec<u8>|
                piece@.len() == 0 && #[trigger] now.gives(ask, Ok(piece), &last);
            assert(now.gives(ask, Ok(piece), &last));
            assert(0 < step_len(layout, at, count - data.len()) <= usize::MAX);
            assert(rest(now).len() == 0);
        }
    }
    assert(rest(src).len() == data.len() + rest(now).len());
}

/// What a sink holds after the steps of a transfer is what it held, and the bytes that it took.
proof fn lemma_record<S: ByteSink>(
    dst: S,
    states: Seq<S>,
    layout: Seq<RegionView>,
    seen: Map<int, u8>,
    a: int,
    count: int,
    taken: Seq<usize>,
    held: spec_fn(S) -> Seq<u8>,
)
    requires
        sink_took(dst, states, layout, seen, a, count, taken),
        is_record(held),
    ensures
        held(reached(dst, states)) == held(dst) + window(seen, a, sum(taken)),
        sum(taken) <= count || taken.len() == 0,
        forall|k: int| a <= k < a + sum(taken) ==> #[trigger] mapped(layout, k),
    decreases taken.len(),
{
    if taken.len() == 0 {
        assert(held(dst) =~= held(dst) + window(seen, a, 0));
    } else {
        let done = sum(taken.drop_last());
        lemma_record(
            dst,
            states.drop_last(),
            layout,
            seen,
            a,
            count,
            taken.drop_last(),
            held,
        );
        let offer = step_len(layout, a + done, count - done);
        let i = region_at(layout, a + done);
        let data = window(seen, a + done, offer as nat);
        let before = reached(dst, states.drop_last());
        assert(layout[i].covers(a + done));
        assert(held(states.last()) == held(before) + data.take(taken.last() as int));
        assert(held(states.last()) =~= held(dst) + window(seen, a, sum(taken)));
        assert forall|k: int| a <= k < a + sum(taken) implies #[trigger] mapped(layout, k) by {
            if k >= a + done {
                assert(layout[i].covers(k));
            }
        }
    }
}

/// A transfer out of guest memory adds to what the sink holds the bytes that the guest sees from the
/// address on, each once and in order, and as many as the result says.
pub proof fn law_sink_gets_the_bytes_in_order<S: ByteSink>(
    dst: S,
    last: S,
    layout: Seq<RegionView>,
    mem: Seq<AreaView>,
    addr: GuestAddress,
    count: int,
    states: Seq<S>,
    taken: Seq<usize>,
    written: Result<usize, Error>,
    held: spec_fn(S) -> Seq<u8>,
)
    requires
        sink_done(dst, last, layout, mem, addr, count, states, taken, written),
        is_record(held),
    ensures
        ({
            let n = held(last).len() - held(dst).len();
            &&& 0 <= n <= count || n == 0
            &&& held(last).take(held(dst).len() as int) == held(dst)
            &&& forall|k: int|
                0 <= k < n ==> mapped(layout, addr.0 + k) && held(last)[held(dst).len() + k]
                    == #[trigger] contents(layout, mem)[addr.0 + k]
            &&& written matches Ok(moved) ==> 0 < moved == n
            &&& written matches Err(Error::InvalidGuestAddress(bad)) ==> n == 0 && bad == addr
        }),
{
    let seen = contents(layout, mem);
    let now = reached(dst, states);
    lemma_record(dst, states, layout, seen, addr.0 as int, count, taken, held);
    let total = sum(taken);
    let at = addr.0 + total;
    let data = window(seen, at, step_len(layout, at, count - total) as nat);
    assert(held(last) == held(now)) by {
        if !(written matches Err(Error::IOError(_))) && total != count && mapped(layout, at) {
            assert(layout[region_at(layout, at)].covers(at));
            assert(held(last) == held(now) + data.take(0));
            assert(held(now) + data.take(0) =~= held(now));
        }
    }
    assert(held(last) == held(dst) + window(seen, addr.0 as int, total));
    assert(held(last).take(held(dst).len() as int) =~= held(dst));
    assert forall|k: int| 0 <= k < total implies mapped(layout, addr.0 + k) && held(last)[held(
        dst,
    ).len() + k] == #[trigger] seen[addr.0 + k] by {
        assert(mapped(layout, addr.0 + k));
    }
}

/// A transfer out of guest memory to a sink that does not fail, and takes some of what it is offered,
/// moves all that it can: as many bytes as asked for, or as the regions hold from the address on
/// without a gap. Only where that is none is there an error.
pub proof fn law_sink_gets_all_the_bytes<S: ByteSink>(
    dst: S,
    last: S,
    layout: Seq<RegionView>,
    mem: Seq<AreaView>,
    addr: GuestAddress,
    count: nat,
    states: Seq<S>,
    taken: Seq<usize>,
    written: Result<usize, Error>,
    held: spec_fn(S) -> Seq<u8>,
)
    requires
        sink_done(dst, last, layout, mem, addr, count as int, states, taken, written),
        is_record(held),
        forall|s: S, data: Seq<u8>, reply: Result<usize, std::io::Error>, t: S| #[trigger]
            s.takes(data, reply, &t) ==> reply is Ok,
        forall|s: S, data: Seq<u8>, n: usize, t: S| #[trigger]
            s.takes(data, Ok(n), &t) && data.len() > 0 ==> n > 0,
    ensures
        written matches Ok(n) ==> {
            &&& 0 < n <= count
            &&& forall|k: int| addr.0 <= k < addr.0 + n ==> #[trigger] mapped(layout, k)
            &&& n == count || !mapped(layout, addr.0 + n)
        },
        written is Err ==> {
            &&& written == Err::<usize, Error>(Error::InvalidGuestAddress(addr))
            &&& count == 0 || !mapped(layout, addr.0 as int)
        },
        count > 0 && mapped(layout, addr.0 as int) ==> written is Ok,
{
    let seen = contents(layout, mem);
    lemma_record(dst, states, layout, seen, addr.0 as int, count as int, taken, held);
    let total = sum(taken);
    let at = addr.0 + total;
    let data = window(seen, at, step_len(layout, at, count - total) as nat);
    if total != count && mapped(layout, at) {
        assert(layout[region_at(layout, at)].covers(at));
        assert(data.len() > 0);
    }
}

impl GuestMemoryMmap {
    /// Takes bytes from `src` and stores them at `addr`, step by step.
    fn fill<S: ByteSource>(
        &self,
        mem: &mut HostMemory<'_>,
        addr: GuestAddress,
        src: &mut S,
        count: usize,
    ) -> (read: Result<usize, Error>)
        requires
            mapped_in(self@, old(mem)@),
            access_bounded(self@, addr.0 as int, count as nat),
            forall|n: usize| n <= count ==> #[trigger] old(src).readable(n),
        ensures
            exists|states: Seq<S>, pieces: Seq<Vec<u8>>| #[trigger]
                source_done(
                    *old(src),
                    *final(src),
                    self@,
                    old(mem)@,
                    final(mem)@,
                    addr,
                    count as int,
                    states,
                    pieces,
                    read,
                ),
            mapped_in(self@, final(mem)@),
            final(mem).areas@.len() == old(mem).areas@.len(),
            forall|i: int|
                #![trigger final(mem).areas@[i]]
                0 <= i < old(mem).areas@.len() ==> final(final(mem).areas@[i].bytes)@
                    == final(old(mem).areas@[i].bytes)@,
    {
        proof {
            use_type_invariant(self);
        }
        let ghost layout = self@;
        let ghost a = addr.0 as int;
        let ghost before = mem@;
        let ghost seen = contents(layout, before);
        let ghost mut pieces = Seq::<Vec<u8>>::empty();
        let ghost mut states = Seq::<S>::empty();
        let mut cur = addr;
        let mut total: usize = 0;
        proof {
            assert(patched(seen, a, joined(pieces)) =~= seen);
            lemma_run(layout, a, count as nat);
        }
        while total < count
            invariant_except_break
                *src == reached(*old(src), states),
            invariant
                layout == self@,
                well_formed(layout),
                a == addr.0,
                access_bounded(layout, a, count as nat),
                forall|n: usize| n <= count ==> #[trigger] src.readable(n),
                total <= count,
                cur.0 == a + total,
                total + run(layout, a + total, (count - total) as nat) == run(
                    layout,
                    a,
                    count as nat,
                ),
                total == joined(pieces).len(),
                source_gave(*old(src), states, layout, a, count as int, pieces),
                before == old(mem)@,
                seen == contents(layout, before),
                mapped_in(layout, mem@),
                changed_to(layout, before, mem@, patched(seen, a, joined(pieces))),
                mem.areas@.len() == old(mem).areas@.len(),
                forall|k: int|
                    #![trigger mem.areas@[k]]
                    0 <= k < old(mem).areas@.len() ==> final(mem.areas@[k].bytes)@
                        == final(old(mem).areas@[k].bytes)@,
            ensures
                total <= count,
                total == joined(pieces).len(),
                source_gave(*old(src), states, layout, a, count as int, pieces),
                mapped_in(layout, mem@),
                changed_to(layout, before, mem@, patched(seen, a, joined(pieces))),
                mem.areas@.len() == old(mem).areas@.len(),
                forall|k: int|
                    #![trigger mem.areas@[k]]
                    0 <= k < old(mem).areas@.len() ==> final(mem.areas@[k].bytes)@
                        == final(old(mem).areas@[k].bytes)@,
                if total == count || !mapped(layout, a + total) {
                    *src == reached(*old(src), states)
                } else {
                    exists|piece: Vec<u8>|
                        piece@.len() == 0 && #[trigger] reached(*old(src), states).gives(
                            step_len(layout, a + total, count - total) as usize,
                            Ok(piece),
                            src,
                        )
                },
            decreases count - total,
        {
            proof {
                lemma_bounded_on_the_way(layout, a, count as nat, total as nat);
            }
            match self.to_region_addr(cur) {
                None => {
                    break ;
                },
                Some((region, start)) => {
                    let ghost i = region_at(layout, cur.0 as int);
                    let ghost mid = mem@;
                    assert(layout[i].mapping.mapped_in(mid));
                    let room: GuestUsize = region.len() - start.raw_value();
                    let left: usize = count - total;
                    let ask: usize = if room < left as GuestUsize {
                        room as usize
                    } else {
                        left
                    };
                    assert(ask == step_len(layout, a + total, count - total));
                    assert(src.readable(ask));
                    let ghost now = *src;
                    let reply = src.read(ask);
                    match reply {
                        Err(e) => {
                            let read = Err(Error::IOError(e));
                            assert(source_done(
                                *old(src),
                                *src,
                                layout,
                                before,
                                mem@,
                                addr,
                                count as int,
                                states,
                                pieces,
                                read,
                            ));
                            return read;
                        },
                        Ok(piece) => {
                            let n: usize = piece.len();
                            if n == 0 {
                                break ;
                            }
                            match region.write(mem, &piece, start) {
                                Err(e) => {
                                    return Err(e);
                                },
                                Ok(_) => {},
                            }
                            proof {
                                assert(piece@.take(n as int) =~= piece@);
                                lemma_store(layout, mid, i, cur.0 as int, piece@);
                                lemma_run_in_region(
                                    layout,
                                    cur.0 as int,
                                    (count - total) as nat,
                                    i,
                                    n as nat,
                                );
                                let all = pieces.push(piece);
                                assert(all.drop_last() =~= pieces);
                                assert(states.push(*src).drop_last() =~= states);
                                states = states.push(*src);
                                let next = patched(contents(layout, mid), cur.0 as int, piece@);
                                lemma_change_twice(
                                    layout,
                                    before,
                                    mid,
                                    mem@,
                                    contents(layout, mid),
                                    next,
                                );
                                assert(next =~= patched(seen, a, joined(all)));
                                pieces = all;
                            }
                            total = total + n;
                            cur = cur.unchecked_add(n as GuestUsize);
                        },
                    }
                },
            }
        }
        let read = if total == 0 {
            Err(Error::InvalidGuestAddress(addr))
        } else {
            Ok(total)
        };
        assert(source_done(
            *old(src),
            *src,
            layout,
            before,
            mem@,
            addr,
            count as int,
            states,
            pieces,
            read,
        ));
        read
    }

    /// Stores at `addr` up to `count` bytes of `src`, and returns how many they are. `src` is asked
    /// until they are all there, it gives none, it fails, or no region holds the next address.
    ///
    /// Every byte that is taken from `src` is stored, in the order in which it comes.
    pub fn read_from_source<S: ByteSource>(
        &self,
        mem: &mut HostMemory<'_>,
        addr: GuestAddress,
        src: &mut S,
        count: usize,
    ) -> (read: Result<usize, Error>)
        requires
            mapped_in(self@, old(mem)@),
            access_bounded(self@, addr.0 as int, count as nat),
            forall|n: usize| n <= count ==> #[trigger] old(src).readable(n),
        ensures
            exists|states: Seq<S>, pieces: Seq<Vec<u8>>| #[trigger]
                source_done(
                    *old(src),
                    *final(src),
                    self@,
                    old(mem)@,
                    final(mem)@,
                    addr,
                    count as int,
                    states,
                    pieces,
                    read,
                ),
            forall|rest: spec_fn(S) -> Seq<u8>| #[trigger]
                is_stream(rest) ==> {
                    let n = rest(*old(src)).len() - rest(*final(src)).len();
                    &&& 0 <= n
                    &&& rest(*final(src)) == rest(*old(src)).skip(n)
                    &&& changed_to(
                        self@,
                        old(mem)@,
                        final(mem)@,
                        patched(
                            contents(self@, old(mem)@),
                            addr.0 as int,
                            rest(*old(src)).take(n),
                        ),
                    )
                    &&& read matches Ok(moved) ==> 0 < moved == n
                    &&& read matches Err(Error::InvalidGuestAddress(_)) ==> n == 0
                },
            mapped_in(self@, final(mem)@),
            final(mem).areas@.len() == old(mem).areas@.len(),
            forall|i: int|
                #![trigger final(mem).areas@[i]]
                0 <= i < old(mem).areas@.len() ==> final(final(mem).areas@[i].bytes)@
                    == final(old(mem).areas@[i].bytes)@,
    {
        let read = self.fill(mem, addr, src, count);
        proof {
            let (states, pieces) = choose|states: Seq<S>, pieces: Seq<Vec<u8>>| #[trigger]
                source_done(
                    *old(src),
                    *src,
                    self@,
                    old(mem)@,
                    mem@,
                    addr,
                    count as int,
                    states,
                    pieces,
                    read,
                );
            assert forall|rest: spec_fn(S) -> Seq<u8>| #[trigger] is_stream(rest) implies {
                let n = rest(*old(src)).len() - rest(*src).len();
                &&& 0 <= n
                &&& rest(*src) == rest(*old(src)).skip(n)
                &&& changed_to(
                    self@,
                    old(mem)@,
                    mem@,
                    patched(contents(self@, old(mem)@), addr.0 as int, rest(*old(src)).take(n)),
                )
                &&& read matches Ok(moved) ==> 0 < moved == n
                &&& read matches Err(Error::InvalidGuestAddress(_)) ==> n == 0
            } by {
                law_stream_is_stored_in_order(
                    *old(src),
                    *src,
                    self@,
                    old(mem)@,
                    mem@,
                    addr,
                    count as int,
                    states,
                    pieces,
                    read,
                    rest,
                );
            }
        }
        read
    }

    /// Stores at `addr` the first `count` bytes of `src`. Where there are fewer, these are stored, and
    /// the error says how many they are.
    pub fn read_exact_from_source<S: ByteSource>(
        &self,
        mem: &mut HostMemory<'_>,
        addr: GuestAddress,
        src: &mut S,
        count: usize,
    ) -> (read: Result<(), Error>)
        requires
            mapped_in(self@, old(mem)@),
            access_bounded(self@, addr.0 as int, count as nat),
            forall|n: usize| n <= count ==> #[trigger] old(src).readable(n),
        ensures
            exists|states: Seq<S>, pieces: Seq<Vec<u8>>, moved: Result<usize, Error>| #[trigger]
                source_done(
                    *old(src),
                    *final(src),
                    self@,
                    old(mem)@,
                    final(mem)@,
                    addr,
                    count as int,
                    states,
                    pieces,
                    moved,
                ) && read == all_or_error(count, moved),
            forall|rest: spec_fn(S) -> Seq<u8>| #[trigger]
                is_stream(rest) ==> {
                    let n = rest(*old(src)).len() - rest(*final(src)).len();
                    &&& 0 <= n
                    &&& rest(*final(src)) == rest(*old(src)).skip(n)
                    &&& changed_to(
                        self@,
                        old(mem)@,
                        final(mem)@,
                        patched(
                            contents(self@, old(mem)@),
                            addr.0 as int,
                            rest(*old(src)).take(n),
                        ),
                    )
                    &&& read is Ok ==> n == count
                    &&& read matches Err(Error::PartialBuffer { expected, completed }) ==> expected
                        == count && completed == n < count
                    &&& read matches Err(Error::InvalidGuestAddress(_)) ==> n == 0
                },
            mapped_in(self@, final(mem)@),
            final(mem).areas@.len() == old(mem).areas@.len(),
            forall|i: int|
                #![trigger final(mem).areas@[i]]
                0 <= i < old(mem).areas@.len() ==> final(final(mem).areas@[i].bytes)@
                    == final(old(mem).areas@[i].bytes)@,
    {
        let moved = self.read_from_source(mem, addr, src, count);
        match moved {
            Err(e) => Err(e),
            Ok(completed) => {
                if completed != count {
                    return Err(Error::PartialBuffer { expected: count, completed });
                }
                Ok(())
            },
        }
    }

    /// Offers the bytes from `addr` on to `dst`, step by step.
    fn drain<S: ByteSink>(
        &self,
        mem: &HostMemory<'_>,
        addr: GuestAddress,
        dst: &mut S,
        count: usize,
    ) -> (written: Result<usize, Error>)
        requires
            mapped_in(self@, mem@),
            access_bounded(self@, addr.0 as int, count as nat),
            old(dst).writable(),
        ensures
            exists|states: Seq<S>, taken: Seq<usize>| #[trigger]
                sink_done(
                    *old(dst),
                    *final(dst),
                    self@,
                    mem@,
                    addr,
                    count as int,
                    states,
                    taken,
                    written,
                ),
    {
        proof {
            use_type_invariant(self);
        }
        let ghost layout = self@;
        let ghost a = addr.0 as int;
        let ghost seen = contents(layout, mem@);
        let ghost mut taken = Seq::<usize>::empty();
        let ghost mut states = Seq::<S>::empty();
        let mut cur = addr;
        let mut total: usize = 0;
        proof {
            lemma_run(layout, a, count as nat);
        }
        while total < count
            invariant_except_break
                *dst == reached(*old(dst), states),
            invariant
                layout == self@,
                well_formed(layout),
                a == addr.0,
                access_bounded(layout, a, count as nat),
                dst.writable(),
                total <= count,
                cur.0 == a + total,
                total + run(layout, a + total, (count - total) as nat) == run(
                    layout,
                    a,
                    count as nat,
                ),
                total == sum(taken),
                seen == contents(layout, mem@),
                sink_took(*old(dst), states, layout, seen, a, count as int, taken),
                mapped_in(layout, mem@),
            ensures
                total <= count,
                total == sum(taken),
                sink_took(*old(dst), states, layout, seen, a, count as int, taken),
                if total == count || !mapped(layout, a + total) {
                    *dst == reached(*old(dst), states)
                } else {
                    reached(*old(dst), states).takes(
                        window(
                            seen,
                            a + total,
                            step_len(layout, a + total, count - total) as nat,
                        ),
                        Ok(0usize),
                        dst,
                    )
                },
            decreases count - total,
        {
            proof {
                lemma_bounded_on_the_way(layout, a, count as nat, total as nat);
            }
            match self.to_region_addr(cur) {
                None => {
                    break ;
                },
                Some((region, start)) => {
                    let ghost i = region_at(layout, cur.0 as int);
                    assert(layout[i].mapping.mapped_in(mem@));
                    let room: GuestUsize = region.len() - start.raw_value();
                    let left: usize = count - total;
                    let offer: usize = if room < left as GuestUsize {
                        room as usize
                    } else {
                        left
                    };
                    let from: usize = start.raw_value() as usize;
                    let out = &region.deref().as_slice(mem)[from..from + offer];
                    let ghost data = window(
                        seen,
                        a + total,
                        step_len(layout, a + total, count - total) as nat,
                    );
                    proof {
                        assert forall|k: int| 0 <= k < offer implies #[trigger] seen[cur.0 + k]
                            == region@.mapping.bytes(mem@)[start.0 + k] by {
                            lemma_contents(layout, mem@, cur.0 + k, i);
                        }
                        assert(out@ =~= data);
                    }
                    let reply = dst.write(out);
                    match reply {
                        Err(e) => {
                            let written = Err(Error::IOError(e));
                            assert(sink_done(
                                *old(dst),
                                *dst,
                                layout,
                                mem@,
                                addr,
                                count as int,
                                states,
                                taken,
                                written,
                            ));
                            return written;
                        },
                        Ok(n) => {
                            if n == 0 {
                                break ;
                            }
                            proof {
                                lemma_run_in_region(
                                    layout,
                                    cur.0 as int,
                                    (count - total) as nat,
                                    i,
                                    n as nat,
                                );
                                let all = taken.push(n);
                                assert(all.drop_last() =~= taken);
                                assert(states.push(*dst).drop_last() =~= states);
                                states = states.push(*dst);
                                taken = all;
                            }
                            total = total + n;
                            cur = cur.unchecked_add(n as GuestUsize);
                        },
                    }
                },
            }
        }
        let written = if total == 0 {
            Err(Error::InvalidGuestAddress(addr))
        } else {
            Ok(total)
        };
        assert(sink_done(
            *old(dst),
            *dst,
            layout,
            mem@,
            addr,
            count as int,
            states,
            taken,
            written,
        ));
        written
    }

    /// Gives up to `count` bytes from `addr` on to `dst`, and returns how many it took. `dst` is
    /// offered the rest again until it has taken all, takes none, fails, or no region holds the next
    /// address.
    ///
    /// `dst` gets every byte once, in the order of the addresses.
    pub fn write_to_sink<S: ByteSink>(
        &self,
        mem: &HostMemory<'_>,
        addr: GuestAddress,
        dst: &mut S,
        count: usize,
    ) -> (written: Result<usize, Error>)
        requires
            mapped_in(self@, mem@),
            access_bounded(self@, addr.0 as int, count as nat),
            old(dst).writable(),
        ensures
            exists|states: Seq<S>, taken: Seq<usize>| #[trigger]
                sink_done(
                    *old(dst),
                    *final(dst),
                    self@,
                    mem@,
                    addr,
                    count as int,
                    states,
                    taken,
                    written,
                ),
            forall|held: spec_fn(S) -> Seq<u8>| #[trigger]
                is_record(held) ==> {
                    let n = held(*final(dst)).len() - held(*old(dst)).len();
                    &&& 0 <= n
                    &&& held(*final(dst)) == held(*old(dst)) + window(
                        contents(self@, mem@),
                        addr.0 as int,
                        n as nat,
                    )
                    &&& written matches Ok(moved) ==> 0 < moved == n
                    &&& written matches Err(Error::InvalidGuestAddress(_)) ==> n == 0
                },
    {
        let written = self.drain(mem, addr, dst, count);
        proof {
            let (states, taken) = choose|states: Seq<S>, taken: Seq<usize>| #[trigger]
                sink_done(
                    *old(dst),
                    *dst,
                    self@,
                    mem@,
                    addr,
                    count as int,
                    states,
                    taken,
                    written,
                );
            assert forall|held: spec_fn(S) -> Seq<u8>| #[trigger] is_record(held) implies {
                let n = held(*dst).len() - held(*old(dst)).len();
                &&& 0 <= n
                &&& held(*dst) == held(*old(dst)) + window(
                    contents(self@, mem@),
                    addr.0 as int,
                    n as nat,
                )
                &&& written matches Ok(moved) ==> 0 < moved == n
                &&& written matches Err(Error::InvalidGuestAddress(_)) ==> n == 0
            } by {
                law_sink_gets_the_bytes_in_order(
                    *old(dst),
                    *dst,
                    self@,
                    mem@,
                    addr,
                    count as int,
                    states,
                    taken,
                    written,
                    held,
                );
                let n = held(*dst).len() - held(*old(dst)).len();
                let seen = contents(self@, mem@);
                let had = held(*old(dst));
                let now = held(*dst);
                let all = had + window(seen, addr.0 as int, n as nat);
                assert forall|j: int| 0 <= j < now.len() implies #[trigger] now[j] == all[j] by {
                    if j < had.len() {
                        assert(now.take(had.len() as int)[j] == had[j]);
                    } else {
                        let k = j - had.len();
                        assert(now[had.len() + k] == seen[addr.0 + k]);
                    }
                }
                assert(now =~= all);
            }
        }
        written
    }

    /// Gives the `count` bytes from `addr` on to `dst`. Where it takes fewer, the error says how many.
    pub fn write_all_to_sink<S: ByteSink>(
        &self,
        mem: &HostMemory<'_>,
        addr: GuestAddress,
        dst: &mut S,
        count: usize,
    ) -> (written: Result<(), Error>)
        requires
            mapped_in(self@, mem@),
            access_bounded(self@, addr.0 as int, count as nat),
            old(dst).writable(),
        ensures
            exists|states: Seq<S>, taken: Seq<usize>, moved: Result<usize, Error>| #[trigger]
                sink_done(
                    *old(dst),
                    *final(dst),
                    self@,
                    mem@,
                    addr,
                    count as int,
                    states,
                    taken,
                    moved,
                ) && written == all_or_error(count, moved),
            forall|held: spec_fn(S) -> Seq<u8>| #[trigger]
                is_record(held) ==> {
                    let n = held(*final(dst)).len() - held(*old(dst)).len();
                    &&& 0 <= n
                    &&& held(*final(dst)) == held(*old(dst)) + window(
                        contents(self@, mem@),
                        addr.0 as int,
                        n as nat,
                    )
                    &&& written is Ok ==> n == count
                    &&& written matches Err(Error::PartialBuffer { expected, completed })
                        ==> expected == count && completed == n < count
                    &&& written matches Err(Error::InvalidGuestAddress(_)) ==> n == 0
                },
    {
        let moved = self.write_to_sink(mem, addr, dst, count);
        match moved {
            Err(e) => Err(e),
            Ok(completed) => {
                if completed != count {
                    return Err(Error::PartialBuffer { expected: count, completed });
                }
                Ok(())
            },
        }
    }
}

} // verus!
