//! Visits of the regions of guest memory.

use crate::mmap::memory::{passed, visited, GuestMemoryMmap};
use crate::mmap::region::GuestRegionMmap;
use crate::mmap::transfer::reached;
use vstd::prelude::*;

verus! {

/// A visitor of regions, which is changed by what it sees. It ends its visit with an error.
pub trait RegionVisitor<E>: Sized {
    /// Whether the visitor can be shown region number `index`, and after it the next ones.
    spec fn ready(&self, index: int, regions: Seq<GuestRegionMmap>) -> bool;

    /// Whether the visitor, shown a region, can reply with `reply` and be `after` then.
    spec fn sees(
        &self,
        index: int,
        region: GuestRegionMmap,
        reply: Result<(), E>,
        after: &Self,
    ) -> bool;

    /// Shows region number `index` to the visitor.
    fn visit(&mut self, index: usize, regions: &[GuestRegionMmap]) -> (reply: Result<(), E>)
        requires
            index < regions@.len(),
            old(self).ready(index as int, regions@),
        ensures
            old(self).sees(index as int, regions@[index as int], reply, final(self)),
            reply is Ok ==> final(self).ready(index + 1, regions@),
    ;
}

/// A function that is called with a region and its number, as a visitor. A call leaves it as it was,
/// as far as can be stated of a function: what it keeps between calls shows in no clause.
pub struct VisitorFn<F> {
    pub f: F,
}

impl<E, F: FnMut(usize, &GuestRegionMmap) -> Result<(), E>> RegionVisitor<E> for VisitorFn<F> {
    open spec fn ready(&self, index: int, regions: Seq<GuestRegionMmap>) -> bool {
        &&& 0 <= index
        &&& passed(self.f, regions, index as nat)
        &&& forall|i: usize|
            i < regions.len() && passed(self.f, regions, i as nat) ==> #[trigger] call_requires(
                self.f,
                (i, &regions[i as int]),
            )
    }

    open spec fn sees(
        &self,
        index: int,
        region: GuestRegionMmap,
        reply: Result<(), E>,
        after: &Self,
    ) -> bool {
        &&& call_ensures(self.f, (index as usize, &region), reply)
        &&& after == self
    }

    fn visit(&mut self, index: usize, regions: &[GuestRegionMmap]) -> (reply: Result<(), E>) {
        let reply = (self.f)(index, &regions[index]);
        assert(reply matches Ok(unit) ==> unit == ());
        reply
    }
}

/// Whether a visitor can go through `states` as it sees the first regions, one after the other,
/// without an error.
pub open spec fn saw<E, V: RegionVisitor<E>>(
    visitor: V,
    states: Seq<V>,
    regions: Seq<GuestRegionMmap>,
) -> bool
    decreases states.len(),
{
    states.len() > 0 ==> {
        let k = states.len() - 1;
        &&& saw::<E, V>(visitor, states.drop_last(), regions)
        &&& k < regions.len()
        &&& reached(visitor, states.drop_last()).sees(k, regions[k], Ok(()), &states.last())
    }
}

/// Whether a visit of the regions can come to `result` and take the visitor from `visitor` to `last`
/// by way of `states`.
pub open spec fn visit_done<E, V: RegionVisitor<E>>(
    visitor: V,
    last: V,
    states: Seq<V>,
    regions: Seq<GuestRegionMmap>,
    result: Result<(), E>,
) -> bool {
    let k = states.len() as int;
    &&& saw::<E, V>(visitor, states, regions)
    &&& match result {
        Ok(()) => k == regions.len() && last == reached(visitor, states),
        Err(e) => k < regions.len() && reached(visitor, states).sees(
            k,
            regions[k],
            Err(e),
            &last,
        ),
    }
}

/// Whether `seen` is what a visitor has seen: each region that it is shown is added at the end.
pub open spec fn is_log<E, V: RegionVisitor<E>>(
    seen: spec_fn(V) -> Seq<(int, GuestRegionMmap)>,
) -> bool {
    forall|v: V, index: int, region: GuestRegionMmap, reply: Result<(), E>, w: V| #[trigger]
        v.sees(index, region, reply, &w) ==> seen(w) == seen(v).push((index, region))
}

/// What a visitor has seen after a part of the visit.
proof fn lemma_log<E, V: RegionVisitor<E>>(
    visitor: V,
    states: Seq<V>,
    regions: Seq<GuestRegionMmap>,
    seen: spec_fn(V) -> Seq<(int, GuestRegionMmap)>,
)
    requires
        saw::<E, V>(visitor, states, regions),
        is_log::<E, V>(seen),
    ensures
        states.len() <= regions.len(),
        seen(reached(visitor, states)) == seen(visitor) + Seq::new(
            states.len(),
            |i: int| (i, regions[i]),
        ),
    decreases states.len(),
{
    if states.len() == 0 {
        assert(seen(visitor) =~= seen(visitor) + Seq::new(0, |i: int| (i, regions[i])));
    } else {
        lemma_log::<E, V>(visitor, states.drop_last(), regions, seen);
        let k = states.len() - 1;
        let before = reached(visitor, states.drop_last());
        assert(seen(states.last()) == seen(before).push((k, regions[k])));
        assert(seen(states.last()) =~= seen(visitor) + Seq::new(
            states.len(),
            |i: int| (i, regions[i]),
        ));
    }
}

/// A visit shows the visitor each region once, with its number, in order: all of them where no visit
/// fails, so as many as there are; otherwise those up to the one that failed.
pub proof fn law_each_region_is_seen_once<E, V: RegionVisitor<E>>(
    visitor: V,
    last: V,
    states: Seq<V>,
    regions: Seq<GuestRegionMmap>,
    result: Result<(), E>,
    seen: spec_fn(V) -> Seq<(int, GuestRegionMmap)>,
)
    requires
        visit_done(visitor, last, states, regions, result),
        is_log::<E, V>(seen),
    ensures
        ({
            let n = seen(last).len() - seen(visitor).len();
            &&& 0 <= n <= regions.len()
            &&& result is Ok ==> n == regions.len()
            &&& result is Err ==> n > 0
            &&& seen(last).take(seen(visitor).len() as int) == seen(visitor)
            &&& forall|i: int|
                0 <= i < n ==> #[trigger] seen(last)[seen(visitor).len() + i] == (i, regions[i])
        }),
{
    lemma_log::<E, V>(visitor, states, regions, seen);
    let now = reached(visitor, states);
    assert(seen(now).take(seen(visitor).len() as int) =~= seen(visitor));
    if result is Err {
        let k = states.len() as int;
        assert(seen(last) == seen(now).push((k, regions[k])));
        assert(seen(last).take(seen(visitor).len() as int) =~= seen(visitor));
    }
}

/// What a function sees as a visitor is what it is called with.
proof fn lemma_function_saw<E, F: FnMut(usize, &GuestRegionMmap) -> Result<(), E>>(
    visitor: VisitorFn<F>,
    states: Seq<VisitorFn<F>>,
    regions: Seq<GuestRegionMmap>,
)
    requires
        saw::<E, VisitorFn<F>>(visitor, states, regions),
    ensures
        reached(visitor, states) == visitor,
        passed::<F, E>(visitor.f, regions, states.len()),
    decreases states.len(),
{
    if states.len() > 0 {
        lemma_function_saw::<E, F>(visitor, states.drop_last(), regions);
    }
}

/// A visit by a function is a visit that calls it with the regions in turn, until it fails.
pub(crate) proof fn lemma_function_visited<E, F: FnMut(usize, &GuestRegionMmap) -> Result<(), E>>(
    visitor: VisitorFn<F>,
    last: VisitorFn<F>,
    states: Seq<VisitorFn<F>>,
    regions: Seq<GuestRegionMmap>,
    result: Result<(), E>,
)
    requires
        visit_done(visitor, last, states, regions, result),
        regions.len() <= usize::MAX,
    ensures
        visited(visitor.f, regions, result),
{
    lemma_function_saw::<E, F>(visitor, states, regions);
    if let Err(e) = result {
        let k = states.len() as usize;
        assert(call_ensures(visitor.f, (k, &regions[k as int]), Err::<(), E>(e)));
    }
}

impl GuestMemoryMmap {
    /// Shows each region, with its number, to `visitor` in turn, until it replies with an error.
    pub fn visit_regions<E, V: RegionVisitor<E>>(&self, visitor: &mut V) -> (result: Result<(), E>)
        requires
            old(visitor).ready(0, self.all_regions()),
        ensures
            exists|states: Seq<V>| #[trigger]
                visit_done(*old(visitor), *final(visitor), states, self.all_regions(), result),
    {
        let regions = self.region_list();
        let ghost mut states = Seq::<V>::empty();
        let mut i: usize = 0;
        while i < regions.len()
            invariant
                regions@ == self.all_regions(),
                i <= regions@.len(),
                visitor.ready(i as int, regions@),
                states.len() == i,
                saw::<E, V>(*old(visitor), states, regions@),
                *visitor == reached(*old(visitor), states),
            decreases regions@.len() - i,
        {
            let reply = visitor.visit(i, regions);
            match reply {
                Ok(unit) => {
                    proof {
                        assert(unit == ());
                        assert(states.push(*visitor).drop_last() =~= states);
                        states = states.push(*visitor);
                    }
                },
                Err(e) => {
                    let result = Err(e);
                    assert(visit_done(*old(visitor), *visitor, states, regions@, result));
                    return result;
                },
            }
            i = i + 1;
        }
        assert(visit_done(*old(visitor), *visitor, states, regions@, Ok::<(), E>(())));
        Ok(())
    }
}

} // verus!
