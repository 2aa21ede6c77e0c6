//! Reading and writing guest memory.

use crate::address::{GuestAddress, GuestUsize};
use crate::guest_memory::{
    access_bounded, bounded_up_to, changed_to, contents, lemma_bounded_on_the_way, lemma_change_twice,
    lemma_contents, lemma_run, lemma_run_in_region, lemma_store, mapped_in, patched, region_at, run,
    well_formed, window, Error,
};
use crate::host_memory::{overwrite, HostMemory};
use crate::mmap::memory::GuestMemoryMmap;
use vstd::prelude::*;

verus! {

impl GuestMemoryMmap {
    /// Whether no region that an access to `count` bytes at `addr` comes to runs past the end of the
    /// guest's address space, so that the access can be made.
    pub fn is_access_bounded(&self, addr: GuestAddress, count: usize) -> (bounded: bool)
        ensures
            bounded == access_bounded(self@, addr.0 as int, count as nat),
    {
        proof {
            use_type_invariant(self);
            lemma_run(self@, addr.0 as int, count as nat);
        }
        let ghost layout = self@;
        let ghost a = addr.0 as int;
        let mut cur = addr;
        let mut total: usize = 0;
        while total < count
            invariant
                layout == self@,
                well_formed(layout),
                a == addr.0,
                total <= count,
                cur.0 == a + total,
                total + run(layout, a + total, (count - total) as nat) == run(
                    layout,
                    a,
                    count as nat,
                ),
                total > 0 ==> bounded_up_to(layout, a + total - 1),
            decreases count - total,
        {
            if !self.is_bounded_up_to(cur) {
                return false;
            }
            match self.to_region_addr(cur) {
                None => {
                    return true;
                },
                Some((region, start)) => {
                    let ghost i = region_at(layout, cur.0 as int);
                    let room: GuestUsize = region.len() - start.raw_value();
                    let left: usize = count - total;
                    let step: usize = if room < left as GuestUsize {
                        room as usize
                    } else {
                        left
                    };
                    proof {
                        lemma_run_in_region(layout, cur.0 as int, left as nat, i, step as nat);
                        assert forall|j: int|
                            #![trigger layout[j]]
                            0 <= j < layout.len() && layout[j].base <= a + total + step
                                - 1 implies layout[j].bounded() by {
                            if i < j {
                                assert(layout[i].end() <= layout[j].base);
                            } else if j < i {
                                assert(layout[j].end() <= layout[i].base);
                            }
                        }
                    }
                    total = total + step;
                    cur = cur.unchecked_add(step as GuestUsize);
                },
            }
        }
        true
    }

    /// Writes as much of `buf` as the regions from `addr` on hold without a gap, and returns how many
    /// bytes that is.
    pub fn write(
        &self,
        mem: &mut HostMemory<'_>,
        buf: &[u8],
        addr: GuestAddress,
    ) -> (written: Result<usize, Error>)
        requires
            mapped_in(self@, old(mem)@),
            access_bounded(self@, addr.0 as int, buf@.len()),
        ensures
            ({
                let n = run(self@, addr.0 as int, buf@.len());
                let seen = contents(self@, old(mem)@);
                &&& written == if n == 0 {
                    Err::<usize, Error>(Error::InvalidGuestAddress(addr))
                } else {
                    Ok(n as usize)
                }
                &&& changed_to(
                    self@,
                    old(mem)@,
                    final(mem)@,
                    patched(seen, addr.0 as int, buf@.take(n as int)),
                )
            }),
            mapped_in(self@, final(mem)@),
            final(mem).areas@.len() == old(mem).areas@.len(),
            forall|i: int|
                #![trigger final(mem).areas@[i]]
                0 <= i < old(mem).areas@.len() ==> final(final(mem).areas@[i].bytes)@
                    == final(old(mem).areas@[i].bytes)@,
    {
        proof {
            use_type_invariant(self);
        }
        let ghost layout = self@;
        let ghost a = addr.0 as int;
        let ghost before = mem@;
        let ghost seen = contents(layout, before);
        let count: usize = buf.len();
        let mut cur = addr;
        let mut total: usize = 0;
        proof {
            assert(patched(seen, a, buf@.take(0)) =~= seen);
            lemma_run(layout, a, count as nat);
        }
        while total < count
            invariant
                layout == self@,
                well_formed(layout),
                count == buf@.len(),
                a == addr.0,
                access_bounded(layout, a, count as nat),
                total <= count,
                cur.0 == a + total,
                total + run(layout, a + total, (count - total) as nat) == run(
                    layout,
                    a,
                    count as nat,
                ),
                seen == contents(layout, before),
                mapped_in(layout, mem@),
                changed_to(layout, before, mem@, patched(seen, a, buf@.take(total as int))),
                mem.areas@.len() == old(mem).areas@.len(),
                forall|k: int|
                    #![trigger mem.areas@[k]]
                    0 <= k < old(mem).areas@.len() ==> final(mem.areas@[k].bytes)@
                        == final(old(mem).areas@[k].bytes)@,
            ensures
                total == run(layout, a, count as nat),
                mapped_in(layout, mem@),
                changed_to(layout, before, mem@, patched(seen, a, buf@.take(total as int))),
                mem.areas@.len() == old(mem).areas@.len(),
                forall|k: int|
                    #![trigger mem.areas@[k]]
                    0 <= k < old(mem).areas@.len() ==> final(mem.areas@[k].bytes)@
                        == final(old(mem).areas@[k].bytes)@,
            decreases count - total,
        {
            proof {
                lemma_bounded_on_the_way(layout, a, count as nat, total as nat);
            }
            match self.to_region_addr(cur) {
                None => {
                    break ;
                },
                Some((region, start)) => {
                    let ghost i = region_at(layout, cur.0 as int);
                    let ghost mid = mem@;
                    let rest = &buf[total..count];
                    match region.write(mem, rest, start) {
                        Err(e) => {
                            return Err(e);
                        },
                        Ok(n) => {
                            proof {
                                assert(layout[i].mapping.mapped_in(mid));
                                let data = rest@.take(n as int);
                                lemma_store(layout, mid, i, cur.0 as int, data);
                                lemma_run_in_region(
                                    layout,
                                    cur.0 as int,
                                    (count - total) as nat,
                                    i,
                                    n as nat,
                                );
                                let next = patched(contents(layout, mid), cur.0 as int, data);
                                lemma_change_twice(
                                    layout,
                                    before,
                                    mid,
                                    mem@,
                                    contents(layout, mid),
                                    next,
                                );
                                assert(next =~= patched(seen, a, buf@.take(total + n)));
                            }
                            total = total + n;
                            cur = cur.unchecked_add(n as GuestUsize);
                        },
                    }
                },
            }
        }
        if total == 0 {
            Err(Error::InvalidGuestAddress(addr))
        } else {
            Ok(total)
        }
    }

    /// Reads the bytes that the regions from `addr` on hold without a gap into `buf`, as many as
    /// fit, and returns how many that is.
    pub fn read(
        &self,
        mem: &HostMemory<'_>,
        buf: &mut [u8],
        addr: GuestAddress,
    ) -> (read: Result<usize, Error>)
        requires
            mapped_in(self@, mem@),
            access_bounded(self@, addr.0 as int, old(buf)@.len()),
        ensures
            ({
                let n = run(self@, addr.0 as int, old(buf)@.len());
                let seen = contents(self@, mem@);
                &&& read == if n == 0 {
                    Err::<usize, Error>(Error::InvalidGuestAddress(addr))
                } else {
                    Ok(n as usize)
                }
                &&& final(buf)@ == overwrite(old(buf)@, 0, window(seen, addr.0 as int, n))
            }),
    {
        proof {
            use_type_invariant(self);
        }
        let ghost layout = self@;
        let ghost a = addr.0 as int;
        let ghost before = buf@;
        let ghost seen = contents(layout, mem@);
        let count: usize = buf.len();
        let mut cur = addr;
        let mut total: usize = 0;
        proof {
            assert(overwrite(before, 0, window(seen, a, 0)) =~= before);
            lemma_run(layout, a, count as nat);
        }
        while total < count
            invariant
                layout == self@,
                well_formed(layout),
                count == before.len(),
                a == addr.0,
                access_bounded(layout, a, count as nat),
                total <= count,
                cur.0 == a + total,
                total + run(layout, a + total, (count - total) as nat) == run(
                    layout,
                    a,
                    count as nat,
                ),
                seen == contents(layout, mem@),
                mapped_in(layout, mem@),
                buf@ == overwrite(before, 0, window(seen, a, total as nat)),
            ensures
                total == run(layout, a, count as nat),
                buf@ == overwrite(before, 0, window(seen, a, total as nat)),
            decreases count - total,
        {
            proof {
                lemma_bounded_on_the_way(layout, a, count as nat, total as nat);
            }
            match self.to_region_addr(cur) {
                None => {
                    break ;
                },
                Some((region, start)) => {
                    let ghost i = region_at(layout, cur.0 as int);
                    let (_, rest) = buf.split_at_mut(total);
                    match region.read(mem, rest, start) {
                        Err(e) => {
                            return Err(e);
                        },
                        Ok(n) => {
                            proof {
                                assert(layout[i].mapping.mapped_in(mem@));
                                lemma_run_in_region(
                                    layout,
                                    cur.0 as int,
                                    (count - total) as nat,
                                    i,
                                    n as nat,
                                );
                                assert forall|k: int| 0 <= k < n implies #[trigger] seen[cur.0 + k]
                                    == region@.mapping.bytes(mem@)[start.0 + k] by {
                                    lemma_contents(layout, mem@, cur.0 + k, i);
                                }
                                assert(buf@ =~= overwrite(
                                    before,
                                    0,
                                    window(seen, a, (total + n) as nat),
                                ));
                            }
                            total = total + n;
                            cur = cur.unchecked_add(n as GuestUsize);
                        },
                    }
                },
            }
        }
        if total == 0 {
            Err(Error::InvalidGuestAddress(addr))
        } else {
            Ok(total)
        }
    }

    /// Writes all of `buf` from `addr` on. Where the regions hold only a part without a gap, that
    /// part is written, and the error says how much it is.
    pub fn write_slice(
        &self,
        mem: &mut HostMemory<'_>,
        buf: &[u8],
        addr: GuestAddress,
    ) -> (written: Result<(), Error>)
        requires
            mapped_in(self@, old(mem)@),
            access_bounded(self@, addr.0 as int, buf@.len()),
        ensures
            ({
                let n = run(self@, addr.0 as int, buf@.len());
                let seen = contents(self@, old(mem)@);
                &&& written == if n == 0 {
                    Err::<(), Error>(Error::InvalidGuestAddress(addr))
                } else if n < buf@.len() {
                    Err(
                        Error::PartialBuffer {
                            expected: buf@.len() as usize,
                            completed: n as usize,
                        },
                    )
                } else {
                    Ok(())
                }
                &&& changed_to(
                    self@,
                    old(mem)@,
                    final(mem)@,
                    patched(seen, addr.0 as int, buf@.take(n as int)),
                )
            }),
            mapped_in(self@, final(mem)@),
            final(mem).areas@.len() == old(mem).areas@.len(),
            forall|i: int|
                #![trigger final(mem).areas@[i]]
                0 <= i < old(mem).areas@.len() ==> final(final(mem).areas@[i].bytes)@
                    == final(old(mem).areas@[i].bytes)@,
    {
        proof {
            lemma_run(self@, addr.0 as int, buf@.len());
        }
        match self.write(mem, buf, addr) {
            Err(e) => Err(e),
            Ok(completed) => {
                if completed != buf.len() {
                    return Err(Error::PartialBuffer { expected: buf.len(), completed });
                }
                Ok(())
            },
        }
    }

    /// Fills `buf` from `addr` on. Where the regions hold only a part without a gap, that part is
    /// filled, and the error says how much it is.
    pub fn read_slice(
        &self,
        mem: &HostMemory<'_>,
        buf: &mut [u8],
        addr: GuestAddress,
    ) -> (read: Result<(), Error>)
        requires
            mapped_in(self@, mem@),
            access_bounded(self@, addr.0 as int, old(buf)@.len()),
        ensures
            ({
                let n = run(self@, addr.0 as int, old(buf)@.len());
                let seen = contents(self@, mem@);
                &&& read == if n == 0 {
                    Err::<(), Error>(Error::InvalidGuestAddress(addr))
                } else if n < old(buf)@.len() {
                    Err(
                        Error::PartialBuffer {
                            expected: old(buf)@.len() as usize,
                            completed: n as usize,
                        },
                    )
                } else {
                    Ok(())
                }
                &&& final(buf)@ == overwrite(old(buf)@, 0, window(seen, addr.0 as int, n))
            }),
    {
        proof {
            lemma_run(self@, addr.0 as int, buf@.len());
        }
        let expected: usize = buf.len();
        match self.read(mem, buf, addr) {
            Err(e) => Err(e),
            Ok(completed) => {
                if completed != expected {
                    return Err(Error::PartialBuffer { expected, completed });
                }
                Ok(())
            },
        }
    }
}

} // verus!
