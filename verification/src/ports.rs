//! Sources and sinks of bytes, which are changed by what is taken from them or given to them.

use crate::mmap::stream::takes_up_to_all;
use crate::volatile_memory::{reads_up_to, replies};
use vstd::prelude::*;

verus! {

/// A source of bytes.
pub trait ByteSource: Sized {
    /// Whether the source can be asked for `count` bytes.
    spec fn readable(&self, count: usize) -> bool;

    /// Whether the source, asked for `count` bytes, can give `reply` and be `after` then.
    spec fn gives(
        &self,
        count: usize,
        reply: Result<Vec<u8>, std::io::Error>,
        after: &Self,
    ) -> bool;

    /// Takes at most `count` bytes from the source. None means that there are no more.
    fn read(&mut self, count: usize) -> (reply: Result<Vec<u8>, std::io::Error>)
        requires
            old(self).readable(count),
        ensures
            old(self).gives(count, reply, final(self)),
            reply matches Ok(data) ==> data@.len() <= count,
            forall|n: usize| old(self).readable(n) ==> #[trigger] final(self).readable(n),
    ;
}

/// A sink of bytes.
pub trait ByteSink: Sized {
    /// Whether the sink can be offered bytes.
    spec fn writable(&self) -> bool;

    /// Whether the sink, offered `data`, can give `reply` and be `after` then.
    spec fn takes(
        &self,
        data: Seq<u8>,
        reply: Result<usize, std::io::Error>,
        after: &Self,
    ) -> bool;

    /// Offers bytes to the sink and returns how many of them, from the first on, it took.
    fn write(&mut self, out: &[u8]) -> (reply: Result<usize, std::io::Error>)
        requires
            old(self).writable(),
        ensures
            old(self).takes(out@, reply, final(self)),
            reply matches Ok(n) ==> n <= out@.len(),
            final(self).writable(),
    ;
}

/// A function that gives bytes, as a source. A call leaves it as it was, as far as can be stated of a
/// function: what it keeps between calls shows in no clause.
pub struct SourceFn<F> {
    pub f: F,
}

impl<F: FnMut(usize) -> Result<Vec<u8>, std::io::Error>> ByteSource for SourceFn<F> {
    open spec fn readable(&self, count: usize) -> bool {
        reads_up_to(self.f, count)
    }

    open spec fn gives(
        &self,
        count: usize,
        reply: Result<Vec<u8>, std::io::Error>,
        after: &Self,
    ) -> bool {
        &&& call_ensures(self.f, (count,), reply)
        &&& after == self
    }

    fn read(&mut self, count: usize) -> (reply: Result<Vec<u8>, std::io::Error>) {
        (self.f)(count)
    }
}

/// A function that takes bytes, as a sink. A call leaves it as it was, as far as can be stated of a
/// function: what it keeps between calls shows in no clause.
pub struct SinkFn<F> {
    pub f: F,
}

impl<F: FnMut(&[u8]) -> Result<usize, std::io::Error>> ByteSink for SinkFn<F> {
    open spec fn writable(&self) -> bool {
        takes_up_to_all(self.f)
    }

    open spec fn takes(
        &self,
        data: Seq<u8>,
        reply: Result<usize, std::io::Error>,
        after: &Self,
    ) -> bool {
        &&& replies(self.f, data, reply)
        &&& after == self
    }

    fn write(&mut self, out: &[u8]) -> (reply: Result<usize, std::io::Error>) {
        (self.f)(out)
    }
}

/// Bytes in memory, as a source: it gives as many as it is asked for, or as there are.
impl<'a> ByteSource for &'a [u8] {
    open spec fn readable(&self, count: usize) -> bool {
        true
    }

    open spec fn gives(
        &self,
        count: usize,
        reply: Result<Vec<u8>, std::io::Error>,
        after: &Self,
    ) -> bool {
        &&& reply matches Ok(data) && {
            &&& self@ == data@ + after@
            &&& data@.len() == if count <= self@.len() {
                count as nat
            } else {
                self@.len()
            }
        }
    }

    fn read(&mut self, count: usize) -> (reply: Result<Vec<u8>, std::io::Error>) {
        let all: &'a [u8] = *self;
        let len: usize = if count <= all.len() {
            count
        } else {
            all.len()
        };
        let mut data: Vec<u8> = Vec::new();
        let mut i: usize = 0;
        while i < len
            invariant
                i <= len <= all@.len(),
                data@ == all@.take(i as int),
            decreases len - i,
        {
            data.push(all[i]);
            i = i + 1;
            assert(data@ =~= all@.take(i as int));
        }
        *self = &all[len..all.len()];
        assert(all@ =~= data@ + self@);
        Ok(data)
    }
}

/// A vector, as a sink: it takes all that it is offered, at its end.
impl ByteSink for Vec<u8> {
    open spec fn writable(&self) -> bool {
        true
    }

    open spec fn takes(
        &self,
        data: Seq<u8>,
        reply: Result<usize, std::io::Error>,
        after: &Self,
    ) -> bool {
        &&& reply matches Ok(n) && n == data.len()
        &&& after@ == self@ + data
    }

    fn write(&mut self, out: &[u8]) -> (reply: Result<usize, std::io::Error>) {
        let mut i: usize = 0;
        assert(self@ =~= old(self)@ + out@.take(0));
        while i < out.len()
            invariant
                i <= out@.len(),
                self@ == old(self)@ + out@.take(i as int),
            decreases out@.len() - i,
        {
            self.push(out[i]);
            i = i + 1;
            assert(self@ =~= old(self)@ + out@.take(i as int));
        }
        assert(out@.take(i as int) =~= out@);
        Ok(i)
    }
}

/// Whether `rest` is what a source still has to give: what it gives comes off the front of that, and
/// where it fails it keeps it.
pub open spec fn is_stream<S: ByteSource>(rest: spec_fn(S) -> Seq<u8>) -> bool {
    forall|s: S, n: usize, reply: Result<Vec<u8>, std::io::Error>, t: S| #[trigger]
        s.gives(n, reply, &t) ==> match reply {
            Ok(data) => rest(s) == data@ + rest(t),
            Err(_) => rest(s) == rest(t),
        }
}

/// Whether `held` is what a sink has taken: what it takes of what it is offered is added at the end,
/// and where it fails it has what it had.
pub open spec fn is_record<S: ByteSink>(held: spec_fn(S) -> Seq<u8>) -> bool {
    forall|s: S, data: Seq<u8>, reply: Result<usize, std::io::Error>, t: S| #[trigger]
        s.takes(data, reply, &t) ==> match reply {
            Ok(n) => held(t) == held(s) + data.take(n as int),
            Err(_) => held(t) == held(s),
        }
}

/// Bytes in memory are a stream: what is left is what was not given. They do not fail, and give
/// nothing only at their end, or where nothing is asked for.
pub proof fn law_slice_is_a_stream<'a>(
    s: &'a [u8],
    n: usize,
    reply: Result<Vec<u8>, std::io::Error>,
    t: &'a [u8],
)
    ensures
        is_stream(|s: &'a [u8]| s@),
        s.gives(n, reply, &t) ==> {
            &&& reply is Ok
            &&& reply->Ok_0@ == s@.take(reply->Ok_0@.len() as int)
            &&& t@ == s@.skip(reply->Ok_0@.len() as int)
            &&& reply->Ok_0@.len() == n || t@.len() == 0
            &&& reply->Ok_0@.len() <= n
        },
{
    if s.gives(n, reply, &t) {
        let data = reply->Ok_0@;
        assert(data =~= s@.take(data.len() as int));
        assert(t@ =~= s@.skip(data.len() as int));
    }
}

/// A vector has taken what it holds. It does not fail, and takes all that it is offered.
pub proof fn law_vector_is_a_record(
    s: Vec<u8>,
    data: Seq<u8>,
    reply: Result<usize, std::io::Error>,
    t: Vec<u8>,
)
    ensures
        is_record(|v: Vec<u8>| v@),
        s.takes(data, reply, &t) ==> {
            &&& reply is Ok
            &&& reply->Ok_0 == data.len()
            &&& t@ == s@ + data
        },
{
    let held = |v: Vec<u8>| v@;
    assert forall|
        s: Vec<u8>,
        data: Seq<u8>,
        reply: Result<usize, std::io::Error>,
        t: Vec<u8>,
    | #[trigger] s.takes(data, reply, &t) implies match reply {
        Ok(n) => held(t) == held(s) + data.take(n as int),
        Err(_) => held(t) == held(s),
    } by {
        assert(data.take(data.len() as int) =~= data);
    }
}

/// A function as a source or a sink gives and takes what the function does.
pub proof fn law_functions_do_what_they_do<F, G>(
    src: SourceFn<F>,
    count: usize,
    reply: Result<Vec<u8>, std::io::Error>,
    src_after: SourceFn<F>,
    dst: SinkFn<G>,
    data: Seq<u8>,
    taken: Result<usize, std::io::Error>,
    dst_after: SinkFn<G>,
) where
    F: FnMut(usize) -> Result<Vec<u8>, std::io::Error>,
    G: FnMut(&[u8]) -> Result<usize, std::io::Error>,

    ensures
        src.gives(count, reply, &src_after) <==> call_ensures(src.f, (count,), reply) && src_after
            == src,
        dst.takes(data, taken, &dst_after) <==> (exists|out: &[u8]|
            out@ == data && #[trigger] call_ensures(dst.f, (out,), taken)) && dst_after == dst,
{
}

} // verus!
