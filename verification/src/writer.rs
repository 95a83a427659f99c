//! The output sink: collects the written HTML bytes and records whether
//! they have been flushed.

use vstd::prelude::*;

verus! {

/// A byte sink. `bytes` is everything written so far; `flushed` says that
/// the sink has been flushed since the last write.
pub trait Writer: Sized {
    spec fn bytes(&self) -> Seq<u8>;

    spec fn flushed(&self) -> bool;

    /// Appends `data` and reports how many bytes were taken (all of them).
    fn write(&mut self, data: &[u8]) -> (n: usize)
        ensures
            final(self).bytes() == old(self).bytes() + data@,
            final(self).flushed() == old(self).flushed(),
            n == data@.len(),
    ;

    /// Makes the written bytes durable; what was written is unchanged.
    fn flush(&mut self)
        ensures
            final(self).bytes() == old(self).bytes(),
            final(self).flushed(),
    ;
}

/// An in-memory [`Writer`]: the written bytes accumulate in a buffer that
/// the owner takes out at the end of a run.
pub struct WriterImpl {
    buf: Vec<u8>,
    flushed: bool,
}

impl WriterImpl {
    pub fn new() -> (r: Self)
        ensures
            r.bytes() == Seq::<u8>::empty(),
            !r.flushed(),
    {
        let r = WriterImpl { buf: Vec::new(), flushed: false };
        proof {
            assert(r.bytes() =~= Seq::<u8>::empty());
        }
        r
    }

    /// The bytes written so far.
    pub fn output(&self) -> (r: &Vec<u8>)
        ensures
            r@ == self.bytes(),
    {
        &self.buf
    }

    /// Whether the sink has been flushed since the last write.
    pub fn is_flushed(&self) -> (b: bool)
        ensures
            b == self.flushed(),
    {
        self.flushed
    }

    /// Gives up the sink and hands its contents out.
    pub fn into_inner(self) -> (r: Vec<u8>)
        ensures
            r@ == self.bytes(),
    {
        self.buf
    }
}

impl Writer for WriterImpl {
    closed spec fn bytes(&self) -> Seq<u8> {
        self.buf@
    }

    closed spec fn flushed(&self) -> bool {
        self.flushed
    }

    fn write(&mut self, data: &[u8]) -> (n: usize)
    {
        let len = data.len();
        let mut i: usize = 0;
        while i < len
            invariant
                len == data@.len(),
                i <= len,
                self.buf@ == old(self).buf@ + data@.take(i as int),
                self.flushed == old(self).flushed,
            decreases len - i,
        {
            self.buf.push(data[i]);
            i = i + 1;
            proof {
                assert(data@.take(i as int) =~= data@.take(i - 1).push(data@[i - 1]));
                assert(old(self).buf@ + data@.take(i - 1) + seq![data@[i - 1]] =~= old(
                    self,
                ).buf@ + data@.take(i as int));
            }
        }
        proof {
            assert(data@.take(len as int) =~= data@);
        }
        len
    }

    fn flush(&mut self)
    {
        self.flushed = true;
    }
}

} // verus!
