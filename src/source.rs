//! The byte source that a bit reader pulls from.
use vstd::prelude::*;

verus! {

/// A source of bytes, read in chunks that may come short.
///
/// `bytes` is what the source will still yield, in order. A read either hands
/// out a prefix of it or fails with nothing consumed.
pub trait ByteSource {
    type Error;

    /// The bytes this source has yet to yield.
    spec fn bytes(&self) -> Seq<u8>;

    /// Reads up to `buf.len()` bytes into the front of `buf` and returns how
    /// many were read. `Ok(0)` for a non-empty `buf` means the source is
    /// exhausted. Bytes of `buf` past the count are left as they were.
    fn read(&mut self, buf: &mut [u8]) -> (r: Result<usize, Self::Error>)
        ensures
            final(buf)@.len() == old(buf)@.len(),
            match r {
                Ok(n) => {
                    &&& n <= old(buf)@.len()
                    &&& n <= old(self).bytes().len()
                    &&& final(buf)@.take(n as int) == old(self).bytes().take(n as int)
                    &&& final(buf)@.skip(n as int) == old(buf)@.skip(n as int)
                    &&& final(self).bytes() == old(self).bytes().skip(n as int)
                    &&& (n == 0 ==> old(buf)@.len() == 0 || old(self).bytes().len() == 0)
                },
                Err(_) => final(self).bytes() == old(self).bytes(),
            },
    ;
}

/// Bytes held in memory; each read consumes from the front.
impl<'a> ByteSource for &'a [u8] {
    type Error = ();

    open spec fn bytes(&self) -> Seq<u8> {
        (**self)@
    }

    fn read(&mut self, buf: &mut [u8]) -> (r: Result<usize, ()>)
        ensures
            r is Ok,
            r matches Ok(n) && n == if old(buf)@.len() < old(self)@.len() {
                old(buf)@.len()
            } else {
                old(self)@.len()
            },
    {
        let n: usize = if buf.len() < self.len() {
            buf.len()
        } else {
            self.len()
        };
        let ghost src = (**self)@;
        let mut i: usize = 0;
        while i < n
            invariant
                n <= buf@.len(),
                n <= src.len(),
                src == (**self)@,
                i <= n,
                buf@.len() == old(buf)@.len(),
                forall|j: int| 0 <= j < i ==> buf@[j] == src[j],
                forall|j: int| n <= j < buf@.len() ==> buf@[j] == old(buf)@[j],
            decreases n - i,
        {
            buf[i] = self[i];
            i = i + 1;
        }
        *self = vstd::slice::slice_subrange(*self, n, self.len());
        assert(buf@.take(n as int) =~= src.take(n as int));
        assert(buf@.skip(n as int) =~= old(buf)@.skip(n as int));
        Ok(n)
    }
}

/// Declares `std::io::Empty` so that it can serve as a source. Nothing is
/// assumed of it but its type: its reads below are this crate's own.
#[verifier::external_type_specification]
#[verifier::external_body]
pub struct ExEmpty(std::io::Empty);

/// A source that is always exhausted.
impl ByteSource for std::io::Empty {
    type Error = ();

    open spec fn bytes(&self) -> Seq<u8> {
        Seq::empty()
    }

    fn read(&mut self, buf: &mut [u8]) -> (r: Result<usize, ()>)
        ensures
            r == Ok::<usize, ()>(0),
    {
        Ok(0)
    }
}

} // verus!
