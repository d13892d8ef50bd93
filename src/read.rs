//! Bit-level reading on top of a byte source.
use vstd::prelude::*;

use crate::bits::{byte_bits, tail_bits, value_bits};
use crate::bits::{lemma_byte_bits_first, lemma_byte_bits_skip, lemma_byte_bits_take};
use crate::bits::lemma_window_skip_bytes;
use crate::endian::{BitEndianness, BE, LE};
use crate::source::ByteSource;

verus! {

/// Reads most significant bits first.
pub type BEBitReader<R> = BitReader<BE, R>;

/// Reads least significant bits first.
pub type LEBitReader<R> = BitReader<LE, R>;

/// Why a read could not be served.
#[derive(Debug)]
pub enum ReadError<S> {
    /// The source ran out before a byte that was needed.
    UnexpectedEof,
    /// The source failed.
    Source(S),
}

/// Adds bit-level reading to a byte source.
///
/// A partly read byte is kept in a one-byte buffer; bytes are pulled from the
/// source only when the buffer is used up. The buffer is there for
/// correctness, not speed.
pub struct BitReader<E: BitEndianness, R: ByteSource> {
    /// Data to read from.
    inner: R,
    /// Bits of `bit_buffer` already read, 0 <= `bit_offset` < 8.
    bit_offset: u8,
    /// The byte being read while the reader is not aligned.
    bit_buffer: u8,
    phantom: core::marker::PhantomData<E>,
}

impl<E: BitEndianness, R: ByteSource> BitReader<E, R> {
    /// The wrapped source.
    pub closed spec fn source(&self) -> R {
        self.inner
    }

    /// How many bits of the buffered byte have been read.
    pub closed spec fn bit_offset(&self) -> nat {
        self.bit_offset as nat
    }

    /// The buffered byte.
    pub closed spec fn buffered_byte(&self) -> u8 {
        self.bit_buffer
    }

    /// The reader after [`Self::align`]: the partial byte is gone.
    pub closed spec fn aligned(self) -> Self {
        BitReader { inner: self.inner, bit_offset: 0, bit_buffer: 0, phantom: self.phantom }
    }

    /// Fewer than eight bits of the buffered byte have been read.
    pub open spec fn wf(&self) -> bool {
        self.bit_offset() < 8
    }

    /// Bits of the buffered byte not read yet.
    pub open spec fn pending_bits(&self) -> Seq<bool> {
        if self.bit_offset() == 0 {
            Seq::empty()
        } else {
            tail_bits::<E>(self.buffered_byte(), self.bit_offset() as int)
        }
    }

    /// Every bit this reader will still yield, in order.
    pub open spec fn unread_bits(&self) -> Seq<bool> {
        self.pending_bits() + byte_bits::<E>(self.source().bytes())
    }

    /// Creates a reader over `inner`, aligned, with nothing read yet.
    pub fn new(inner: R) -> (r: Self)
        ensures
            r.wf(),
            r.source() == inner,
            r.bit_offset() == 0,
            r.unread_bits() == byte_bits::<E>(inner.bytes()),
    {
        let r = BitReader {
            inner,
            bit_offset: 0,
            bit_buffer: 0,
            phantom: core::marker::PhantomData,
        };
        assert(r.unread_bits() =~= byte_bits::<E>(inner.bytes()));
        r
    }

    /// Whether the reader stands on a byte boundary.
    pub fn is_aligned(&self) -> (r: bool)
        ensures
            r == (self.bit_offset() == 0),
    {
        self.bit_offset == 0
    }

    /// Goes to the next byte boundary, dropping the rest of a partly read
    /// byte.
    pub fn align(&mut self)
        ensures
            *final(self) == old(self).aligned(),
            final(self).wf(),
            final(self).bit_offset() == 0,
            final(self).source() == old(self).source(),
            final(self).unread_bits() == byte_bits::<E>(old(self).source().bytes()),
    {
        self.bit_offset = 0;
        self.bit_buffer = 0;
        assert(final(self).unread_bits() =~= byte_bits::<E>(old(self).source().bytes()));
    }

    /// The wrapped source.
    pub fn get_ref(&self) -> (r: &R)
        ensures
            *r == self.source(),
    {
        &self.inner
    }

    /// The wrapped source, for changes. Only an aligned reader hands it out:
    /// reading from the source under a partly read byte would tear the bit
    /// stream.
    pub fn get_mut(&mut self) -> (r: &mut R)
        requires
            old(self).bit_offset() == 0,
        ensures
            *r == old(self).source(),
            final(self).source() == *final(r),
            final(self).bit_offset() == old(self).bit_offset(),
            final(self).buffered_byte() == old(self).buffered_byte(),
    {
        &mut self.inner
    }

    /// The wrapped source, for changes, aligned or not. Reading from it while
    /// a byte is partly read makes later reads from this reader return bits
    /// out of order.
    pub fn get_mut_unchecked(&mut self) -> (r: &mut R)
        ensures
            *r == old(self).source(),
            final(self).source() == *final(r),
            final(self).bit_offset() == old(self).bit_offset(),
            final(self).buffered_byte() == old(self).buffered_byte(),
    {
        &mut self.inner
    }

    /// Gives the source back. The unread bits of a partly read byte are lost.
    pub fn into_inner(self) -> (r: R)
        ensures
            r == self.source(),
    {
        self.inner
    }

    /// Pulls the next byte of the source into the buffer.
    fn fill_buffer(&mut self) -> (r: Result<(), ReadError<R::Error>>)
        ensures
            final(self).bit_offset == old(self).bit_offset,
            match r {
                Ok(()) => {
                    &&& old(self).inner.bytes().len() > 0
                    &&& final(self).bit_buffer == old(self).inner.bytes()[0]
                    &&& final(self).inner.bytes() == old(self).inner.bytes().skip(1)
                },
                Err(e) => {
                    &&& final(self).bit_buffer == old(self).bit_buffer
                    &&& final(self).inner.bytes() == old(self).inner.bytes()
                    &&& (e is UnexpectedEof ==> old(self).inner.bytes().len() == 0)
                },
            },
    {
        let mut temp = [0u8; 1];
        match self.inner.read(&mut temp) {
            Ok(n) => {
                if n == 0 {
                    Err(ReadError::UnexpectedEof)
                } else {
                    assert(temp@.take(1)[0] == temp@[0]);
                    self.bit_buffer = temp[0];
                    Ok(())
                }
            },
            Err(e) => Err(ReadError::Source(e)),
        }
    }

    /// Reads one bit: `true` for 1, `false` for 0.
    pub fn read_bit(&mut self) -> (r: Result<bool, ReadError<R::Error>>)
        requires
            old(self).wf(),
        ensures
            final(self).wf(),
            match r {
                Ok(b) => {
                    &&& old(self).unread_bits().len() > 0
                    &&& b == old(self).unread_bits()[0]
                    &&& final(self).unread_bits() == old(self).unread_bits().skip(1)
                    &&& final(self).bit_offset() == (old(self).bit_offset() + 1) % 8
                },
                Err(e) => {
                    &&& final(self).unread_bits() == old(self).unread_bits()
                    &&& final(self).bit_offset() == old(self).bit_offset()
                    &&& final(self).source().bytes() == old(self).source().bytes()
                    &&& (e is UnexpectedEof ==> old(self).unread_bits().len() == 0)
                },
            },
            old(self).bit_offset() != 0 ==> r is Ok,
    {
        if self.is_aligned() {
            match self.fill_buffer() {
                Ok(()) => {},
                Err(e) => {
                    assert(final(self).unread_bits() =~= old(self).unread_bits());
                    return Err(e);
                },
            }
            proof {
                lemma_byte_bits_first::<E>(old(self).inner.bytes());
            }
        }
        let ghost window = tail_bits::<E>(self.bit_buffer, self.bit_offset as int) + byte_bits::<
            E,
        >(self.inner.bytes());
        assert(window =~= old(self).unread_bits());
        let mask = E::shift_lsb(E::shift_msb(0xff, 7), self.bit_offset);
        let val = self.bit_buffer & mask != 0;
        proof {
            E::lemma_single_bit(self.bit_buffer, self.bit_offset);
        }
        self.bit_offset = (self.bit_offset + 1) % 8;
        assert(final(self).unread_bits() =~= window.skip(1));
        Ok(val)
    }

    /// Reads `count` bits, at most 8, into the low `count` bits of the
    /// result; the other bits are zero. Reading no bits touches nothing.
    #[verifier::rlimit(30)]
    pub fn read_bits(&mut self, count: u8) -> (r: Result<u8, ReadError<R::Error>>)
        requires
            old(self).wf(),
            count <= 8,
        ensures
            final(self).wf(),
            match r {
                Ok(v) => {
                    &&& count <= old(self).unread_bits().len()
                    &&& value_bits::<E>(v, count) == old(self).unread_bits().take(count as int)
                    &&& (v as u16) < (1u16 << count)
                    &&& final(self).unread_bits() == old(self).unread_bits().skip(count as int)
                    &&& final(self).bit_offset() == (old(self).bit_offset() + count) % 8
                },
                Err(e) => {
                    &&& final(self).unread_bits() == old(self).unread_bits()
                    &&& final(self).bit_offset() == old(self).bit_offset()
                    &&& final(self).source().bytes() == old(self).source().bytes()
                    &&& (e is UnexpectedEof ==> old(self).unread_bits().len() < count)
                },
            },
            count == 0 ==> r is Ok,
            old(self).bit_offset() != 0 && old(self).bit_offset() + count <= 8 ==> r is Ok,
    {
        if count == 0 {
            assert(old(self).unread_bits().skip(0) =~= old(self).unread_bits());
            assert(value_bits::<E>(0, 0) =~= old(self).unread_bits().take(0));
            assert((0u8 as u16) < (1u16 << 0u8)) by (bit_vector);
            return Ok(0);
        }
        if self.is_aligned() {
            match self.fill_buffer() {
                Ok(()) => {},
                Err(e) => {
                    assert(final(self).unread_bits() =~= old(self).unread_bits());
                    return Err(e);
                },
            }
            proof {
                lemma_byte_bits_first::<E>(old(self).inner.bytes());
            }
        }
        let start = self.bit_offset;
        let end = start + count;
        let ghost first = self.bit_buffer;
        let ghost rest = self.inner.bytes();
        let ghost window = tail_bits::<E>(first, start as int) + byte_bits::<E>(rest);
        assert(window =~= old(self).unread_bits());
        let mut res = E::shift_msb(self.bit_buffer, start);
        if end > 8 {
            match self.fill_buffer() {
                Ok(()) => {},
                Err(e) => {
                    return Err(e);
                },
            }
            res = res | E::shift_lsb(self.bit_buffer, 8 - start);
            res = E::shift_lsb(res, 8 - count);
            res = E::align_right(res, count);
            proof {
                lemma_field_across::<E>(first, start, count, rest);
                lemma_window_skip_bytes::<E>(first, start as int, rest, 1);
            }
        } else {
            res = E::shift_lsb(res, 8 - count);
            res = E::align_right(res, count);
            proof {
                lemma_field_within::<E>(first, start, count, rest);
                lemma_window_skip_within::<E>(first, start as int, count as int, rest);
            }
        }
        self.bit_offset = end % 8;
        assert(window.skip(count as int) =~= final(self).unread_bits());
        Ok(res)
    }

    /// Reads bytes as the source does, with every byte made of the next
    /// eight unread bits. On an aligned reader this is the source's own read;
    /// otherwise each byte is the rest of one source byte joined with the
    /// start of the next. The place within the byte does not change.
    pub fn read(&mut self, buf: &mut [u8]) -> (r: Result<usize, ReadError<R::Error>>)
        requires
            old(self).wf(),
        ensures
            final(self).wf(),
            final(self).bit_offset() == old(self).bit_offset(),
            final(buf)@.len() == old(buf)@.len(),
            match r {
                Ok(n) => {
                    &&& n <= old(buf)@.len()
                    &&& n <= old(self).source().bytes().len()
                    &&& byte_bits::<E>(final(buf)@.take(n as int)) == old(self).unread_bits().take(
                        8 * n,
                    )
                    &&& final(buf)@.skip(n as int) == old(buf)@.skip(n as int)
                    &&& final(self).unread_bits() == old(self).unread_bits().skip(8 * n)
                    &&& (n == 0 ==> old(buf)@.len() == 0 || old(self).source().bytes().len() == 0)
                    &&& (old(self).bit_offset() == 0 ==> final(buf)@.take(n as int) == old(
                        self,
                    ).source().bytes().take(n as int))
                },
                Err(e) => {
                    &&& e is Source
                    &&& final(self).unread_bits() == old(self).unread_bits()
                    &&& final(self).source().bytes() == old(self).source().bytes()
                },
            },
    {
        let ghost src = self.inner.bytes();
        let count_read = match self.inner.read(buf) {
            Ok(n) => n,
            Err(e) => {
                assert(final(self).unread_bits() =~= old(self).unread_bits());
                return Err(ReadError::Source(e));
            },
        };
        let ghost filled = buf@;
        if self.is_aligned() {
            proof {
                lemma_byte_bits_take::<E>(src, count_read as int);
                lemma_byte_bits_skip::<E>(src, count_read as int);
                assert(old(self).unread_bits() =~= byte_bits::<E>(src));
                assert(final(self).unread_bits() =~= byte_bits::<E>(src.skip(count_read as int)));
            }
            return Ok(count_read);
        }
        let off = self.bit_offset;
        let ghost first = self.bit_buffer;
        let mut last_byte = self.bit_buffer;
        let mut i: usize = 0;
        while i < count_read
            invariant
                0 < off < 8,
                count_read <= filled.len(),
                buf@.len() == filled.len(),
                i <= count_read,
                last_byte == if i == 0 {
                    first
                } else {
                    filled[i - 1]
                },
                forall|j: int| i <= j < filled.len() ==> buf@[j] == filled[j],
                forall|j: int|
                    0 <= j < i ==> buf@[j] == (E::spec_shift_msb(
                        if j == 0 {
                            first
                        } else {
                            filled[j - 1]
                        },
                        off,
                    ) | E::spec_shift_lsb(filled[j], (8 - off) as u8)),
            decreases count_read - i,
        {
            let current_byte = buf[i];
            buf[i] = E::shift_msb(last_byte, off) | E::shift_lsb(current_byte, 8 - off);
            last_byte = current_byte;
            i = i + 1;
        }
        self.bit_buffer = last_byte;
        proof {
            lemma_shifted_bytes::<E>(first, off, src, filled, buf@, count_read as int);
            if count_read > 0 {
                assert(filled.take(count_read as int)[count_read - 1] == src.take(
                    count_read as int,
                )[count_read - 1]);
                lemma_window_skip_bytes::<E>(first, off as int, src, count_read as int);
            } else {
                assert(src.skip(0) =~= src);
            }
            assert(old(self).unread_bits() =~= tail_bits::<E>(first, off as int) + byte_bits::<E>(
                src,
            ));
            assert(final(self).unread_bits() =~= old(self).unread_bits().skip(8 * count_read));
        }
        Ok(count_read)
    }
}

/// Aligning twice is the same as aligning once, and an aligned reader stands
/// on a byte boundary.
pub proof fn lemma_align_idempotent<E: BitEndianness, R: ByteSource>(r: BitReader<E, R>)
    ensures
        r.aligned().aligned() == r.aligned(),
        r.aligned().bit_offset() == 0,
{
}

/// From a byte boundary, reading `count` bits and then the other
/// `8 - count` bits gives the eight bits of the next byte, in the order in
/// which single-bit reads give them.
pub proof fn lemma_split_byte_read<E: BitEndianness, R: ByteSource>(
    r: BitReader<E, R>,
    count: u8,
    v1: u8,
    r1: BitReader<E, R>,
    v2: u8,
)
    requires
        r.wf(),
        r.bit_offset() == 0,
        r.source().bytes().len() > 0,
        count <= 8,
        value_bits::<E>(v1, count) == r.unread_bits().take(count as int),
        r1.unread_bits() == r.unread_bits().skip(count as int),
        value_bits::<E>(v2, (8 - count) as u8) == r1.unread_bits().take(8 - count),
    ensures
        value_bits::<E>(v1, count) + value_bits::<E>(v2, (8 - count) as u8) == tail_bits::<E>(
            r.source().bytes()[0],
            0,
        ),
        tail_bits::<E>(r.source().bytes()[0], 0) == r.unread_bits().take(8),
{
    let s = r.source().bytes();
    lemma_byte_bits_first::<E>(s);
    assert(r.unread_bits() =~= byte_bits::<E>(s));
    assert(r.unread_bits().take(8) =~= tail_bits::<E>(s[0], 0));
    assert(value_bits::<E>(v1, count) + value_bits::<E>(v2, (8 - count) as u8) =~= tail_bits::<E>(
        s[0],
        0,
    ));
}

/// A reader over `src` that has consumed `c` bits, by any reads, holds a
/// source that has moved on by whole bytes, up to the byte that holds bit
/// `c`: unwrapping it loses the rest of that byte and nothing else.
pub proof fn lemma_unwrap_position<E: BitEndianness, R: ByteSource>(
    src: R,
    r: BitReader<E, R>,
    c: nat,
)
    requires
        r.wf(),
        c <= 8 * src.bytes().len(),
        r.unread_bits() == byte_bits::<E>(src.bytes()).skip(c as int),
    ensures
        r.source().bytes() == src.bytes().skip(((c + 7) / 8) as int),
        r.pending_bits().len() == (8 - c % 8) % 8,
{
    let s = src.bytes();
    let rest = r.source().bytes();
    let p = r.pending_bits().len();
    let whole = (c + 7) / 8;
    assert(p < 8 && (p == 0 <==> r.bit_offset() == 0));
    assert(p + 8 * rest.len() == 8 * s.len() - c) by {
        assert(r.unread_bits().len() == p + 8 * rest.len());
    }
    assert(whole <= s.len() && p + c == 8 * whole && p == (8 - c % 8) % 8) by (nonlinear_arith)
        requires
            p < 8,
            p + 8 * rest.len() == 8 * s.len() - c,
            whole == (c + 7) / 8,
            c <= 8 * s.len(),
    ;
    assert(byte_bits::<E>(rest) =~= r.unread_bits().skip(p as int));
    assert(byte_bits::<E>(s).skip(c as int).skip(p as int) =~= byte_bits::<E>(s).skip(
        (8 * whole) as int,
    ));
    lemma_byte_bits_skip::<E>(s, whole as int);
    crate::bits::lemma_bytes_from_bits_round_trip::<E>(rest);
    crate::bits::lemma_bytes_from_bits_round_trip::<E>(s.skip(whole as int));
}

/// Consuming bits from within the tail of a byte.
proof fn lemma_window_skip_within<E: BitEndianness>(b: u8, start: int, count: int, s: Seq<u8>)
    requires
        0 <= start,
        0 <= count,
        start + count <= 8,
    ensures
        (tail_bits::<E>(b, start) + byte_bits::<E>(s)).skip(count) == tail_bits::<E>(
            b,
            start + count,
        ) + byte_bits::<E>(s),
{
    assert((tail_bits::<E>(b, start) + byte_bits::<E>(s)).skip(count) =~= tail_bits::<E>(
        b,
        start + count,
    ) + byte_bits::<E>(s));
}

/// The bits that the extraction takes from one byte, when the field ends
/// within it.
proof fn lemma_field_within<E: BitEndianness>(b: u8, start: u8, count: u8, s: Seq<u8>)
    requires
        0 < count,
        start + count <= 8,
    ensures
        ({
            let res = E::spec_align_right(
                E::spec_shift_lsb(E::spec_shift_msb(b, start), (8 - count) as u8),
                count,
            );
            &&& value_bits::<E>(res, count) == (tail_bits::<E>(b, start as int) + byte_bits::<E>(
                s,
            )).take(count as int)
            &&& (res as u16) < (1u16 << count)
        }),
{
    let window = tail_bits::<E>(b, start as int) + byte_bits::<E>(s);
    let m = E::spec_shift_msb(b, start);
    let res = E::spec_align_right(E::spec_shift_lsb(m, (8 - count) as u8), count);
    assert forall|i: int| 0 <= i < count implies #[trigger] value_bits::<E>(res, count)[i]
        == window[i] by {
        E::lemma_narrow_bit(m, count, i as u8);
        E::lemma_shift_msb_bit(b, start, i as u8);
    }
    assert(value_bits::<E>(res, count) =~= window.take(count as int));
    E::lemma_narrow_bound(m, count);
}

/// The bits that the extraction takes from a byte and the next one, when the
/// field runs past the end of the first.
proof fn lemma_field_across<E: BitEndianness>(b: u8, start: u8, count: u8, s: Seq<u8>)
    requires
        count <= 8,
        start < 8,
        start + count > 8,
        s.len() > 0,
    ensures
        ({
            let m = E::spec_shift_msb(b, start) | E::spec_shift_lsb(s[0], (8 - start) as u8);
            let res = E::spec_align_right(E::spec_shift_lsb(m, (8 - count) as u8), count);
            &&& value_bits::<E>(res, count) == (tail_bits::<E>(b, start as int) + byte_bits::<E>(
                s,
            )).take(count as int)
            &&& (res as u16) < (1u16 << count)
        }),
{
    let window = tail_bits::<E>(b, start as int) + byte_bits::<E>(s);
    let m = E::spec_shift_msb(b, start) | E::spec_shift_lsb(s[0], (8 - start) as u8);
    let res = E::spec_align_right(E::spec_shift_lsb(m, (8 - count) as u8), count);
    lemma_byte_bits_first::<E>(s);
    assert forall|i: int| 0 <= i < count implies #[trigger] value_bits::<E>(res, count)[i]
        == window[i] by {
        E::lemma_narrow_bit(m, count, i as u8);
        E::lemma_join_bit(b, s[0], start, i as u8);
    }
    assert(value_bits::<E>(res, count) =~= window.take(count as int));
    E::lemma_narrow_bound(m, count);
}

/// Bytes made by joining the rest of each byte after `off` bits with the start
/// of the next carry the bits of the window in order.
proof fn lemma_shifted_bytes<E: BitEndianness>(
    first: u8,
    off: u8,
    src: Seq<u8>,
    filled: Seq<u8>,
    out: Seq<u8>,
    n: int,
)
    requires
        0 < off < 8,
        0 <= n <= src.len(),
        n <= filled.len(),
        out.len() == filled.len(),
        filled.take(n) == src.take(n),
        forall|j: int|
            0 <= j < n ==> out[j] == (E::spec_shift_msb(
                if j == 0 {
                    first
                } else {
                    filled[j - 1]
                },
                off,
            ) | E::spec_shift_lsb(filled[j], (8 - off) as u8)),
    ensures
        byte_bits::<E>(out.take(n)) == (tail_bits::<E>(first, off as int) + byte_bits::<E>(
            src,
        )).take(8 * n),
{
    let window = tail_bits::<E>(first, off as int) + byte_bits::<E>(src);
    let lhs = byte_bits::<E>(out.take(n));
    assert(8 * n <= 8 * src.len()) by (nonlinear_arith)
        requires
            n <= src.len(),
    ;
    assert forall|j: int| 0 <= j < n implies filled[j] == src[j] by {
        assert(filled.take(n)[j] == src.take(n)[j]);
        assert(filled.take(n)[j] == filled[j]);
        assert(src.take(n)[j] == src[j]);
    }
    assert forall|k: int| 0 <= k < 8 * n implies #[trigger] lhs[k] == window[k] by {
        let j = k / 8;
        let i = k % 8;
        assert(k == 8 * j + i && 0 <= i < 8 && 0 <= j < n) by (nonlinear_arith)
            requires
                0 <= k < 8 * n,
                j == k / 8,
                i == k % 8,
        ;
        assert(filled[j] == src[j]);
        if j > 0 {
            assert(filled[j - 1] == src[j - 1]);
        }
        let prev = if j == 0 {
            first
        } else {
            filled[j - 1]
        };
        E::lemma_join_bit(prev, filled[j], off, i as u8);
        if off + i < 8 {
            if j > 0 {
                crate::bits::lemma_byte_bits_index::<E>(src, j - 1, off + i);
            }
        } else {
            crate::bits::lemma_byte_bits_index::<E>(src, j, off + i - 8);
        }
    }
    assert(lhs =~= window.take(8 * n));
}

} // verus!
