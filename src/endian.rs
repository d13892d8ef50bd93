//! Bit numbering conventions within a byte.
//!
//! A convention fixes which bit of a byte is read first. Both conventions are
//! described by the same three shift primitives, so that one extraction
//! algorithm serves either of them.
use vstd::prelude::*;

verus! {

/// The order in which the bits of a byte are read.
pub trait BitEndianness {
    /// Bit `i` of `b` in reading order (`i == 0` is read first), for `i < 8`.
    spec fn bit(b: u8, i: u8) -> bool;

    /// Bit `i` in reading order of a `count`-bit value `v` held in the low
    /// `count` bits of a byte, for `i < count`.
    spec fn value_bit(v: u8, count: u8, i: u8) -> bool;

    /// What [`Self::shift_msb`] returns.
    spec fn spec_shift_msb(b: u8, n: u8) -> u8;

    /// What [`Self::shift_lsb`] returns.
    spec fn spec_shift_lsb(b: u8, n: u8) -> u8;

    /// What [`Self::align_right`] returns.
    spec fn spec_align_right(b: u8, count: u8) -> u8;

    /// Drops the first `n` bits of `b` in reading order; later bits move up.
    fn shift_msb(b: u8, n: u8) -> (r: u8)
        requires
            n <= 8,
        ensures
            r == Self::spec_shift_msb(b, n),
    ;

    /// Moves the bits of `b` back by `n` places in reading order; the last
    /// `n` bits drop off and the first `n` places become zero.
    fn shift_lsb(b: u8, n: u8) -> (r: u8)
        requires
            n <= 8,
        ensures
            r == Self::spec_shift_lsb(b, n),
    ;

    /// Moves a `count`-bit result that stands in the last `count` places in
    /// reading order into the low `count` bits of the byte.
    fn align_right(b: u8, count: u8) -> (r: u8)
        requires
            count <= 8,
        ensures
            r == Self::spec_align_right(b, count),
    ;

    /// The mask built from a full byte picks out exactly bit `off`.
    proof fn lemma_single_bit(b: u8, off: u8)
        requires
            off < 8,
        ensures
            ((b & Self::spec_shift_lsb(Self::spec_shift_msb(0xff, 7), off)) != 0) == Self::bit(
                b,
                off,
            ),
    ;

    /// After dropping `start` bits, bit `i` is former bit `start + i`.
    proof fn lemma_shift_msb_bit(b: u8, start: u8, i: u8)
        requires
            start < 8,
            i < 8 - start,
        ensures
            Self::bit(Self::spec_shift_msb(b, start), i) == Self::bit(b, (start + i) as u8),
    ;

    /// Joining the rest of `p` after `off` bits with the start of `c`.
    proof fn lemma_join_bit(p: u8, c: u8, off: u8, i: u8)
        requires
            0 < off < 8,
            i < 8,
        ensures
            Self::bit(Self::spec_shift_msb(p, off) | Self::spec_shift_lsb(c, (8 - off) as u8), i)
                == if off + i < 8 {
                Self::bit(p, (off + i) as u8)
            } else {
                Self::bit(c, (off + i - 8) as u8)
            },
    ;

    /// Narrowing a byte to its first `count` bits keeps them in order.
    proof fn lemma_narrow_bit(m: u8, count: u8, i: u8)
        requires
            0 < count <= 8,
            i < count,
        ensures
            Self::value_bit(
                Self::spec_align_right(Self::spec_shift_lsb(m, (8 - count) as u8), count),
                count,
                i,
            ) == Self::bit(m, i),
    ;

    /// A narrowed value fits in `count` bits.
    proof fn lemma_narrow_bound(m: u8, count: u8)
        requires
            count <= 8,
        ensures
            (Self::spec_align_right(Self::spec_shift_lsb(m, (8 - count) as u8), count) as u16) < (
            1u16 << count),
    ;

    /// A byte is fixed by its eight bits.
    proof fn lemma_bits_determine(a: u8, b: u8)
        requires
            forall|i: u8| i < 8 ==> Self::bit(a, i) == Self::bit(b, i),
        ensures
            a == b,
    ;
}

/// Most significant bit first.
pub struct BE;

/// Least significant bit first.
pub struct LE;

impl BitEndianness for BE {
    open spec fn bit(b: u8, i: u8) -> bool {
        (b >> ((7 - i) as u8)) & 1 == 1
    }

    open spec fn value_bit(v: u8, count: u8, i: u8) -> bool {
        (v >> ((count - 1 - i) as u8)) & 1 == 1
    }

    open spec fn spec_shift_msb(b: u8, n: u8) -> u8 {
        if n >= 8 {
            0
        } else {
            (b << n) as u8
        }
    }

    open spec fn spec_shift_lsb(b: u8, n: u8) -> u8 {
        if n >= 8 {
            0
        } else {
            (b >> n) as u8
        }
    }

    open spec fn spec_align_right(b: u8, count: u8) -> u8 {
        b
    }

    fn shift_msb(b: u8, n: u8) -> (r: u8) {
        if n >= 8 {
            0
        } else {
            b << n
        }
    }

    fn shift_lsb(b: u8, n: u8) -> (r: u8) {
        if n >= 8 {
            0
        } else {
            b >> n
        }
    }

    fn align_right(b: u8, count: u8) -> (r: u8) {
        b
    }

    proof fn lemma_single_bit(b: u8, off: u8) {
        assert(((b & ((0xffu8 << 7u8) as u8 >> off) as u8) != 0) == ((b >> ((7 - off) as u8))
            & 1 == 1)) by (bit_vector)
            requires
                off < 8,
        ;
    }

    proof fn lemma_shift_msb_bit(b: u8, start: u8, i: u8) {
        assert((((b << start) as u8) >> ((7 - i) as u8)) & 1 == (b >> ((7 - ((start + i) as u8))
            as u8)) & 1) by (bit_vector)
            requires
                start < 8,
                i < 8 - start,
        ;
    }

    proof fn lemma_join_bit(p: u8, c: u8, off: u8, i: u8) {
        let m = ((p << off) as u8 | (c >> ((8 - off) as u8)) as u8) as u8;
        if off + i < 8 {
            assert((m >> ((7 - i) as u8)) & 1 == (p >> ((7 - ((off + i) as u8)) as u8)) & 1)
                by (bit_vector)
                requires
                    0 < off < 8,
                    i < 8,
                    off + i < 8,
                    m == ((p << off) as u8 | (c >> ((8 - off) as u8)) as u8) as u8,
            ;
        } else {
            assert((m >> ((7 - i) as u8)) & 1 == (c >> ((7 - ((off + i - 8) as u8)) as u8)) & 1)
                by (bit_vector)
                requires
                    0 < off < 8,
                    i < 8,
                    off + i >= 8,
                    m == ((p << off) as u8 | (c >> ((8 - off) as u8)) as u8) as u8,
            ;
        }
    }

    proof fn lemma_narrow_bit(m: u8, count: u8, i: u8) {
        assert((((m >> ((8 - count) as u8)) as u8) >> ((count - 1 - i) as u8)) & 1 == (m >> ((7
            - i) as u8)) & 1) by (bit_vector)
            requires
                0 < count <= 8,
                i < count,
        ;
    }

    proof fn lemma_narrow_bound(m: u8, count: u8) {
        if count > 0 {
            assert((((m >> ((8 - count) as u8)) as u8) as u16) < (1u16 << count)) by (bit_vector)
                requires
                    0 < count <= 8,
            ;
        } else {
            assert((0u8 as u16) < (1u16 << 0u8)) by (bit_vector);
        }
    }

    proof fn lemma_bits_determine(a: u8, b: u8) {
        assert(Self::bit(a, 0) == Self::bit(b, 0));
        assert(Self::bit(a, 1) == Self::bit(b, 1));
        assert(Self::bit(a, 2) == Self::bit(b, 2));
        assert(Self::bit(a, 3) == Self::bit(b, 3));
        assert(Self::bit(a, 4) == Self::bit(b, 4));
        assert(Self::bit(a, 5) == Self::bit(b, 5));
        assert(Self::bit(a, 6) == Self::bit(b, 6));
        assert(Self::bit(a, 7) == Self::bit(b, 7));
        assert(a == b) by (bit_vector)
            requires
                ((a >> 7u8) & 1 == 1) == ((b >> 7u8) & 1 == 1),
                ((a >> 6u8) & 1 == 1) == ((b >> 6u8) & 1 == 1),
                ((a >> 5u8) & 1 == 1) == ((b >> 5u8) & 1 == 1),
                ((a >> 4u8) & 1 == 1) == ((b >> 4u8) & 1 == 1),
                ((a >> 3u8) & 1 == 1) == ((b >> 3u8) & 1 == 1),
                ((a >> 2u8) & 1 == 1) == ((b >> 2u8) & 1 == 1),
                ((a >> 1u8) & 1 == 1) == ((b >> 1u8) & 1 == 1),
                ((a >> 0u8) & 1 == 1) == ((b >> 0u8) & 1 == 1),
        ;
    }
}

impl BitEndianness for LE {
    open spec fn bit(b: u8, i: u8) -> bool {
        (b >> i) & 1 == 1
    }

    open spec fn value_bit(v: u8, count: u8, i: u8) -> bool {
        (v >> i) & 1 == 1
    }

    open spec fn spec_shift_msb(b: u8, n: u8) -> u8 {
        if n >= 8 {
            0
        } else {
            (b >> n) as u8
        }
    }

    open spec fn spec_shift_lsb(b: u8, n: u8) -> u8 {
        if n >= 8 {
            0
        } else {
            (b << n) as u8
        }
    }

    open spec fn spec_align_right(b: u8, count: u8) -> u8 {
        if count == 0 {
            0
        } else {
            (b >> ((8 - count) as u8)) as u8
        }
    }

    fn shift_msb(b: u8, n: u8) -> (r: u8) {
        if n >= 8 {
            0
        } else {
            b >> n
        }
    }

    fn shift_lsb(b: u8, n: u8) -> (r: u8) {
        if n >= 8 {
            0
        } else {
            b << n
        }
    }

    fn align_right(b: u8, count: u8) -> (r: u8) {
        if count == 0 {
            0
        } else {
            b >> (8 - count)
        }
    }

    proof fn lemma_single_bit(b: u8, off: u8) {
        assert(((b & (((0xffu8 >> 7u8) as u8) << off) as u8) != 0) == ((b >> off) & 1 == 1))
            by (bit_vector)
            requires
                off < 8,
        ;
    }

    proof fn lemma_shift_msb_bit(b: u8, start: u8, i: u8) {
        assert((((b >> start) as u8) >> i) & 1 == (b >> ((start + i) as u8)) & 1) by (bit_vector)
            requires
                start < 8,
                i < 8 - start,
        ;
    }

    proof fn lemma_join_bit(p: u8, c: u8, off: u8, i: u8) {
        let m = ((p >> off) as u8 | (c << ((8 - off) as u8)) as u8) as u8;
        if off + i < 8 {
            assert((m >> i) & 1 == (p >> ((off + i) as u8)) & 1) by (bit_vector)
                requires
                    0 < off < 8,
                    i < 8,
                    off + i < 8,
                    m == ((p >> off) as u8 | (c << ((8 - off) as u8)) as u8) as u8,
            ;
        } else {
            assert((m >> i) & 1 == (c >> ((off + i - 8) as u8)) & 1) by (bit_vector)
                requires
                    0 < off < 8,
                    i < 8,
                    off + i >= 8,
                    m == ((p >> off) as u8 | (c << ((8 - off) as u8)) as u8) as u8,
            ;
        }
    }

    proof fn lemma_narrow_bit(m: u8, count: u8, i: u8) {
        assert((((((m << ((8 - count) as u8)) as u8) >> ((8 - count) as u8)) as u8) >> i) & 1 == (m
            >> i) & 1) by (bit_vector)
            requires
                0 < count <= 8,
                i < count,
        ;
    }

    proof fn lemma_narrow_bound(m: u8, count: u8) {
        if count > 0 {
            assert((((((m << ((8 - count) as u8)) as u8) >> ((8 - count) as u8)) as u8) as u16) < (1u16
                << count)) by (bit_vector)
                requires
                    0 < count <= 8,
            ;
        } else {
            assert((0u8 as u16) < (1u16 << 0u8)) by (bit_vector);
        }
    }

    proof fn lemma_bits_determine(a: u8, b: u8) {
        assert(Self::bit(a, 0) == Self::bit(b, 0));
        assert(Self::bit(a, 1) == Self::bit(b, 1));
        assert(Self::bit(a, 2) == Self::bit(b, 2));
        assert(Self::bit(a, 3) == Self::bit(b, 3));
        assert(Self::bit(a, 4) == Self::bit(b, 4));
        assert(Self::bit(a, 5) == Self::bit(b, 5));
        assert(Self::bit(a, 6) == Self::bit(b, 6));
        assert(Self::bit(a, 7) == Self::bit(b, 7));
        assert(a == b) by (bit_vector)
            requires
                ((a >> 7u8) & 1 == 1) == ((b >> 7u8) & 1 == 1),
                ((a >> 6u8) & 1 == 1) == ((b >> 6u8) & 1 == 1),
                ((a >> 5u8) & 1 == 1) == ((b >> 5u8) & 1 == 1),
                ((a >> 4u8) & 1 == 1) == ((b >> 4u8) & 1 == 1),
                ((a >> 3u8) & 1 == 1) == ((b >> 3u8) & 1 == 1),
                ((a >> 2u8) & 1 == 1) == ((b >> 2u8) & 1 == 1),
                ((a >> 1u8) & 1 == 1) == ((b >> 1u8) & 1 == 1),
                ((a >> 0u8) & 1 == 1) == ((b >> 0u8) & 1 == 1),
        ;
    }
}

} // verus!
