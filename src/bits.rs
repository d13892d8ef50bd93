//! Bit sequences read out of bytes, and how they are put back together.
use vstd::prelude::*;

use crate::endian::BitEndianness;

verus! {

/// The bits of `s` in reading order, eight per byte.
pub open spec fn byte_bits<E: BitEndianness>(s: Seq<u8>) -> Seq<bool> {
    Seq::new(8 * s.len(), |k: int| E::bit(s[k / 8], (k % 8) as u8))
}

/// The bits of `b` from place `from` to the end of the byte.
pub open spec fn tail_bits<E: BitEndianness>(b: u8, from: int) -> Seq<bool> {
    Seq::new((8 - from) as nat, |k: int| E::bit(b, (from + k) as u8))
}

/// The `count` bits of a value held in the low `count` bits of `v`, in
/// reading order.
pub open spec fn value_bits<E: BitEndianness>(v: u8, count: u8) -> Seq<bool> {
    Seq::new(count as nat, |i: int| E::value_bit(v, count, i as u8))
}

/// Whether the eight bits of `b` in reading order are the first eight of `bits`.
pub open spec fn byte_has_bits<E: BitEndianness>(b: u8, bits: Seq<bool>) -> bool {
    forall|i: u8| i < 8 ==> #[trigger] E::bit(b, i) == bits[i as int]
}

/// The byte whose eight bits in reading order are the first eight of `bits`.
pub open spec fn byte_from_bits<E: BitEndianness>(bits: Seq<bool>) -> u8 {
    choose|b: u8| byte_has_bits::<E>(b, bits)
}

/// Whole bytes put back together from a bit sequence, eight bits each.
pub open spec fn bytes_from_bits<E: BitEndianness>(bits: Seq<bool>) -> Seq<u8> {
    Seq::new(
        bits.len() / 8,
        |j: int| byte_from_bits::<E>(bits.subrange(8 * j, 8 * j + 8)),
    )
}

/// Reading a byte sequence bit by bit and putting the bits back together
/// eight at a time gives the byte sequence back.
pub proof fn lemma_bytes_from_bits_round_trip<E: BitEndianness>(s: Seq<u8>)
    ensures
        bytes_from_bits::<E>(byte_bits::<E>(s)) == s,
{
    let bits = byte_bits::<E>(s);
    assert forall|j: int| 0 <= j < s.len() implies #[trigger] byte_from_bits::<E>(
        bits.subrange(8 * j, 8 * j + 8),
    ) == s[j] by {
        let chunk = bits.subrange(8 * j, 8 * j + 8);
        assert forall|i: u8| i < 8 implies #[trigger] E::bit(s[j], i) == chunk[i as int] by {
            lemma_byte_bits_index::<E>(s, j, i as int);
        }
        assert(byte_has_bits::<E>(s[j], chunk));
        let c = byte_from_bits::<E>(chunk);
        assert(byte_has_bits::<E>(c, chunk));
        E::lemma_bits_determine(c, s[j]);
    }
    assert(bits.len() / 8 == s.len()) by (nonlinear_arith)
        requires
            bits.len() == 8 * s.len(),
    ;
    assert(bytes_from_bits::<E>(bits) =~= s);
}

/// Bit `i` of byte `j` stands at place `8 * j + i`.
pub proof fn lemma_byte_bits_index<E: BitEndianness>(s: Seq<u8>, j: int, i: int)
    requires
        0 <= j < s.len(),
        0 <= i < 8,
    ensures
        8 * j + i < byte_bits::<E>(s).len(),
        byte_bits::<E>(s)[8 * j + i] == E::bit(s[j], i as u8),
{
    assert((8 * j + i) / 8 == j && (8 * j + i) % 8 == i) by (nonlinear_arith)
        requires
            0 <= i < 8,
    ;
    assert(8 * j + i < 8 * s.len()) by (nonlinear_arith)
        requires
            0 <= j < s.len(),
            0 <= i < 8,
    ;
}

/// The bits of a prefix are a prefix of the bits.
pub proof fn lemma_byte_bits_take<E: BitEndianness>(s: Seq<u8>, n: int)
    requires
        0 <= n <= s.len(),
    ensures
        byte_bits::<E>(s.take(n)) == byte_bits::<E>(s).take(8 * n),
{
    assert forall|k: int| 0 <= k < 8 * n implies #[trigger] byte_bits::<E>(s.take(n))[k]
        == byte_bits::<E>(s)[k] by {
        assert(k / 8 < n) by (nonlinear_arith)
            requires
                0 <= k < 8 * n,
        ;
    }
    assert(byte_bits::<E>(s.take(n)) =~= byte_bits::<E>(s).take(8 * n));
}

/// The bits of what follows a prefix are what follows the prefix's bits.
pub proof fn lemma_byte_bits_skip<E: BitEndianness>(s: Seq<u8>, n: int)
    requires
        0 <= n <= s.len(),
    ensures
        byte_bits::<E>(s.skip(n)) == byte_bits::<E>(s).skip(8 * n),
{
    let rhs = byte_bits::<E>(s).skip(8 * n);
    assert(8 * (s.len() - n) == 8 * s.len() - 8 * n) by (nonlinear_arith);
    assert forall|k: int| 0 <= k < 8 * (s.len() - n) implies #[trigger] byte_bits::<E>(s.skip(n))[k]
        == rhs[k] by {
        assert((8 * n + k) / 8 == n + k / 8 && (8 * n + k) % 8 == k % 8) by (nonlinear_arith)
            requires
                0 <= k,
                0 <= n,
        ;
    }
    assert(byte_bits::<E>(s.skip(n)) =~= rhs);
}

/// Bits that follow a given tail of a byte, with whole bytes after it,
/// after `8 * n` of them have been consumed.
pub proof fn lemma_window_skip_bytes<E: BitEndianness>(b: u8, off: int, s: Seq<u8>, n: int)
    requires
        0 <= off <= 8,
        1 <= n <= s.len(),
    ensures
        (tail_bits::<E>(b, off) + byte_bits::<E>(s)).skip(8 * n) == tail_bits::<E>(s[n - 1], off)
            + byte_bits::<E>(s.skip(n)),
{
    let lhs = (tail_bits::<E>(b, off) + byte_bits::<E>(s)).skip(8 * n);
    let rhs = tail_bits::<E>(s[n - 1], off) + byte_bits::<E>(s.skip(n));
    assert(8 * n <= 8 * s.len()) by (nonlinear_arith)
        requires
            n <= s.len(),
    ;
    assert(8 * (s.len() - n) == 8 * s.len() - 8 * n) by (nonlinear_arith);
    assert forall|k: int| 0 <= k < rhs.len() implies #[trigger] lhs[k] == rhs[k] by {
        let p = 8 * n + k - (8 - off);
        if k < 8 - off {
            assert(p == 8 * (n - 1) + (off + k));
            lemma_byte_bits_index::<E>(s, n - 1, off + k);
        } else {
            let q = k - (8 - off);
            assert(p == 8 * (n + q / 8) + q % 8) by (nonlinear_arith)
                requires
                    p == 8 * n + q,
            ;
            assert(0 <= q / 8 < s.len() - n) by (nonlinear_arith)
                requires
                    0 <= q < 8 * (s.len() - n),
            ;
            lemma_byte_bits_index::<E>(s, n + q / 8, q % 8);
        }
    }
    assert(lhs =~= rhs);
}

/// The bits of a sequence of bytes are all of its first byte, then the rest.
pub proof fn lemma_byte_bits_first<E: BitEndianness>(s: Seq<u8>)
    requires
        s.len() > 0,
    ensures
        byte_bits::<E>(s) == tail_bits::<E>(s[0], 0) + byte_bits::<E>(s.skip(1)),
{
    let rhs = tail_bits::<E>(s[0], 0) + byte_bits::<E>(s.skip(1));
    assert forall|k: int| 0 <= k < byte_bits::<E>(s).len() implies #[trigger] byte_bits::<E>(
        s,
    )[k] == rhs[k] by {
        if k >= 8 {
            let q = k - 8;
            assert(k / 8 == 1 + q / 8 && k % 8 == q % 8) by (nonlinear_arith)
                requires
                    k == q + 8,
                    q >= 0,
            ;
        }
    }
    assert(byte_bits::<E>(s) =~= rhs);
}

} // verus!
