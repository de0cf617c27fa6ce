//! The mathematical model of a bit stream: a sequence of booleans, most
//! significant bit first, and the number that a run of bits spells.

use vstd::prelude::*;
use vstd::arithmetic::div_mod::{lemma_mod_breakdown, lemma_small_mod};
use vstd::arithmetic::power2::{pow2, lemma_pow2_pos, lemma_pow2_unfold, lemma2_to64};

verus! {

/// Bit `k` of `byte`, counted from the most significant bit (`k == 0`) down
/// to the least significant one (`k == 7`).
pub open spec fn byte_bit(byte: u8, k: u8) -> bool {
    byte & (0x80u8 >> k) != 0
}

/// The bits of a byte buffer in stream order: byte after byte, and within
/// each byte from the most significant bit to the least.
pub open spec fn bytes_bits(bytes: Seq<u8>) -> Seq<bool> {
    Seq::new(8 * bytes.len(), |i: int| byte_bit(bytes[i / 8], (i % 8) as u8))
}

/// The number that a run of bits spells, read as a binary numeral with its
/// most significant digit first. The empty run spells zero.
pub open spec fn bits_value(bits: Seq<bool>) -> nat
    decreases bits.len(),
{
    if bits.len() == 0 {
        0
    } else {
        2 * bits_value(bits.drop_last()) + if bits.last() { 1nat } else { 0nat }
    }
}

/// Bit `j` of `value`, counted from the least significant bit.
pub open spec fn value_bit(value: u32, j: u32) -> bool {
    (value >> j) & 1 == 1
}

/// The low `n` bits of `value` in stream order, most significant first.
pub open spec fn value_bits(value: u32, n: nat) -> Seq<bool> {
    Seq::new(n, |i: int| value_bit(value, (n - 1 - i) as u32))
}

/// A run of `n` zero bits.
pub open spec fn zero_bits(n: nat) -> Seq<bool> {
    Seq::new(n, |i: int| false)
}

/// The number of zero bits that bring a stream of `len` bits up to the next
/// byte boundary.
pub open spec fn padding_len(len: nat) -> nat {
    ((8 - len % 8) % 8) as nat
}

/// The `k` bits of `byte` that start at bit `p`, in stream order.
pub open spec fn byte_field(byte: u8, p: u8, k: u8) -> Seq<bool> {
    Seq::new(k as nat, |i: int| byte_bit(byte, (p + i) as u8))
}

/// The `k` bits of `byte` that start at bit `p`, moved down to the low end
/// of a word.
pub open spec fn byte_field_value(byte: u8, p: u8, k: u8) -> u32 {
    ((byte as u32) >> ((8 - p - k) as u32)) & (((1u32 << (k as u32)) - 1) as u32)
}

/// A run of `n` bits spells a number below `2^n`.
pub proof fn lemma_bits_value_bound(bits: Seq<bool>)
    ensures
        bits_value(bits) < pow2(bits.len()),
    decreases bits.len(),
{
    if bits.len() == 0 {
        lemma_pow2_pos(0);
    } else {
        lemma_bits_value_bound(bits.drop_last());
        lemma_pow2_unfold(bits.len());
    }
}

/// A single bit spells one when it is set and zero when it is clear.
pub proof fn lemma_bits_value_single(bits: Seq<bool>)
    requires
        bits.len() == 1,
    ensures
        bits_value(bits) == if bits[0] { 1nat } else { 0nat },
{
    assert(bits.drop_last().len() == 0);
    assert(bits_value(bits.drop_last()) == 0);
}

/// Appending a run `b` to a run `a` shifts what `a` spells left by the
/// length of `b` and adds what `b` spells.
pub proof fn lemma_bits_value_concat(a: Seq<bool>, b: Seq<bool>)
    ensures
        bits_value(a + b) == bits_value(a) * pow2(b.len()) + bits_value(b),
    decreases b.len(),
{
    if b.len() == 0 {
        assert(a + b =~= a);
        lemma2_to64();
    } else {
        assert((a + b).drop_last() =~= a + b.drop_last());
        assert((a + b).last() == b.last());
        lemma_bits_value_concat(a, b.drop_last());
        lemma_pow2_unfold(b.len());
        let x = bits_value(a) as int;
        let p = pow2((b.len() - 1) as nat) as int;
        assert(2 * (x * p) == x * (2 * p)) by (nonlinear_arith);
    }
}

/// Shifting a field of a byte down and masking it yields the number that
/// the field spells.
pub proof fn lemma_byte_field_value(byte: u8, p: u8, k: u8)
    requires
        p + k <= 8,
    ensures
        bits_value(byte_field(byte, p, k)) == byte_field_value(byte, p, k),
    decreases k,
{
    if k == 0 {
        assert(byte_field_value(byte, p, 0) == 0) by (bit_vector);
    } else {
        let shorter: u8 = (k - 1) as u8;
        lemma_byte_field_value(byte, p, shorter);
        assert(byte_field(byte, p, k).drop_last() =~= byte_field(byte, p, shorter));
        let last: u8 = (p + k - 1) as u8;
        assert(byte_field(byte, p, k).last() == byte_bit(byte, last));
        assert(byte_field_value(byte, p, k) == 2 * byte_field_value(byte, p, shorter) + (if byte_bit(
            byte,
            last,
        ) {
            1u32
        } else {
            0u32
        })) by (bit_vector)
            requires
                1 <= k,
                p + k <= 8,
                shorter == k - 1,
                last == p + k - 1,
        ;
    }
}

/// Writing a number as `n` bits keeps its low `n` bits: spelling the bits
/// out again gives the number modulo `2^n`, which is the number itself
/// where it is below `2^n`.
pub proof fn lemma_value_bits_value(value: u32, n: nat)
    requires
        n <= 32,
    ensures
        bits_value(value_bits(value, n)) == value as nat % pow2(n),
        value < pow2(n) ==> bits_value(value_bits(value, n)) == value,
    decreases n,
{
    lemma_pow2_pos(n);
    if n == 0 {
        lemma2_to64();
    } else {
        let half: u32 = value >> 1;
        let shorter = (n - 1) as nat;
        assert(half == value / 2 && (if value_bit(value, 0) { 1u32 } else { 0u32 }) == value % 2)
            by (bit_vector)
            requires
                half == value >> 1,
        ;
        lemma_pow2_unfold(n);
        lemma_pow2_pos(shorter);
        lemma_value_bits_value(half, shorter);
        assert(value_bits(value, n).drop_last() =~= value_bits(half, shorter)) by {
            assert forall|i: int| 0 <= i < shorter implies value_bits(value, n)[i]
                == #[trigger] value_bits(half, shorter)[i] by {
                let j: u32 = (shorter - 1 - i) as u32;
                let above: u32 = (n - 1 - i) as u32;
                assert(value_bit(value, above) == value_bit(half, j)) by (bit_vector)
                    requires
                        half == value >> 1,
                        j < 31,
                        above == j + 1,
                ;
            }
        }
        assert(value_bits(value, n).last() == value_bit(value, 0));
        lemma_mod_breakdown(value as int, 2, pow2(shorter) as int);
    }
    if value < pow2(n) {
        lemma_small_mod(value as nat, pow2(n));
    }
}

/// Two bytes with the same bits are the same byte.
proof fn lemma_byte_of_bits(x: u8, y: u8)
    by (bit_vector)
    requires
        byte_bit(x, 0) == byte_bit(y, 0),
        byte_bit(x, 1) == byte_bit(y, 1),
        byte_bit(x, 2) == byte_bit(y, 2),
        byte_bit(x, 3) == byte_bit(y, 3),
        byte_bit(x, 4) == byte_bit(y, 4),
        byte_bit(x, 5) == byte_bit(y, 5),
        byte_bit(x, 6) == byte_bit(y, 6),
        byte_bit(x, 7) == byte_bit(y, 7),
    ensures
        x == y,
{
}

/// Two buffers with the same bits are the same buffer: the bits of a buffer
/// determine its bytes.
pub proof fn lemma_bytes_bits_injective(a: Seq<u8>, b: Seq<u8>)
    requires
        bytes_bits(a) == bytes_bits(b),
    ensures
        a == b,
{
    assert(bytes_bits(a).len() == 8 * a.len());
    assert(bytes_bits(b).len() == 8 * b.len());
    assert forall|k: int| 0 <= k < a.len() implies a[k] == b[k] by {
        assert forall|j: u8| j < 8 implies byte_bit(a[k], j) == byte_bit(b[k], j) by {
            let i = 8 * k + j;
            assert(bytes_bits(a)[i] == byte_bit(a[i / 8], (i % 8) as u8));
            assert(bytes_bits(b)[i] == byte_bit(b[i / 8], (i % 8) as u8));
        }
        lemma_byte_of_bits(a[k], b[k]);
    }
    assert(a =~= b);
}

} // verus!
