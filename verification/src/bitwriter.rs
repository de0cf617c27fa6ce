//! Writing bits, most significant first, into a growing byte buffer.

use vstd::prelude::*;
use vstd::arithmetic::power2::pow2;
use crate::bitreader::read_outcome;
use crate::bitseq::{
    byte_bit,
    byte_field,
    bytes_bits,
    lemma_value_bits_value,
    padding_len,
    value_bit,
    value_bits,
    zero_bits,
};
use crate::error::{BitReaderError, BitWriterError};

verus! {

/// The byte that results when the `k` bits of `value` below bit `remaining`
/// are placed into `byte` at stream position `p`.
spec fn merged_byte(byte: u8, value: u32, p: u8, k: u8, remaining: u8) -> u8 {
    byte | ((((value >> ((remaining - k) as u32)) & (((1u32 << (k as u32)) - 1) as u32)) as u8) << ((8
        - p - k) as u8))
}

/// Bit by bit, what `merged_byte` holds: the bits before `p` are kept, the
/// next `k` bits come from `value`, and the bits after them stay clear.
proof fn lemma_merged_byte_bits(byte: u8, value: u32, p: u8, k: u8, remaining: u8, j: u8)
    by (bit_vector)
    requires
        p < 8,
        1 <= k,
        p + k <= 8,
        k <= remaining,
        remaining <= 32,
        j < 8,
        byte & (0xFFu8 >> p) == 0,
    ensures
        j < p ==> byte_bit(merged_byte(byte, value, p, k, remaining), j) == byte_bit(byte, j),
        p <= j < p + k ==> byte_bit(merged_byte(byte, value, p, k, remaining), j) == value_bit(
            value,
            (remaining - 1 - (j - p)) as u32,
        ),
        p + k <= j ==> !byte_bit(merged_byte(byte, value, p, k, remaining), j),
{
}

/// The chunk taken from `value` fits in a byte, and the merged byte is clear
/// from the new write position on.
proof fn lemma_merged_byte_clear(byte: u8, value: u32, p: u8, k: u8, remaining: u8)
    by (bit_vector)
    requires
        p < 8,
        1 <= k,
        p + k <= 8,
        k <= remaining,
        remaining <= 32,
        byte & (0xFFu8 >> p) == 0,
    ensures
        (value >> ((remaining - k) as u32)) & (((1u32 << (k as u32)) - 1) as u32) <= 255,
        1u32 << (k as u32) >= 1,
        p + k < 8 ==> merged_byte(byte, value, p, k, remaining) & (0xFFu8 >> ((p + k) as u8)) == 0,
{
}

/// An accumulator of bits that packs them into bytes. Its view is the
/// sequence of bits written so far, padding included.
pub struct BitWriter {
    /// The bytes that are complete.
    buffer: Vec<u8>,
    /// The byte being filled, from its most significant bit down.
    current_byte: u8,
    /// How many bits of `current_byte` are filled.
    bit_pos: u8,
}

impl View for BitWriter {
    type V = Seq<bool>;

    closed spec fn view(&self) -> Seq<bool> {
        bytes_bits(self.buffer@) + byte_field(self.current_byte, 0, self.bit_pos)
    }
}

impl Default for BitWriter {
    fn default() -> (w: Self)
        ensures
            w@ == Seq::<bool>::empty(),
    {
        BitWriter::new()
    }
}

impl BitWriter {
    #[verifier::type_invariant]
    spec fn inv(&self) -> bool {
        &&& self.bit_pos < 8
        &&& self.current_byte & (0xFFu8 >> self.bit_pos) == 0
    }

    /// Moves a complete byte to the end of the buffer.
    fn push_byte(&mut self, byte: u8)
        ensures
            final(self).buffer@ == old(self).buffer@.push(byte),
            final(self).current_byte == old(self).current_byte,
            final(self).bit_pos == old(self).bit_pos,
    {
        proof {
            use_type_invariant(&*self);
        }
        let mut buffer: Vec<u8> = Vec::new();
        core::mem::swap(&mut buffer, &mut self.buffer);
        buffer.push(byte);
        self.buffer = buffer;
    }

    /// Creates a writer that has written nothing.
    #[inline]
    pub fn new() -> (w: Self)
        ensures
            w@ == Seq::<bool>::empty(),
    {
        assert(0u8 & (0xFFu8 >> 0u8) == 0) by (bit_vector);
        let w = Self { buffer: Vec::new(), current_byte: 0, bit_pos: 0 };
        assert(w@ =~= Seq::<bool>::empty());
        w
    }

    /// Creates a writer that has written nothing, with room set aside for
    /// `capacity` bytes.
    #[inline]
    pub fn with_capacity(capacity: usize) -> (w: Self)
        ensures
            w@ == Seq::<bool>::empty(),
    {
        assert(0u8 & (0xFFu8 >> 0u8) == 0) by (bit_vector);
        let w = Self { buffer: Vec::with_capacity(capacity), current_byte: 0, bit_pos: 0 };
        assert(w@ =~= Seq::<bool>::empty());
        w
    }

    /// Appends the low `num_bits` bits of `value`, most significant first.
    ///
    /// A width above 32 is refused and nothing is written; a width of zero
    /// writes nothing.
    pub fn write_bits(&mut self, value: u32, num_bits: u8) -> (r: Result<(), BitWriterError>)
        ensures
            num_bits > 32 ==> r == Err::<(), BitWriterError>(BitWriterError::TooManyBits(num_bits))
                && final(self)@ == old(self)@,
            num_bits <= 32 ==> r == Ok::<(), BitWriterError>(()) && final(self)@ == old(self)@
                + value_bits(value, num_bits as nat),
    {
        if num_bits > 32 {
            return Err(BitWriterError::TooManyBits(num_bits));
        }
        let ghost start = self@;
        let ghost field = value_bits(value, num_bits as nat);
        let mut remaining: u8 = num_bits;
        proof {
            use_type_invariant(&*self);
            assert(start + field.take(0) =~= start);
        }

        while remaining > 0
            invariant
                num_bits <= 32,
                remaining <= num_bits,
                self.inv(),
                field == value_bits(value, num_bits as nat),
                self@ == start + field.take(num_bits - remaining),
            decreases remaining,
        {
            let ghost done: int = num_bits - remaining;
            let ghost before = self@;
            let ghost old_byte = self.current_byte;
            let ghost old_buffer = self.buffer@;
            let p: u8 = self.bit_pos;
            let available_bits: u8 = 8 - p;
            let bits_to_write: u8 = if remaining < available_bits {
                remaining
            } else {
                available_bits
            };
            proof {
                lemma_merged_byte_clear(self.current_byte, value, p, bits_to_write, remaining);
            }
            let mask: u32 = (1u32 << (bits_to_write as u32)) - 1;
            let bits: u32 = (value >> ((remaining - bits_to_write) as u32)) & mask;
            let merged: u8 = self.current_byte | ((bits as u8) << (available_bits - bits_to_write));
            assert(merged == merged_byte(old_byte, value, p, bits_to_write, remaining));

            if p + bits_to_write == 8 {
                self.push_byte(merged);
                assert(0u8 & (0xFFu8 >> p) == 0) by (bit_vector);
                self.current_byte = 0;
                assert(0u8 & (0xFFu8 >> 0u8) == 0) by (bit_vector);
                self.bit_pos = 0;
            } else {
                let next: u8 = p + bits_to_write;
                assert(old_byte & (0xFFu8 >> next) == 0) by (bit_vector)
                    requires
                        old_byte & (0xFFu8 >> p) == 0,
                        p <= next < 8,
                ;
                self.bit_pos = next;
                self.current_byte = merged;
            }
            remaining -= bits_to_write;

            proof {
                let chunk = field.subrange(done, done + bits_to_write);
                assert(field.take(done + bits_to_write) =~= field.take(done) + chunk);
                assert forall|j: u8| j < 8 implies (j < p ==> byte_bit(merged, j) == byte_bit(
                    old_byte,
                    j,
                )) && (p <= j < p + bits_to_write ==> byte_bit(merged, j) == chunk[j - p]) && (p
                    + bits_to_write <= j ==> !byte_bit(merged, j)) by {
                    lemma_merged_byte_bits(
                        old_byte,
                        value,
                        p,
                        bits_to_write,
                        (remaining + bits_to_write) as u8,
                        j,
                    );
                }
                let grown = byte_field(merged, 0, (p + bits_to_write) as u8);
                assert(grown =~= byte_field(old_byte, 0, p) + chunk);
                if p + bits_to_write == 8 {
                    assert(bytes_bits(old_buffer.push(merged)) =~= bytes_bits(old_buffer) + grown);
                    assert(self@ =~= bytes_bits(old_buffer) + grown);
                }
                assert(self@ =~= before + chunk);
                assert(before + chunk =~= start + (field.take(done) + chunk));
            }
        }

        proof {
            assert(field.take(num_bits as int) =~= field);
        }
        Ok(())
    }

    /// Completes the byte being filled with zero bits and moves it to the
    /// buffer. Does nothing when no byte is being filled.
    #[inline]
    pub fn flush(&mut self) -> (r: Result<(), BitWriterError>)
        ensures
            r == Ok::<(), BitWriterError>(()),
            final(self)@ == old(self)@ + zero_bits(padding_len(old(self)@.len())),
    {
        proof {
            use_type_invariant(&*self);
        }
        let ghost start = self@;
        let ghost old_byte = self.current_byte;
        let ghost old_buffer = self.buffer@;
        let ghost p = self.bit_pos;
        if self.bit_pos > 0 {
            self.push_byte(self.current_byte);
            assert(0u8 & (0xFFu8 >> p) == 0) by (bit_vector);
            self.current_byte = 0;
            assert(0u8 & (0xFFu8 >> 0u8) == 0) by (bit_vector);
            self.bit_pos = 0;
            proof {
                assert forall|j: u8| p <= j < 8 implies !byte_bit(old_byte, j) by {
                    assert(old_byte & (0x80u8 >> j) == 0) by (bit_vector)
                        requires
                            old_byte & (0xFFu8 >> p) == 0,
                            p <= j < 8,
                    ;
                }
                assert(self@ =~= start + zero_bits(padding_len(start.len())));
            }
        } else {
            proof {
                assert(self@ =~= start + zero_bits(padding_len(start.len())));
            }
        }
        Ok(())
    }

    /// Finishes writing: completes the last byte with zero bits and returns
    /// the bytes.
    #[inline]
    pub fn into_inner(self) -> (bytes: Vec<u8>)
        ensures
            bytes_bits(bytes@) == self@ + zero_bits(padding_len(self@.len())),
    {
        let mut writer = self;
        let _ = writer.flush();
        proof {
            use_type_invariant(&writer);
            assert(writer@.len() % 8 == 0);
            assert(writer.bit_pos == 0);
            assert(writer@ =~= bytes_bits(writer.buffer@));
        }
        writer.buffer
    }
}

/// What is written can be read back: when the `n` bits written for a
/// number stand in a stream, whatever was written `before` and `after`
/// them, a read of `n` bits from the place where they start returns the
/// number, reduced modulo `2^n`. A number below `2^n` comes back unchanged.
///
/// For a buffer that holds nothing but one write, `before` is empty and
/// `after` is the padding that completes the last byte.
pub proof fn lemma_write_then_read(before: Seq<bool>, value: u32, n: u8, after: Seq<bool>)
    requires
        1 <= n <= 32,
    ensures
        read_outcome((before + value_bits(value, n as nat) + after).skip(before.len() as int), n)
            == Ok::<u32, BitReaderError>((value as nat % pow2(n as nat)) as u32),
        value < pow2(n as nat) ==> read_outcome(
            (before + value_bits(value, n as nat) + after).skip(before.len() as int),
            n,
        ) == Ok::<u32, BitReaderError>(value),
{
    let field = value_bits(value, n as nat);
    let unread = (before + field + after).skip(before.len() as int);
    assert(unread.take(n as int) =~= field);
    lemma_value_bits_value(value, n as nat);
}

} // verus!
