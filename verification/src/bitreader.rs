//! Reading bits, most significant first, from a borrowed byte buffer.

use vstd::prelude::*;
use vstd::arithmetic::power2::{pow2, lemma_pow2_adds, lemma_pow2_strictly_increases, lemma2_to64};
use vstd::bits::lemma_u32_shl_is_mul;
use crate::bitseq::{
    bits_value,
    byte_field,
    byte_field_value,
    bytes_bits,
    lemma_bits_value_bound,
    lemma_bits_value_concat,
    lemma_byte_field_value,
};
use crate::error::BitReaderError;

verus! {

/// What reading `n` bits returns when `bits` are the bits still unread: the
/// number that the next `n` bits spell, or the reason why there is none.
pub open spec fn read_outcome(bits: Seq<bool>, n: u8) -> Result<u32, BitReaderError> {
    if n == 0 || n > 32 {
        Err(BitReaderError::InvalidBitCount(n))
    } else if bits.len() < n {
        Err(BitReaderError::UnexpectedEndOfInput)
    } else {
        Ok(bits_value(bits.take(n as int)) as u32)
    }
}

/// The bits still unread after reading `n` bits from `bits`. A refused width
/// consumes nothing; a read that runs off the end leaves nothing.
pub open spec fn read_rest(bits: Seq<bool>, n: u8) -> Seq<bool> {
    if n == 0 || n > 32 {
        bits
    } else if bits.len() < n {
        Seq::empty()
    } else {
        bits.skip(n as int)
    }
}

/// The bits still unread after skipping `n` bits of `bits`.
pub open spec fn skip_rest(bits: Seq<bool>, n: usize) -> Seq<bool> {
    if bits.len() < n {
        Seq::empty()
    } else {
        bits.skip(n as int)
    }
}

/// A cursor over a borrowed byte buffer that hands out its bits in stream
/// order. Its view is the sequence of bits that have not been read yet.
pub struct BitReader<'a> {
    /// The byte slice to read from.
    data: &'a [u8],
    /// The index of the byte that holds the next unread bit.
    byte_pos: usize,
    /// How many bits of that byte have been read already.
    bit_pos: u8,
}

impl<'a> View for BitReader<'a> {
    type V = Seq<bool>;

    closed spec fn view(&self) -> Seq<bool> {
        bytes_bits(self.data@).skip(8 * self.byte_pos + self.bit_pos)
    }
}

impl<'a> Clone for BitReader<'a> {
    /// Duplicates the cursor; the copy reads the same buffer from the same
    /// position.
    fn clone(&self) -> (r: Self)
        ensures
            r@ == self@,
    {
        proof {
            use_type_invariant(self);
        }
        BitReader { data: self.data, byte_pos: self.byte_pos, bit_pos: self.bit_pos }
    }
}

impl<'a> BitReader<'a> {
    #[verifier::type_invariant]
    spec fn inv(&self) -> bool {
        &&& self.bit_pos < 8
        &&& self.byte_pos <= self.data.len()
        &&& self.bit_pos > 0 ==> self.byte_pos < self.data.len()
    }

    /// Creates a reader positioned at the first bit of `data`.
    pub fn new(data: &'a [u8]) -> (r: Self)
        ensures
            r@ == bytes_bits(data@),
    {
        let r = Self { data, byte_pos: 0, bit_pos: 0 };
        assert(r@ =~= bytes_bits(data@));
        r
    }

    /// Reads `n` bits, `1 <= n <= 32`, and returns the number they spell.
    ///
    /// A width outside that range is refused and nothing is consumed. When
    /// fewer than `n` bits are left the read fails and the reader is left at
    /// the end of its buffer.
    pub fn read_bits(&mut self, n: u8) -> (r: Result<u32, BitReaderError>)
        ensures
            r == read_outcome(old(self)@, n),
            final(self)@ == read_rest(old(self)@, n),
    {
        if n == 0 || n > 32 {
            return Err(BitReaderError::InvalidBitCount(n));
        }
        let ghost start = self@;
        let mut bits_left: u8 = n;
        let mut result: u32 = 0;
        proof {
            use_type_invariant(&*self);
            assert(start.skip(0) =~= start);
        }

        while bits_left > 0
            invariant
                1 <= n <= 32,
                bits_left <= n,
                self.inv(),
                start == old(self)@,
                n - bits_left <= start.len(),
                self@ == start.skip(n - bits_left),
                result == bits_value(start.take(n - bits_left)),
            decreases bits_left,
        {
            let ghost taken: int = n - bits_left;
            if self.byte_pos >= self.data.len() {
                proof {
                    assert(self@ =~= Seq::<bool>::empty());
                    assert(start.len() == taken);
                }
                return Err(BitReaderError::UnexpectedEndOfInput);
            }
            let current_byte: u8 = self.data[self.byte_pos];
            let available_bits: u8 = 8 - self.bit_pos;
            let bits_to_take: u8 = if bits_left < available_bits {
                bits_left
            } else {
                available_bits
            };
            let shift: u32 = (available_bits - bits_to_take) as u32;
            let width: u32 = bits_to_take as u32;
            assert(1u32 << width >= 1) by (bit_vector)
                requires
                    width <= 8,
            ;
            let mask: u32 = (1u32 << width) - 1;
            let bits: u32 = ((current_byte as u32) >> shift) & mask;

            proof {
                let field = byte_field(current_byte, self.bit_pos, bits_to_take);
                assert(bits == byte_field_value(current_byte, self.bit_pos, bits_to_take));
                lemma_byte_field_value(current_byte, self.bit_pos, bits_to_take);
                lemma_bits_value_bound(field);
                // The next bits of the stream are a field of the current byte.
                assert(self@.len() >= bits_to_take);
                assert(self@.take(bits_to_take as int) =~= field);
                assert(start.take(taken + bits_to_take) =~= start.take(taken) + field);
                lemma_bits_value_concat(start.take(taken), field);
                // What has been read so far leaves room for the new bits.
                lemma_bits_value_bound(start.take(taken));
                lemma_pow2_adds(taken as nat, bits_to_take as nat);
                lemma2_to64();
                if taken + bits_to_take < 32 {
                    lemma_pow2_strictly_increases((taken + bits_to_take) as nat, 32);
                }
                assert(result * pow2(bits_to_take as nat) + bits < pow2(
                    (taken + bits_to_take) as nat,
                )) by (nonlinear_arith)
                    requires
                        result < pow2(taken as nat),
                        bits < pow2(bits_to_take as nat),
                        pow2((taken + bits_to_take) as nat) == pow2(taken as nat) * pow2(
                            bits_to_take as nat,
                        ),
                ;
                lemma_u32_shl_is_mul(result, width);
                assert((result << width) | bits == (result << width) + bits) by (bit_vector)
                    requires
                        width <= 8,
                        bits == ((current_byte as u32) >> shift) & (((1u32 << width) - 1) as u32),
                ;
            }

            result = (result << width) | bits;

            let new_bit_pos: u8 = self.bit_pos + bits_to_take;
            if new_bit_pos == 8 {
                self.bit_pos = 0;
                self.byte_pos += 1;
            } else {
                self.bit_pos = new_bit_pos;
            }
            bits_left -= bits_to_take;

            proof {
                assert(self@ =~= start.skip(taken).skip(bits_to_take as int));
                assert(start.skip(taken).skip(bits_to_take as int) =~= start.skip(
                    taken + bits_to_take,
                ));
            }
        }

        proof {
            lemma_bits_value_bound(start.take(n as int));
            lemma2_to64();
            if n < 32 {
                lemma_pow2_strictly_increases(n as nat, 32);
            }
        }
        Ok(result)
    }

    /// Returns what `read_bits(n)` would return, and consumes nothing.
    pub fn peek_bits(&self, n: u8) -> (r: Result<u32, BitReaderError>)
        ensures
            r == read_outcome(self@, n),
    {
        let mut probe = self.clone();
        probe.read_bits(n)
    }

    /// Moves past `n` bits without looking at them.
    ///
    /// When fewer than `n` bits are left the skip fails and the reader is
    /// left at the end of its buffer.
    pub fn skip_bits(&mut self, n: usize) -> (r: Result<(), BitReaderError>)
        ensures
            n <= old(self)@.len() ==> r == Ok::<(), BitReaderError>(()),
            n > old(self)@.len() ==> r == Err::<(), BitReaderError>(
                BitReaderError::UnexpectedEndOfInput,
            ),
            final(self)@ == skip_rest(old(self)@, n),
    {
        proof {
            use_type_invariant(&*self);
        }
        let ghost start = self@;
        let len: usize = self.data.len();
        let bytes_left: usize = len - self.byte_pos;
        // The target position, counted from the current byte: whole bytes
        // and odd bits.
        let odd: u8 = self.bit_pos + (n % 8) as u8;
        let advance: usize = n / 8 + (odd / 8) as usize;
        let bit_pos: u8 = odd % 8;
        if advance < bytes_left || (advance == bytes_left && bit_pos == 0) {
            self.bit_pos = 0;
            self.byte_pos += advance;
            self.bit_pos = bit_pos;
            proof {
                assert(self@ =~= start.skip(n as int));
            }
            Ok(())
        } else {
            self.bit_pos = 0;
            self.byte_pos = len;
            proof {
                assert(self@ =~= Seq::<bool>::empty());
            }
            Err(BitReaderError::UnexpectedEndOfInput)
        }
    }

    /// Moves to the start of the next byte, unless the reader stands at the
    /// start of a byte already.
    pub fn align_to_byte(&mut self)
        ensures
            final(self)@ == old(self)@.skip((old(self)@.len() % 8) as int),
    {
        proof {
            use_type_invariant(&*self);
        }
        let ghost start = self@;
        if self.bit_pos != 0 {
            self.bit_pos = 0;
            self.byte_pos += 1;
        }
        proof {
            assert(self@ =~= start.skip((start.len() % 8) as int));
        }
    }

    /// Tells whether every bit of the buffer has been read.
    #[inline(always)]
    pub fn is_empty(&self) -> (r: bool)
        ensures
            r == (self@.len() == 0),
    {
        proof {
            use_type_invariant(self);
        }
        self.byte_pos >= self.data.len() && self.bit_pos == 0
    }
}

} // verus!
