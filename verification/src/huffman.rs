//! Canonical Huffman decoding over a flat lookup table.

use vstd::prelude::*;
use vstd::arithmetic::div_mod::{lemma_fundamental_div_mod, lemma_mod_bound};
use vstd::arithmetic::power2::{
    pow2,
    lemma_pow2_pos,
    lemma_pow2_strictly_increases,
    lemma_pow2_unfold,
    lemma2_to64,
};
use vstd::bits::{
    lemma_u32_shl_is_mul,
    lemma_u64_shl_is_mul,
    lemma_usize_shl_is_mul,
    lemma_usize_shr_is_div,
};
use crate::bitreader::BitReader;
use crate::bitseq::{bits_value, lemma_bits_value_bound};
use crate::canonical::{
    code_of,
    count_with_length,
    first_code,
    kraft_sum,
    lemma_code_fits,
    lemma_count_bound,
    lemma_count_step,
    lemma_max_length_bounds,
    lemma_max_length_of_take,
    lemma_prefix_free,
    lemma_rank_below_count,
    lemma_spells_range,
    lemma_used_codes_bounded,
    lemma_used_codes_is_kraft_sum,
    lemma_used_codes_overflow,
    max_length,
    spells,
    used_codes,
};
use crate::error::HuffmanError;
use crate::table::{
    block_uniform,
    canonical_entry,
    canonical_table,
    decode_advance,
    decode_outcome,
    lemma_block_within,
    matched_length,
    stored_symbol,
    MAX_CODE_LENGTH,
    UNASSIGNED,
};

verus! {

/// A canonical Huffman code as a flat table: the entry at a pattern of
/// `max_bits` bits is the symbol whose code the pattern begins with.
pub struct HuffmanTree {
    /// Map from a pattern of `max_bits` bits to a symbol, or `UNASSIGNED`.
    pub lookup: Vec<u16>,
    /// Number of bits in the longest code.
    pub max_bits: u8,
}

impl HuffmanTree {
    /// Builds the table of the canonical code with the given code lengths;
    /// entry `i` of `code_lengths` is the length of the code of symbol `i`,
    /// and zero where the symbol is not used.
    ///
    /// The lengths must claim the code space exactly: their Kraft sum at
    /// the width of the longest code must be `2^max_bits`. A larger sum is
    /// refused as overfull, a smaller one as incomplete, and so is a list
    /// without any symbol in use.
    ///
    /// No length may exceed `MAX_CODE_LENGTH`, so that the table of
    /// `2^max_bits` entries can be indexed on every target.
    pub fn from_code_lengths(code_lengths: &[u8]) -> (r: Result<Self, HuffmanError>)
        requires
            forall|i: int| 0 <= i < code_lengths@.len() ==> code_lengths@[i] <= MAX_CODE_LENGTH,
        ensures
            match r {
                Ok(tree) => {
                    &&& max_length(code_lengths@) >= 1
                    &&& kraft_sum(code_lengths@, max_length(code_lengths@)) == pow2(
                        max_length(code_lengths@),
                    )
                    &&& tree.max_bits == max_length(code_lengths@)
                    &&& tree.lookup@ == canonical_table(code_lengths@)
                    &&& tree.well_formed()
                },
                Err(HuffmanError::IncompleteTree) => {
                    ||| max_length(code_lengths@) == 0
                    ||| kraft_sum(code_lengths@, max_length(code_lengths@)) < pow2(
                        max_length(code_lengths@),
                    )
                },
                Err(HuffmanError::OverfullTree(bits)) => {
                    &&& max_length(code_lengths@) >= 1
                    &&& bits == max_length(code_lengths@)
                    &&& kraft_sum(code_lengths@, max_length(code_lengths@)) > pow2(
                        max_length(code_lengths@),
                    )
                },
                Err(HuffmanError::BitReaderError(_)) => false,
            },
    {
        let ghost lens = code_lengths@;
        let n: usize = code_lengths.len();

        let mut max_bits: u8 = 0;
        let mut i: usize = 0;
        while i < n
            invariant
                i <= n,
                n == lens.len(),
                lens == code_lengths@,
                forall|k: int| 0 <= k < lens.len() ==> lens[k] <= MAX_CODE_LENGTH,
                max_bits == max_length(lens.take(i as int)),
                max_bits <= MAX_CODE_LENGTH,
            decreases n - i,
        {
            let len: u8 = code_lengths[i];
            proof {
                lemma_max_length_of_take(lens, i as int);
            }
            if len > max_bits {
                max_bits = len;
            }
            i += 1;
        }
        let ghost m: nat = max_bits as nat;
        proof {
            assert(lens.take(n as int) =~= lens);
            lemma_used_codes_is_kraft_sum(lens, m);
        }
        if max_bits == 0 {
            return Err(HuffmanError::IncompleteTree);
        }
        let mut bl_count: Vec<usize> = vec![0usize; max_bits as usize + 1];
        i = 0;
        while i < n
            invariant
                i <= n,
                n == lens.len(),
                lens == code_lengths@,
                m == max_bits,
                m == max_length(lens),
                bl_count.len() == m + 1,
                bl_count[0] == 0,
                forall|l: int|
                    1 <= l <= m ==> #[trigger] bl_count[l] == count_with_length(
                        lens.take(i as int),
                        l as nat,
                    ),
            decreases n - i,
        {
            let len: u8 = code_lengths[i];
            let ghost counts = bl_count@;
            proof {
                lemma_max_length_bounds(lens, i as int);
                lemma_count_bound(lens.take(i as int), len as nat);
            }
            if len != 0 {
                let seen: usize = bl_count[len as usize];
                bl_count.set(len as usize, seen + 1);
            }
            proof {
                assert forall|l: int| 1 <= l <= m implies #[trigger] bl_count[l] == count_with_length(
                    lens.take(i + 1),
                    l as nat,
                ) by {
                    lemma_count_step(lens, i as int, l as nat);
                    assert(counts[l] == count_with_length(lens.take(i as int), l as nat));
                }
            }
            i += 1;
        }
        proof {
            assert(lens.take(n as int) =~= lens);
        }

        // The code space that the lengths claim, width by width. It is
        // checked before any code is computed, so that every code fits its
        // length.
        let mut total: u64 = 0;
        let mut bits: u8 = 1;
        proof {
            lemma2_to64();
        }
        while bits <= max_bits
            invariant
                1 <= bits <= m + 1,
                m == max_bits,
                m <= MAX_CODE_LENGTH,
                bl_count.len() == m + 1,
                forall|l: int|
                    1 <= l <= m ==> #[trigger] bl_count[l] == count_with_length(lens, l as nat),
                lens == code_lengths@,
                m == max_length(lens),
                used_codes(lens, m) == kraft_sum(lens, m),
                total == used_codes(lens, (bits - 1) as nat),
                total <= pow2((bits - 1) as nat),
            decreases m + 1 - bits,
        {
            let count: u64 = bl_count[bits as usize] as u64;
            proof {
                lemma_pow2_unfold(bits as nat);
                lemma_pow2_strictly_increases(bits as nat, 32);
                lemma2_to64();
                lemma_u64_shl_is_mul(1, bits as u64);
            }
            let room: u64 = (1u64 << bits) - 2 * total;
            if count > room {
                proof {
                    assert(used_codes(lens, bits as nat) == 2 * total + count);
                    lemma_used_codes_overflow(lens, bits as nat, m);
                }
                return Err(HuffmanError::OverfullTree(max_bits));
            }
            total = 2 * total + count;
            bits += 1;
        }
        proof {
            lemma_pow2_strictly_increases(m, 32);
            lemma2_to64();
            lemma_u64_shl_is_mul(1, max_bits as u64);
        }
        if total != (1u64 << max_bits) {
            return Err(HuffmanError::IncompleteTree);
        }

        // The first code of each length.
        let mut code: u32 = 0;
        let mut next_code: Vec<u32> = vec![0u32; max_bits as usize + 1];
        bits = 1;
        while bits <= max_bits
            invariant
                1 <= bits <= m + 1,
                m == max_bits,
                m <= MAX_CODE_LENGTH,
                used_codes(lens, m) == pow2(m),
                bl_count.len() == m + 1,
                bl_count[0] == 0,
                forall|l: int|
                    1 <= l <= m ==> #[trigger] bl_count[l] == count_with_length(lens, l as nat),
                next_code.len() == m + 1,
                code == first_code(lens, (bits - 1) as nat),
                forall|l: int| 1 <= l < bits ==> #[trigger] next_code[l] == first_code(lens, l as nat),
            decreases m + 1 - bits,
        {
            let shorter: usize = bl_count[(bits - 1) as usize];
            proof {
                lemma_used_codes_bounded(lens, (bits - 1) as nat, m);
                lemma_pow2_strictly_increases((bits - 1) as nat, 31);
                lemma2_to64();
                assert(code + shorter == used_codes(lens, (bits - 1) as nat));
            }
            let sum: u32 = code + shorter as u32;
            assert(sum << 1 == 2 * sum) by (bit_vector)
                requires
                    sum < 0x8000_0000u32,
            ;
            code = sum << 1;
            next_code.set(bits as usize, code);
            bits += 1;
        }

        // The table, symbol by symbol.
        proof {
            lemma_usize_shl_is_mul(1, max_bits as usize);
        }
        let table_size: usize = 1usize << max_bits;
        let mut lookup: Vec<u16> = vec![UNASSIGNED; table_size];
        proof {
            lemma_partial_table_start(lens, lookup@);
        }
        let mut symbol: usize = 0;
        while symbol < n
            invariant
                symbol <= n,
                n == lens.len(),
                lens == code_lengths@,
                m == max_bits,
                m == max_length(lens),
                1 <= m <= MAX_CODE_LENGTH,
                used_codes(lens, m) == pow2(m),
                next_code.len() == m + 1,
                forall|l: int|
                    1 <= l <= m ==> #[trigger] next_code[l] == first_code(lens, l as nat)
                        + count_with_length(lens.take(symbol as int), l as nat),
                lookup@ == partial_table(lens, symbol as int),
            decreases n - symbol,
        {
            let len: u8 = code_lengths[symbol];
            let ghost before = lookup@;
            let ghost codes = next_code@;
            proof {
                lemma_max_length_bounds(lens, symbol as int);
            }
            if len != 0 {
                let code_val: u32 = next_code[len as usize];
                let shift: u32 = (max_bits - len) as u32;
                let ghost span: nat = pow2(shift as nat);
                proof {
                    assert(code_val == code_of(lens, symbol as int));
                    lemma_code_fits(lens, m, symbol as int);
                    lemma_rank_below_count(lens, symbol as int);
                    lemma_used_codes_bounded(lens, len as nat, m);
                    lemma_pow2_strictly_increases(len as nat, 32);
                    lemma_pow2_strictly_increases(m, 32);
                    lemma_pow2_pos(shift as nat);
                    lemma2_to64();
                    assert(code_val * span + span <= pow2(m)) by (nonlinear_arith)
                        requires
                            (code_val + 1) * span <= pow2(m),
                    ;
                    lemma_u32_shl_is_mul(code_val, shift);
                    lemma_u32_shl_is_mul(1, shift);
                }
                next_code.set(len as usize, code_val + 1);
                let prefix: u32 = code_val << shift;
                let fill_count: u32 = 1u32 << shift;
                let entry: u16 = (symbol % 0x10000) as u16;
                let mut k: u32 = 0;
                while k < fill_count
                    invariant
                        k <= fill_count,
                        fill_count == span,
                        fill_count == 1u32 << shift,
                        shift < 32,
                        prefix == code_val << shift,
                        prefix + span <= pow2(m),
                        lookup.len() == pow2(m),
                        lookup.len() == before.len(),
                        forall|w: int|
                            0 <= w < lookup.len() ==> #[trigger] lookup[w] == if prefix <= w
                                < prefix + k {
                                entry
                            } else {
                                before[w]
                            },
                    decreases fill_count - k,
                {
                    assert(prefix | k == prefix + k) by (bit_vector)
                        requires
                            prefix == code_val << shift,
                            k < (1u32 << shift),
                            shift < 32,
                    ;
                    let idx: usize = (prefix | k) as usize;
                    lookup.set(idx, entry);
                    k += 1;
                }
                proof {
                    assert forall|w: int| 0 <= w < lookup.len() implies lookup[w] == if spells(
                        lens,
                        m,
                        w,
                        symbol as int,
                    ) {
                        stored_symbol(symbol as int)
                    } else {
                        before[w]
                    } by {
                        lemma_spells_range(lens, m, w, symbol as int);
                        assert((code_val + 1) * span == code_val * span + span)
                            by (nonlinear_arith);
                    }
                }
            }
            proof {
                lemma_enter_symbol(lens, before, lookup@, symbol as int);
                assert forall|l: int| 1 <= l <= m implies #[trigger] next_code[l] == first_code(
                    lens,
                    l as nat,
                ) + count_with_length(lens.take(symbol + 1), l as nat) by {
                    lemma_count_step(lens, symbol as int, l as nat);
                    assert(codes[l] == first_code(lens, l as nat) + count_with_length(
                        lens.take(symbol as int),
                        l as nat,
                    ));
                }
            }
            symbol += 1;
        }
        proof {
            lemma_partial_table_end(lens);
        }
        Ok(HuffmanTree { lookup, max_bits })
    }

    /// The table has one entry for each pattern of `max_bits` bits, where
    /// `max_bits` is a width that can be read at all.
    pub open spec fn well_formed(&self) -> bool {
        1 <= self.max_bits <= 32 ==> self.lookup@.len() == pow2(self.max_bits as nat)
    }

    /// Decodes one symbol: looks up the next `max_bits` bits, finds the
    /// length of the code they begin with, and consumes that many bits.
    ///
    /// Nothing is consumed when no symbol is found: when fewer than
    /// `max_bits` bits are left, or when the entry is `UNASSIGNED`.
    pub fn decode_symbol(&self, reader: &mut BitReader) -> (r: Result<u16, HuffmanError>)
        requires
            self.well_formed(),
        ensures
            r == decode_outcome(self.lookup@, self.max_bits, old(reader)@),
            final(reader)@ == old(reader)@.skip(
                decode_advance(self.lookup@, self.max_bits, old(reader)@) as int,
            ),
    {
        let ghost stream = reader@;
        let ghost table = self.lookup@;
        let ghost m: nat = self.max_bits as nat;
        proof {
            assert(stream.skip(0) =~= stream);
        }
        let word: u32 = match reader.peek_bits(self.max_bits) {
            Ok(word) => word,
            Err(e) => {
                return Err(HuffmanError::from(e));
            },
        };
        proof {
            lemma_bits_value_bound(stream.take(m as int));
            lemma2_to64();
            if m < 32 {
                lemma_pow2_strictly_increases(m, 32);
            }
        }
        let bits: usize = word as usize;
        let ghost w: int = bits as int;
        let symbol: u16 = self.lookup[bits];
        if symbol == UNASSIGNED {
            return Err(HuffmanError::IncompleteTree);
        }
        let mut code_len: u8 = 1;
        while code_len <= self.max_bits
            invariant
                1 <= code_len <= m,
                m == self.max_bits,
                m <= 32,
                table == self.lookup@,
                table.len() == pow2(m),
                bits == w,
                0 <= w < pow2(m),
                symbol == table[w],
                symbol != UNASSIGNED,
                stream == old(reader)@,
                reader@ == stream,
                m <= stream.len(),
                w == bits_value(stream.take(m as int)),
                decode_outcome(table, self.max_bits, stream) == Ok::<u16, HuffmanError>(symbol),
                matched_length(table, m, w, 1) == matched_length(table, m, w, code_len as nat),
            decreases m - code_len,
        {
            let shift: usize = (self.max_bits - code_len) as usize;
            let ghost span: int = pow2(shift as nat) as int;
            proof {
                lemma_pow2_pos(shift as nat);
                lemma_pow2_strictly_increases(shift as nat, 32);
                lemma2_to64();
                lemma_usize_shr_is_div(bits, shift);
                lemma_usize_shl_is_mul(1, shift);
                lemma_fundamental_div_mod(w, span);
                lemma_mod_bound(w, span);
                assert((w / span) * span == span * (w / span)) by (nonlinear_arith);
                assert((w / span) * span + span <= pow2(m)) by {
                    lemma_block_within(m, code_len as nat, w);
                }
                lemma_usize_shl_is_mul(bits >> shift, shift);
            }
            let idx: usize = (bits >> shift) << shift;
            let fill_count: usize = 1usize << shift;
            let mut match_all: bool = true;
            let mut i: usize = 0;
            while match_all && i < fill_count
                invariant
                    i <= fill_count,
                    shift < 32,
                    fill_count == 1usize << shift,
                    fill_count == span,
                    idx == (bits >> shift) << shift,
                    idx + span <= table.len(),
                    table == self.lookup@,
                    forall|j: int| idx <= j < idx + i ==> #[trigger] table[j] == symbol,
                    !match_all ==> i < fill_count && table[idx + i] != symbol,
                decreases (fill_count - i) + (if match_all { 1int } else { 0int }),
            {
                assert(idx | i == idx + i) by (bit_vector)
                    requires
                        idx == (bits >> shift) << shift,
                        i < (1usize << shift),
                        shift < 32,
                ;
                if self.lookup[idx | i] != symbol {
                    match_all = false;
                } else {
                    i += 1;
                }
            }

            if match_all {
                proof {
                    assert(block_uniform(table, m, w, code_len as nat));
                    assert(matched_length(table, m, w, code_len as nat) == code_len);
                }
                match reader.skip_bits(code_len as usize) {
                    Ok(()) => {},
                    Err(e) => {
                        return Err(HuffmanError::from(e));
                    },
                }
                return Ok(symbol);
            }
            proof {
                assert(!block_uniform(table, m, w, code_len as nat));
                if code_len == m {
                    assert(span == 1);
                    assert(idx == w);
                    assert(false);
                }
            }
            code_len += 1;
        }

        // Not reached: at the full width the block is the pattern alone.
        Err(HuffmanError::IncompleteTree)
    }
}

/// The table entry for `w` once the symbols below `upto` have been entered.
spec fn partial_entry(lens: Seq<u8>, upto: int, w: int) -> u16 {
    if exists|s: int| s < upto && spells(lens, max_length(lens), w, s) {
        stored_symbol(choose|s: int| s < upto && spells(lens, max_length(lens), w, s))
    } else {
        UNASSIGNED
    }
}

/// The table once the symbols below `upto` have been entered.
spec fn partial_table(lens: Seq<u8>, upto: int) -> Seq<u16> {
    Seq::new(pow2(max_length(lens)), |w: int| partial_entry(lens, upto, w))
}

/// Before any symbol is entered every entry is unassigned.
proof fn lemma_partial_table_start(lens: Seq<u8>, table: Seq<u16>)
    requires
        table.len() == pow2(max_length(lens)),
        forall|w: int| 0 <= w < table.len() ==> table[w] == UNASSIGNED,
    ensures
        table == partial_table(lens, 0),
{
    assert(table =~= partial_table(lens, 0));
}

/// Entering symbol `s` overwrites the patterns that begin with its code and
/// leaves the others as they were.
proof fn lemma_enter_symbol(lens: Seq<u8>, before: Seq<u16>, after: Seq<u16>, s: int)
    requires
        0 <= s < lens.len(),
        before == partial_table(lens, s),
        after.len() == before.len(),
        forall|w: int|
            0 <= w < after.len() ==> after[w] == if spells(lens, max_length(lens), w, s) {
                stored_symbol(s)
            } else {
                before[w]
            },
    ensures
        after == partial_table(lens, s + 1),
{
    let m = max_length(lens);
    assert forall|w: int| 0 <= w < after.len() implies after[w] == partial_entry(lens, s + 1, w) by {
        if spells(lens, m, w, s) {
            let t = choose|t: int| t < s + 1 && spells(lens, m, w, t);
            lemma_prefix_free(lens, m, w, s, t);
        } else if exists|t: int| t < s && spells(lens, m, w, t) {
            let t0 = choose|t: int| t < s && spells(lens, m, w, t);
            let t1 = choose|t: int| t < s + 1 && spells(lens, m, w, t);
            assert(t0 < s + 1 && spells(lens, m, w, t0));
            lemma_prefix_free(lens, m, w, t0, t1);
        } else {
            assert(before[w] == partial_entry(lens, s, w));
            if exists|t: int| t < s + 1 && spells(lens, m, w, t) {
                let t1 = choose|t: int| t < s + 1 && spells(lens, m, w, t);
                assert(t1 < s);
            }
        }
    }
    assert(after =~= partial_table(lens, s + 1));
}

/// Once every symbol has been entered the table is that of the canonical
/// code.
proof fn lemma_partial_table_end(lens: Seq<u8>)
    ensures
        partial_table(lens, lens.len() as int) == canonical_table(lens),
{
    let m = max_length(lens);
    let n = lens.len() as int;
    assert forall|w: int| 0 <= w < pow2(m) implies partial_entry(lens, n, w) == canonical_entry(
        lens,
        w,
    ) by {
        if exists|s: int| spells(lens, m, w, s) {
            let s0 = choose|s: int| spells(lens, m, w, s);
            assert(s0 < n && spells(lens, m, w, s0));
            let s1 = choose|s: int| s < n && spells(lens, m, w, s);
            lemma_prefix_free(lens, m, w, s0, s1);
        }
    }
    assert(partial_table(lens, n) =~= canonical_table(lens));
}

} // verus!
