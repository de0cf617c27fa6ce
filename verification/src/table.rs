//! The lookup table of a canonical code, and what decoding against a table
//! yields.
//!
//! A table has one entry for each pattern of as many bits as the longest
//! code has. The entry at a pattern is the symbol whose code the pattern
//! begins with, so that one look at the next bits of a stream finds the
//! symbol; the length of its code is then found from the table alone.

use vstd::prelude::*;
use vstd::arithmetic::div_mod::{
    lemma_div_denominator,
    lemma_fundamental_div_mod,
    lemma_fundamental_div_mod_converse,
    lemma_mod_bound,
};
use vstd::arithmetic::power2::{
    pow2,
    lemma_pow2_adds,
    lemma_pow2_pos,
    lemma_pow2_strictly_increases,
    lemma_pow2_unfold,
    lemma2_to64,
};
use crate::bitreader::read_outcome;
use crate::bitseq::{
    bits_value,
    lemma_bits_value_bound,
    lemma_bits_value_concat,
    lemma_value_bits_value,
    value_bits,
};
use crate::canonical::{
    code_of,
    kraft_sum,
    lemma_code_fits,
    lemma_complete_code_covers,
    lemma_max_length_at_most,
    lemma_max_length_bounds,
    lemma_prefix_free,
    lemma_rank_below_count,
    lemma_spells_range,
    lemma_used_codes_bounded,
    lemma_used_codes_is_kraft_sum,
    max_length,
    spells,
};
use crate::error::{BitReaderError, HuffmanError};

verus! {

/// The table entry that marks a pattern with which no code begins.
pub const UNASSIGNED: u16 = 0xFFFF;

/// The longest code length that a table can be built for.
pub const MAX_CODE_LENGTH: u8 = 31;

/// The table entry that stands for symbol `s`: its index, kept in 16 bits.
pub open spec fn stored_symbol(s: int) -> u16 {
    (s % 0x10000) as u16
}

/// What the table of the canonical code holds for the pattern `w`: the
/// symbol whose code `w` begins with, or `UNASSIGNED` where there is none.
pub open spec fn canonical_entry(lens: Seq<u8>, w: int) -> u16 {
    if exists|s: int| spells(lens, max_length(lens), w, s) {
        stored_symbol(choose|s: int| spells(lens, max_length(lens), w, s))
    } else {
        UNASSIGNED
    }
}

/// The lookup table of the canonical code: one entry for each pattern of
/// as many bits as the longest code has.
pub open spec fn canonical_table(lens: Seq<u8>) -> Seq<u16> {
    Seq::new(pow2(max_length(lens)), |w: int| canonical_entry(lens, w))
}

/// The table of the canonical code holds a symbol at every pattern that
/// begins with the symbol's code.
pub proof fn lemma_entry_of_spelled(lens: Seq<u8>, w: int, s: int)
    requires
        0 <= w < pow2(max_length(lens)),
        spells(lens, max_length(lens), w, s),
    ensures
        canonical_table(lens)[w] == stored_symbol(s),
{
    let m = max_length(lens);
    let t = choose|t: int| spells(lens, m, w, t);
    lemma_prefix_free(lens, m, w, s, t);
}

/// The table of a complete code holds a symbol at every pattern.
pub proof fn lemma_complete_table_is_assigned(lens: Seq<u8>, w: int) -> (s: int)
    requires
        kraft_sum(lens, max_length(lens)) == pow2(max_length(lens)),
        0 <= w < pow2(max_length(lens)),
    ensures
        spells(lens, max_length(lens), w, s),
        canonical_table(lens)[w] == stored_symbol(s),
{
    let s = lemma_complete_code_covers(lens, w);
    lemma_entry_of_spelled(lens, w, s);
    s
}

/// The block of patterns that share their first `l` bits with `w` holds
/// one entry throughout.
pub open spec fn block_uniform(table: Seq<u16>, m: nat, w: int, l: nat) -> bool {
    let span = pow2((m - l) as nat) as int;
    let base = (w / span) * span;
    forall|j: int| base <= j < base + span ==> #[trigger] table[j] == table[w]
}

/// The smallest length from `from` up to `m` at which the block around `w`
/// holds one entry throughout; `m` where none below `m` does.
pub open spec fn matched_length(table: Seq<u16>, m: nat, w: int, from: nat) -> nat
    decreases m - from,
{
    if from >= m {
        m
    } else if block_uniform(table, m, w, from) {
        from
    } else {
        matched_length(table, m, w, from + 1)
    }
}

/// What decoding a symbol returns when `bits` are the bits still unread:
/// the entry at the pattern that the next `max_bits` bits spell, or the
/// reason why there is no symbol.
pub open spec fn decode_outcome(table: Seq<u16>, max_bits: u8, bits: Seq<bool>) -> Result<
    u16,
    HuffmanError,
> {
    match read_outcome(bits, max_bits) {
        Err(e) => Err(HuffmanError::BitReaderError(e)),
        Ok(w) => if table[w as int] == UNASSIGNED {
            Err(HuffmanError::IncompleteTree)
        } else {
            Ok(table[w as int])
        },
    }
}

/// How many bits decoding a symbol consumes: the length of the code found,
/// and nothing where no symbol is found.
pub open spec fn decode_advance(table: Seq<u16>, max_bits: u8, bits: Seq<bool>) -> nat {
    match decode_outcome(table, max_bits, bits) {
        Ok(_) => matched_length(
            table,
            max_bits as nat,
            bits_value(bits.take(max_bits as int)) as int,
            1,
        ),
        Err(_) => 0,
    }
}

/// The block of patterns around `w` at any length lies within the table.
pub proof fn lemma_block_within(m: nat, l: nat, w: int)
    requires
        l <= m,
        0 <= w < pow2(m),
    ensures
        (w / (pow2((m - l) as nat) as int)) * pow2((m - l) as nat) + pow2((m - l) as nat) <= pow2(m),
{
    let span = pow2((m - l) as nat) as int;
    let blocks = pow2(l) as int;
    lemma_pow2_pos((m - l) as nat);
    lemma_pow2_adds(l, (m - l) as nat);
    lemma_fundamental_div_mod(w, span);
    lemma_mod_bound(w, span);
    let q = w / span;
    assert(q < blocks) by (nonlinear_arith)
        requires
            span * q <= w,
            w < blocks * span,
            span > 0,
    ;
    assert(q * span + span <= blocks * span) by (nonlinear_arith)
        requires
            q + 1 <= blocks,
            span > 0,
    ;
}

/// Where no length below `l` gives a block that holds one entry throughout,
/// and `l` does or is the full width, the length matched is `l`.
proof fn lemma_matched_length(table: Seq<u16>, m: nat, w: int, from: nat, l: nat)
    requires
        from <= l <= m,
        forall|k: nat| from <= k < l ==> !block_uniform(table, m, w, k),
        l == m || block_uniform(table, m, w, l),
    ensures
        matched_length(table, m, w, from) == l,
    decreases l - from,
{
    if from < l {
        assert(!block_uniform(table, m, w, from));
        lemma_matched_length(table, m, w, from + 1, l);
    }
}

/// The code that differs from `c` in its last bit.
pub open spec fn sibling_code(c: nat) -> nat {
    if c % 2 == 0 {
        c + 1
    } else {
        (c - 1) as nat
    }
}

/// The table tells symbol `s` from its sibling: among the patterns that
/// begin with the code of `s` with its last bit flipped, one holds another
/// entry than that of `s`.
pub open spec fn sibling_differs(lens: Seq<u8>, s: int) -> bool {
    exists|j: int|
        0 <= j < pow2(max_length(lens)) && j / (pow2((max_length(lens) - lens[s]) as nat) as int)
            == sibling_code(code_of(lens, s)) && #[trigger] canonical_table(lens)[j]
            != stored_symbol(s)
}

/// Two patterns whose first `l` bits differ in the last of them at most
/// share their first `k` bits, for every `k` below `l`.
proof fn lemma_same_block(m: nat, l: nat, k: nat, w: int, j: int)
    requires
        1 <= k < l <= m,
        0 <= w,
        0 <= j,
        (j / (pow2((m - l) as nat) as int)) / 2 == (w / (pow2((m - l) as nat) as int)) / 2,
    ensures
        j / (pow2((m - k) as nat) as int) == w / (pow2((m - k) as nat) as int),
{
    let span = pow2((m - l) as nat) as int;
    let rest = pow2((l - 1 - k) as nat) as int;
    lemma_pow2_pos((m - l) as nat);
    lemma_pow2_pos((l - 1 - k) as nat);
    lemma_pow2_unfold((m - l + 1) as nat);
    lemma_pow2_adds((m - l + 1) as nat, (l - 1 - k) as nat);
    assert(pow2((m - k) as nat) == (span * 2) * rest);
    lemma_div_denominator(j, span, 2);
    lemma_div_denominator(w, span, 2);
    lemma_div_denominator(j, span * 2, rest);
    lemma_div_denominator(w, span * 2, rest);
}

/// Decoding undoes the canonical code: when the unread bits begin with the
/// code of a symbol in use, and at least as many bits are left as the
/// longest code has, decoding returns that symbol and consumes exactly the
/// bits of its code.
///
/// The table keeps symbols in 16 bits and reserves `UNASSIGNED`. So this
/// holds of a symbol below `UNASSIGNED`, and of a code of two bits or more
/// only where the table tells the symbol from its sibling; in an alphabet of
/// at most 65535 symbols it always does (`lemma_small_alphabet_sibling`).
pub proof fn lemma_decode_matches_construction(lens: Seq<u8>, s: int, bits: Seq<bool>)
    requires
        forall|i: int| 0 <= i < lens.len() ==> lens[i] <= MAX_CODE_LENGTH,
        max_length(lens) >= 1,
        kraft_sum(lens, max_length(lens)) == pow2(max_length(lens)),
        0 <= s < lens.len(),
        lens[s] != 0,
        s < UNASSIGNED,
        lens[s] >= 2 ==> sibling_differs(lens, s),
        bits.len() >= max_length(lens),
        bits_value(bits.take(lens[s] as int)) == code_of(lens, s),
    ensures
        decode_outcome(canonical_table(lens), max_length(lens) as u8, bits) == Ok::<
            u16,
            HuffmanError,
        >(s as u16),
        decode_advance(canonical_table(lens), max_length(lens) as u8, bits) == lens[s],
{
    let m = max_length(lens);
    let l = lens[s] as nat;
    let table = canonical_table(lens);
    let code = code_of(lens, s) as int;
    let span = pow2((m - l) as nat) as int;
    let w = bits_value(bits.take(m as int)) as int;
    lemma_max_length_bounds(lens, s);
    lemma_max_length_at_most(lens, MAX_CODE_LENGTH as nat);
    lemma_pow2_pos((m - l) as nat);
    lemma_used_codes_is_kraft_sum(lens, m);
    lemma_code_fits(lens, m, s);
    assert((code + 1) * span == code * span + span) by (nonlinear_arith);

    // The next `m` bits spell a pattern that begins with the code.
    let tail = bits.subrange(l as int, m as int);
    assert(bits.take(m as int) =~= bits.take(l as int) + tail);
    lemma_bits_value_concat(bits.take(l as int), tail);
    lemma_bits_value_bound(tail);
    lemma_bits_value_bound(bits.take(m as int));
    lemma_spells_range(lens, m, w, s);
    assert(spells(lens, m, w, s));
    lemma_entry_of_spelled(lens, w, s);
    lemma_pow2_strictly_increases(m, 32);
    lemma2_to64();
    assert(read_outcome(bits, m as u8) == Ok::<u32, BitReaderError>(w as u32));
    assert(table[w] == s as u16);

    // At the length of the code the block holds the symbol throughout.
    assert(block_uniform(table, m, w, l)) by {
        assert forall|j: int| code * span <= j < code * span + span implies #[trigger] table[j]
            == table[w] by {
            lemma_spells_range(lens, m, j, s);
            lemma_entry_of_spelled(lens, j, s);
        }
        assert((w / span) * span == code * span);
    }

    // At any shorter length the block takes in the patterns of the sibling.
    assert forall|k: nat| 1 <= k < l implies !block_uniform(table, m, w, k) by {
        let j = choose|j: int|
            0 <= j < pow2(m) && j / span == sibling_code(code as nat) && #[trigger] table[j]
                != stored_symbol(s);
        let wide = pow2((m - k) as nat) as int;
        lemma_pow2_pos((m - k) as nat);
        lemma_same_block(m, l, k, w, j);
        lemma_fundamental_div_mod(j, wide);
        lemma_mod_bound(j, wide);
        assert((w / wide) * wide == wide * (j / wide)) by (nonlinear_arith)
            requires
                j / wide == w / wide,
        ;
    }
    lemma_matched_length(table, m, w, 1, l);
}

/// In an alphabet of at most 65535 symbols the table of a complete code
/// tells every symbol from its sibling.
pub proof fn lemma_small_alphabet_sibling(lens: Seq<u8>, s: int)
    requires
        lens.len() <= UNASSIGNED,
        kraft_sum(lens, max_length(lens)) == pow2(max_length(lens)),
        0 <= s < lens.len(),
        lens[s] >= 2,
    ensures
        sibling_differs(lens, s),
{
    let m = max_length(lens);
    let l = lens[s] as nat;
    let code = code_of(lens, s) as int;
    let span = pow2((m - l) as nat) as int;
    let other = sibling_code(code as nat) as int;
    lemma_max_length_bounds(lens, s);
    lemma_pow2_pos((m - l) as nat);
    lemma_pow2_adds(l, (m - l) as nat);
    lemma_pow2_unfold(l);
    lemma_used_codes_is_kraft_sum(lens, m);
    lemma_code_fits(lens, m, s);
    // The sibling is a code of `l` bits as well.
    assert(code + 1 <= pow2(l)) by (nonlinear_arith)
        requires
            (code + 1) * span <= pow2(l) * span,
            span > 0,
    ;
    assert(other + 1 <= pow2(l));
    let j = other * span;
    assert(0 <= j && j + span <= pow2(m)) by (nonlinear_arith)
        requires
            j == other * span,
            0 <= other,
            other + 1 <= pow2(l),
            pow2(m) == pow2(l) * span,
            span > 0,
    ;
    lemma_fundamental_div_mod_converse(j, span, other, 0);
    // Some symbol's code begins the pattern, and it is another symbol.
    let t = lemma_complete_table_is_assigned(lens, j);
    assert(t != s);
    assert(canonical_table(lens)[j] != stored_symbol(s));
}

/// What is encoded can be decoded: in an alphabet of at most 65535 symbols,
/// when the unread bits begin with the code of a symbol in use as
/// `write_bits` lays it down, and at least as many bits are left as the
/// longest code has, decoding returns the symbol and consumes exactly the
/// bits of its code.
pub proof fn lemma_encoded_symbol_decodes(lens: Seq<u8>, s: int, after: Seq<bool>)
    requires
        forall|i: int| 0 <= i < lens.len() ==> lens[i] <= MAX_CODE_LENGTH,
        lens.len() <= UNASSIGNED,
        max_length(lens) >= 1,
        kraft_sum(lens, max_length(lens)) == pow2(max_length(lens)),
        0 <= s < lens.len(),
        lens[s] != 0,
        lens[s] + after.len() >= max_length(lens),
    ensures
        decode_outcome(
            canonical_table(lens),
            max_length(lens) as u8,
            value_bits(code_of(lens, s) as u32, lens[s] as nat) + after,
        ) == Ok::<u16, HuffmanError>(s as u16),
        decode_advance(
            canonical_table(lens),
            max_length(lens) as u8,
            value_bits(code_of(lens, s) as u32, lens[s] as nat) + after,
        ) == lens[s],
{
    let m = max_length(lens);
    let l = lens[s] as nat;
    let code = code_of(lens, s);
    let field = value_bits(code as u32, l);
    lemma_max_length_bounds(lens, s);
    lemma_max_length_at_most(lens, MAX_CODE_LENGTH as nat);
    // The code is a number of `l` bits.
    lemma_used_codes_is_kraft_sum(lens, m);
    lemma_rank_below_count(lens, s);
    lemma_used_codes_bounded(lens, l, m);
    lemma_pow2_strictly_increases(l, 32);
    lemma2_to64();
    lemma_value_bits_value(code as u32, l);
    assert((field + after).take(l as int) =~= field);
    if l >= 2 {
        lemma_small_alphabet_sibling(lens, s);
    }
    lemma_decode_matches_construction(lens, s, field + after);
}

/// Every stream decodes: against the table of a complete code over at most
/// 65535 symbols, unread bits of which at least as many are left as the
/// longest code has begin with the code of a symbol in use, and decoding
/// returns that symbol and consumes exactly the bits of its code.
pub proof fn lemma_complete_table_decodes(lens: Seq<u8>, bits: Seq<bool>) -> (s: int)
    requires
        forall|i: int| 0 <= i < lens.len() ==> lens[i] <= MAX_CODE_LENGTH,
        lens.len() <= UNASSIGNED,
        max_length(lens) >= 1,
        kraft_sum(lens, max_length(lens)) == pow2(max_length(lens)),
        bits.len() >= max_length(lens),
    ensures
        0 <= s < lens.len(),
        lens[s] != 0,
        bits_value(bits.take(lens[s] as int)) == code_of(lens, s),
        decode_outcome(canonical_table(lens), max_length(lens) as u8, bits) == Ok::<
            u16,
            HuffmanError,
        >(s as u16),
        decode_advance(canonical_table(lens), max_length(lens) as u8, bits) == lens[s],
{
    let m = max_length(lens);
    let w = bits_value(bits.take(m as int)) as int;
    lemma_bits_value_bound(bits.take(m as int));
    let s = lemma_complete_code_covers(lens, w);
    let l = lens[s] as nat;
    let span = pow2((m - l) as nat) as int;
    // The first `l` of the next `m` bits spell the code.
    let head = bits.take(l as int);
    let tail = bits.subrange(l as int, m as int);
    assert(bits.take(m as int) =~= head + tail);
    lemma_bits_value_concat(head, tail);
    lemma_bits_value_bound(tail);
    lemma_pow2_pos((m - l) as nat);
    lemma_fundamental_div_mod_converse(w, span, bits_value(head) as int, bits_value(tail) as int);
    if l >= 2 {
        lemma_small_alphabet_sibling(lens, s);
    }
    lemma_decode_matches_construction(lens, s, bits);
    s
}

} // verus!
