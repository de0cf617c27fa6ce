//! The canonical prefix code that a list of code lengths determines.
//!
//! Symbols are numbered by their index in the list; a length of zero marks a
//! symbol that is not used. Codes are handed out in order of increasing
//! length and, among codes of one length, in order of increasing symbol.

use vstd::prelude::*;
use vstd::arithmetic::power2::{pow2, lemma_pow2_adds, lemma_pow2_pos, lemma_pow2_unfold};
use vstd::arithmetic::div_mod::{lemma_fundamental_div_mod, lemma_fundamental_div_mod_converse};

verus! {

/// The longest code length in the list; zero for an empty list.
pub open spec fn max_length(lens: Seq<u8>) -> nat
    decreases lens.len(),
{
    if lens.len() == 0 {
        0
    } else {
        let rest = max_length(lens.drop_last());
        if lens.last() as nat > rest {
            lens.last() as nat
        } else {
            rest
        }
    }
}

/// How many symbols have a code of length `l`.
pub open spec fn count_with_length(lens: Seq<u8>, l: nat) -> nat
    decreases lens.len(),
{
    if lens.len() == 0 {
        0
    } else {
        count_with_length(lens.drop_last(), l) + if lens.last() as nat == l {
            1nat
        } else {
            0nat
        }
    }
}

/// How many `m`-bit patterns begin with one given code of length `l`:
/// `2^(m - l)` for a length between 1 and `m`, none otherwise.
pub open spec fn code_span(m: nat, l: nat) -> nat {
    if 1 <= l <= m {
        pow2((m - l) as nat)
    } else {
        0
    }
}

/// The sum of `2^(m - len)` over the symbols in use.
pub open spec fn kraft_sum(lens: Seq<u8>, m: nat) -> nat
    decreases lens.len(),
{
    if lens.len() == 0 {
        0
    } else {
        kraft_sum(lens.drop_last(), m) + code_span(m, lens.last() as nat)
    }
}

/// How many `l`-bit patterns begin with a code of length at most `l`.
pub open spec fn used_codes(lens: Seq<u8>, l: nat) -> nat
    decreases l,
{
    if l == 0 {
        0
    } else {
        2 * used_codes(lens, (l - 1) as nat) + count_with_length(lens, l)
    }
}

/// The smallest code of length `l`: the first `l`-bit pattern that does not
/// begin with a shorter code.
pub open spec fn first_code(lens: Seq<u8>, l: nat) -> nat {
    if l == 0 {
        0
    } else {
        2 * used_codes(lens, (l - 1) as nat)
    }
}

/// How many symbols before `s` have a code as long as that of `s`.
pub open spec fn code_rank(lens: Seq<u8>, s: int) -> nat {
    count_with_length(lens.take(s), lens[s] as nat)
}

/// The code of symbol `s`, as a number of `lens[s]` bits.
pub open spec fn code_of(lens: Seq<u8>, s: int) -> nat {
    first_code(lens, lens[s] as nat) + code_rank(lens, s)
}

/// The `m`-bit pattern `w` begins with the code of symbol `s`.
pub open spec fn spells(lens: Seq<u8>, m: nat, w: int, s: int) -> bool {
    &&& 0 <= s < lens.len()
    &&& 1 <= lens[s] <= m
    &&& w / (pow2((m - lens[s]) as nat) as int) == code_of(lens, s)
}

/// No length in the list is above the longest.
pub proof fn lemma_max_length_bounds(lens: Seq<u8>, i: int)
    requires
        0 <= i < lens.len(),
    ensures
        lens[i] <= max_length(lens),
    decreases lens.len(),
{
    if i < lens.len() - 1 {
        lemma_max_length_bounds(lens.drop_last(), i);
    }
}

/// No list has a longest length above a bound that holds of every entry.
pub proof fn lemma_max_length_at_most(lens: Seq<u8>, bound: nat)
    requires
        forall|i: int| 0 <= i < lens.len() ==> lens[i] <= bound,
    ensures
        max_length(lens) <= bound,
    decreases lens.len(),
{
    if lens.len() > 0 {
        lemma_max_length_at_most(lens.drop_last(), bound);
    }
}

/// Taking one more symbol into view raises the longest length to that
/// symbol's length where it is longer, and leaves it otherwise.
pub proof fn lemma_max_length_of_take(lens: Seq<u8>, i: int)
    requires
        0 <= i < lens.len(),
    ensures
        max_length(lens.take(i + 1)) == if lens[i] as nat > max_length(lens.take(i)) {
            lens[i] as nat
        } else {
            max_length(lens.take(i))
        },
{
    assert(lens.take(i + 1).drop_last() =~= lens.take(i));
}

/// No more symbols have a given length than there are symbols.
pub proof fn lemma_count_bound(lens: Seq<u8>, l: nat)
    ensures
        count_with_length(lens, l) <= lens.len(),
    decreases lens.len(),
{
    if lens.len() > 0 {
        lemma_count_bound(lens.drop_last(), l);
    }
}

/// Counting over a longer prefix of the list never gives less.
pub proof fn lemma_count_prefix(lens: Seq<u8>, i: int, j: int, l: nat)
    requires
        0 <= i <= j <= lens.len(),
    ensures
        count_with_length(lens.take(i), l) <= count_with_length(lens.take(j), l),
    decreases j - i,
{
    if i < j {
        assert(lens.take(j).drop_last() =~= lens.take(j - 1));
        lemma_count_prefix(lens, i, j - 1, l);
    }
}

/// Taking one more symbol into the count adds one exactly when that symbol
/// has the length counted.
pub proof fn lemma_count_step(lens: Seq<u8>, s: int, l: nat)
    requires
        0 <= s < lens.len(),
    ensures
        count_with_length(lens.take(s + 1), l) == count_with_length(lens.take(s), l) + if lens[s]
            as nat == l {
            1nat
        } else {
            0nat
        },
{
    assert(lens.take(s + 1).drop_last() =~= lens.take(s));
}

/// A symbol's rank among the codes of its length is below their number.
pub proof fn lemma_rank_below_count(lens: Seq<u8>, s: int)
    requires
        0 <= s < lens.len(),
    ensures
        code_rank(lens, s) + 1 <= count_with_length(lens, lens[s] as nat),
{
    let l = lens[s] as nat;
    lemma_count_step(lens, s, l);
    lemma_count_prefix(lens, s + 1, lens.len() as int, l);
    assert(lens.take(lens.len() as int) =~= lens);
}

/// Of two symbols with codes of one length, the earlier has the lower rank.
pub proof fn lemma_rank_order(lens: Seq<u8>, t: int, s: int)
    requires
        0 <= t < s < lens.len(),
        lens[t] == lens[s],
    ensures
        code_rank(lens, t) + 1 <= code_rank(lens, s),
{
    let l = lens[s] as nat;
    lemma_count_step(lens, t, l);
    lemma_count_prefix(lens, t + 1, s, l);
}

/// The span of a code doubles with each bit by which the pattern grows.
proof fn lemma_code_span_unfold(m: nat, x: nat)
    requires
        m >= 1,
    ensures
        code_span(m, x) == 2 * code_span((m - 1) as nat, x) + if x == m {
            1nat
        } else {
            0nat
        },
{
    if 1 <= x < m {
        lemma_pow2_unfold((m - x) as nat);
    } else if x == m {
        lemma_pow2_unfold(1);
        vstd::arithmetic::power2::lemma2_to64();
    }
}

/// One more symbol adds its span to the patterns in use.
proof fn lemma_used_codes_last(lens: Seq<u8>, l: nat)
    requires
        lens.len() > 0,
    ensures
        used_codes(lens, l) == used_codes(lens.drop_last(), l) + code_span(l, lens.last() as nat),
    decreases l,
{
    if l > 0 {
        lemma_used_codes_last(lens, (l - 1) as nat);
        lemma_code_span_unfold(l, lens.last() as nat);
    }
}

/// The patterns in use at width `m` are counted by the Kraft sum.
pub proof fn lemma_used_codes_is_kraft_sum(lens: Seq<u8>, m: nat)
    ensures
        used_codes(lens, m) == kraft_sum(lens, m),
    decreases lens.len(),
{
    if lens.len() == 0 {
        lemma_used_codes_empty(lens, m);
    } else {
        lemma_used_codes_last(lens, m);
        lemma_used_codes_is_kraft_sum(lens.drop_last(), m);
    }
}

/// An empty list uses no pattern.
proof fn lemma_used_codes_empty(lens: Seq<u8>, l: nat)
    requires
        lens.len() == 0,
    ensures
        used_codes(lens, l) == 0,
    decreases l,
{
    if l > 0 {
        lemma_used_codes_empty(lens, (l - 1) as nat);
    }
}

/// Each pattern in use at width `a` accounts for `2^(b - a)` patterns in use
/// at a width `b` that is not smaller.
pub proof fn lemma_used_codes_grows(lens: Seq<u8>, a: nat, b: nat)
    requires
        a <= b,
    ensures
        used_codes(lens, a) * pow2((b - a) as nat) <= used_codes(lens, b),
    decreases b - a,
{
    let u = used_codes(lens, a) as int;
    if a == b {
        vstd::arithmetic::power2::lemma2_to64();
        assert(pow2((b - a) as nat) == 1);
        assert(u * 1 == u);
    } else {
        lemma_used_codes_grows(lens, a, (b - 1) as nat);
        lemma_pow2_unfold((b - a) as nat);
        let p = pow2((b - 1 - a) as nat) as int;
        assert(pow2((b - a) as nat) == 2 * p);
        assert(u * p <= used_codes(lens, (b - 1) as nat));
        assert(u * (2 * p) == 2 * (u * p)) by (nonlinear_arith);
    }
}

/// Where the patterns in use at width `m` do not exceed `2^m`, those in use
/// at a smaller width `l` do not exceed `2^l`.
pub proof fn lemma_used_codes_bounded(lens: Seq<u8>, l: nat, m: nat)
    requires
        l <= m,
        used_codes(lens, m) <= pow2(m),
    ensures
        used_codes(lens, l) <= pow2(l),
{
    lemma_used_codes_grows(lens, l, m);
    lemma_pow2_adds(l, (m - l) as nat);
    lemma_pow2_pos((m - l) as nat);
    let u = used_codes(lens, l) as int;
    let p = pow2(l) as int;
    let d = pow2((m - l) as nat) as int;
    assert(u <= p) by (nonlinear_arith)
        requires
            u * d <= p * d,
            d > 0,
    ;
}

/// Where the patterns in use at some width `l` exceed `2^l`, those in use
/// at a larger width `m` exceed `2^m`.
pub proof fn lemma_used_codes_overflow(lens: Seq<u8>, l: nat, m: nat)
    requires
        l <= m,
        used_codes(lens, l) > pow2(l),
    ensures
        used_codes(lens, m) > pow2(m),
{
    lemma_used_codes_grows(lens, l, m);
    lemma_pow2_adds(l, (m - l) as nat);
    lemma_pow2_pos((m - l) as nat);
    let u = used_codes(lens, l) as int;
    let p = pow2(l) as int;
    let d = pow2((m - l) as nat) as int;
    assert(u * d > p * d) by (nonlinear_arith)
        requires
            u > p,
            d > 0,
    ;
}

/// The patterns that begin with the code of a symbol in use all lie among
/// the patterns in use.
pub proof fn lemma_code_fits(lens: Seq<u8>, m: nat, s: int)
    requires
        0 <= s < lens.len(),
        1 <= lens[s] <= m,
    ensures
        (code_of(lens, s) + 1) * pow2((m - lens[s]) as nat) <= used_codes(lens, m),
{
    let l = lens[s] as nat;
    lemma_rank_below_count(lens, s);
    lemma_used_codes_grows(lens, l, m);
    let c = code_of(lens, s) as int;
    let u = used_codes(lens, l) as int;
    let d = pow2((m - l) as nat) as int;
    assert((c + 1) * d <= u * d) by (nonlinear_arith)
        requires
            c + 1 <= u,
            d >= 0,
    ;
}

/// Codes are laid out in order: the patterns of a symbol that comes first
/// in the canonical order end where those of a later symbol begin, or
/// before.
pub proof fn lemma_code_order(lens: Seq<u8>, m: nat, t: int, s: int)
    requires
        0 <= t < lens.len(),
        0 <= s < lens.len(),
        1 <= lens[t] <= m,
        1 <= lens[s] <= m,
        lens[t] < lens[s] || (lens[t] == lens[s] && t < s),
    ensures
        (code_of(lens, t) + 1) * pow2((m - lens[t]) as nat) <= code_of(lens, s) * pow2(
            (m - lens[s]) as nat,
        ),
{
    let lt = lens[t] as nat;
    let ls = lens[s] as nat;
    let ct = code_of(lens, t) as int;
    let cs = code_of(lens, s) as int;
    let dt = pow2((m - lt) as nat) as int;
    let ds = pow2((m - ls) as nat) as int;
    if lt == ls {
        lemma_rank_order(lens, t, s);
        assert((ct + 1) * ds <= cs * ds) by (nonlinear_arith)
            requires
                ct + 1 <= cs,
                ds >= 0,
        ;
    } else {
        lemma_rank_below_count(lens, t);
        let ut = used_codes(lens, lt) as int;
        let below = (ls - 1) as nat;
        let ub = used_codes(lens, below) as int;
        let gap = pow2((below - lt) as nat) as int;
        lemma_used_codes_grows(lens, lt, below);
        assert(ut * gap <= ub);
        assert(cs >= 2 * ub);
        // 2 * gap * ds == dt
        lemma_pow2_adds((below - lt) as nat, (m - ls) as nat);
        lemma_pow2_unfold((m - lt) as nat);
        assert(dt == 2 * (gap * ds));
        assert((ct + 1) * dt <= cs * ds) by (nonlinear_arith)
            requires
                ct + 1 <= ut,
                ut * gap <= ub,
                cs >= 2 * ub,
                dt == 2 * (gap * ds),
                ds >= 0,
                gap >= 0,
                ut >= 0,
        ;
    }
}

/// The patterns that begin with a code are those from the code followed by
/// zeros up to the code followed by ones.
pub proof fn lemma_spells_range(lens: Seq<u8>, m: nat, w: int, s: int)
    requires
        0 <= s < lens.len(),
        1 <= lens[s] <= m,
    ensures
        spells(lens, m, w, s) <==> code_of(lens, s) * pow2((m - lens[s]) as nat) <= w < (code_of(
            lens,
            s,
        ) + 1) * pow2((m - lens[s]) as nat),
{
    let d = pow2((m - lens[s]) as nat) as int;
    let c = code_of(lens, s) as int;
    lemma_pow2_pos((m - lens[s]) as nat);
    lemma_fundamental_div_mod(w, d);
    assert((c + 1) * d == c * d + d) by (nonlinear_arith);
    if c * d <= w < (c + 1) * d {
        lemma_fundamental_div_mod_converse(w, d, c, w - c * d);
    }
    if w / d == c {
        assert(d * (w / d) == c * d) by (nonlinear_arith)
            requires
                w / d == c,
        ;
    }
}

/// No pattern begins with the codes of two symbols: the code is prefix-free.
pub proof fn lemma_prefix_free(lens: Seq<u8>, m: nat, w: int, s: int, t: int)
    requires
        spells(lens, m, w, s),
        spells(lens, m, w, t),
    ensures
        s == t,
{
    lemma_spells_range(lens, m, w, s);
    lemma_spells_range(lens, m, w, t);
    if s != t {
        if lens[t] < lens[s] || (lens[t] == lens[s] && t < s) {
            lemma_code_order(lens, m, t, s);
        } else {
            lemma_code_order(lens, m, s, t);
        }
    }
}

/// Among the symbols with a code of length `l`, every rank below their
/// number is the rank of one of them.
pub proof fn lemma_symbol_of_rank(lens: Seq<u8>, l: nat, r: nat) -> (s: int)
    requires
        r < count_with_length(lens, l),
    ensures
        0 <= s < lens.len(),
        lens[s] == l,
        code_rank(lens, s) == r,
    decreases lens.len(),
{
    let rest = lens.drop_last();
    if lens.last() as nat == l && count_with_length(rest, l) == r {
        let s = lens.len() - 1;
        assert(lens.take(s) =~= rest);
        s
    } else {
        let s = lemma_symbol_of_rank(rest, l, r);
        assert(rest.take(s) =~= lens.take(s));
        s
    }
}

/// A number that lies between two multiples of `d` has its quotient by `d`
/// between the two factors.
proof fn lemma_quotient_between(w: int, d: int, low: int, high: int)
    requires
        d > 0,
        low * d <= w < high * d,
    ensures
        low <= w / d < high,
{
    lemma_fundamental_div_mod(w, d);
    vstd::arithmetic::div_mod::lemma_mod_bound(w, d);
    let q = w / d;
    assert(low <= q) by (nonlinear_arith)
        requires
            low * d <= w,
            w == d * q + w % d,
            0 <= w % d < d,
            d > 0,
    ;
    assert(q < high) by (nonlinear_arith)
        requires
            w < high * d,
            w == d * q + w % d,
            0 <= w % d < d,
            d > 0,
    ;
}

/// Every pattern among those in use at width `l`, extended to `m` bits,
/// begins with the code of a symbol.
pub proof fn lemma_used_pattern_is_spelled(lens: Seq<u8>, m: nat, w: int, l: nat) -> (s: int)
    requires
        l <= m,
        0 <= w < used_codes(lens, l) * pow2((m - l) as nat),
    ensures
        spells(lens, m, w, s),
    decreases l,
{
    let d = pow2((m - l) as nat) as int;
    lemma_pow2_pos((m - l) as nat);
    if l == 0 {
        assert(0 * d == 0);
        0
    } else {
        let below = used_codes(lens, (l - 1) as nat) as int;
        let count = count_with_length(lens, l) as int;
        lemma_pow2_unfold((m - l + 1) as nat);
        assert(below * (2 * d) == (2 * below) * d) by (nonlinear_arith);
        if w < below * (2 * d) {
            lemma_used_pattern_is_spelled(lens, m, w, (l - 1) as nat)
        } else {
            lemma_quotient_between(w, d, 2 * below, 2 * below + count);
            let r = (w / d - 2 * below) as nat;
            lemma_symbol_of_rank(lens, l, r)
        }
    }
}

/// Where the Kraft sum at the width of the longest code is `2^max`, every
/// pattern of that width begins with the code of a symbol: the code is
/// complete.
pub proof fn lemma_complete_code_covers(lens: Seq<u8>, w: int) -> (s: int)
    requires
        kraft_sum(lens, max_length(lens)) == pow2(max_length(lens)),
        0 <= w < pow2(max_length(lens)),
    ensures
        spells(lens, max_length(lens), w, s),
{
    let m = max_length(lens);
    lemma_used_codes_is_kraft_sum(lens, m);
    vstd::arithmetic::power2::lemma2_to64();
    assert(pow2(m) * pow2(0) == pow2(m)) by (nonlinear_arith)
        requires
            pow2(0) == 1,
    ;
    lemma_used_pattern_is_spelled(lens, m, w, m)
}

} // verus!
