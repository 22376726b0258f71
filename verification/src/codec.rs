//! Model-independent compression and decompression module.
//!
//! The codec keeps a pair of `code_bits`-wide registers `low` and `high`
//! bounding the current coding interval, a count of pending underflow bits
//! (reused as the value register while decoding) and a count of extra bits
//! owed at the end of the stream (reused as the priming countdown while
//! decoding).  The probability model supplies cumulative frequency ranges and
//! adapts after every symbol.

use vstd::arithmetic::div_mod::*;
use vstd::arithmetic::mul::*;
use vstd::arithmetic::power2::*;
use vstd::bits::*;
use vstd::prelude::*;

use crate::bitio::{bits_val, nat_bits, stream_bits, zero_bits, BitRead, BitReader, BitWrite, BitWriter, ByteRead, ByteWrite};
use crate::model::{cf_update, cf_wf, lemma_cf_mono, lemma_symbol_unique, Model, Parameters};
use crate::Error;

verus! {

/// The table that results from encoding every byte of `bytes` and then the
/// EOF symbol, starting from `cf`.
pub open spec fn cf_after_bytes(p: Parameters, cf: Seq<u64>, bytes: Seq<u8>) -> Seq<u64>
    decreases bytes.len(),
{
    if bytes.len() == 0 {
        cf_update(p, cf, p.symbol_eof as int)
    } else {
        cf_after_bytes(p, cf_update(p, cf, bytes.first() as int), bytes.drop_first())
    }
}

/// One run of output: a bit followed by `n` bits of the opposite value, the
/// shape in which the encoder settles its pending underflow bits.
pub open spec fn bit_run(bit: bool, n: nat) -> Seq<bool> {
    seq![bit] + Seq::new(n, |k: int| !bit)
}

/// The registers the renormalization recursion is defined over.
pub open spec fn renorm_dom(p: Parameters, low: int, high: int) -> bool {
    p.valid() && 0 <= low <= high <= p.code_max
}

/// The encoder's renormalization: while the interval sits in one half of the
/// code space it emits the settled bit together with the pending opposite
/// bits and doubles the interval; while it straddles the middle it defers
/// one more bit.  The result carries the emitted bits, the final `low`,
/// `high` and pending count, and the number of steps taken.
pub open spec fn enc_renorm(p: Parameters, low: int, high: int, pending: nat) -> (
    Seq<bool>,
    int,
    int,
    nat,
    nat,
)
    decreases p.code_max + 1 - (high - low)
        when renorm_dom(p, low, high)
        via enc_renorm_dec
{
    if high < p.code_half {
        let r = enc_renorm(p, 2 * low, 2 * high + 1, 0);
        (bit_run(false, pending) + r.0, r.1, r.2, r.3, r.4 + 1)
    } else if low >= p.code_half {
        let r = enc_renorm(p, 2 * low - (p.code_max + 1), 2 * high + 1 - (p.code_max + 1), 0);
        (bit_run(true, pending) + r.0, r.1, r.2, r.3, r.4 + 1)
    } else if low >= p.code_one_fourth && high < p.code_three_fourths {
        let r = enc_renorm(
            p,
            2 * (low - p.code_one_fourth),
            2 * (high - p.code_one_fourth) + 1,
            pending + 1,
        );
        (r.0, r.1, r.2, r.3, r.4 + 1)
    } else {
        (Seq::<bool>::empty(), low, high, pending, 0)
    }
}

#[via_fn]
proof fn enc_renorm_dec(p: Parameters, low: int, high: int, pending: nat) {
    lemma_quarters(p);
}

/// The trailing bits the encoder owes after the EOF symbol: for each owed
/// count it emits the top code bit of `low` (settling the pending bits after
/// the first) and shifts `low` up within the code width.
pub open spec fn enc_tail(p: Parameters, low: int, pending: nat, extra: nat) -> Seq<bool>
    decreases extra,
{
    if extra == 0 {
        Seq::<bool>::empty()
    } else {
        bit_run(low >= p.code_half, pending) + enc_tail(
            p,
            (2 * low) % (p.code_max + 1),
            0,
            (extra - 1) as nat,
        )
    }
}

/// The renormalization result of encoding one symbol: the range update from
/// the cumulative range of `symbol` followed by the renormalization from the
/// resulting registers.
pub open spec fn enc_step(
    p: Parameters,
    cf: Seq<u64>,
    low: u64,
    high: u64,
    pending: u64,
    symbol: int,
) -> (Seq<bool>, int, int, nat, nat) {
    let count = cf[p.symbol_count as int] as int;
    let sl = cf[symbol] as int;
    let sh = cf[symbol + 1] as int;
    let range = high - low + 1;
    let h1 = low + range * sh / count - 1;
    let l1 = low + range * sl / count;
    enc_renorm(p, l1, h1, pending as nat)
}

/// Every bit `compress_symbol` sends to the writer, before the final byte
/// padding: the bits of the renormalization after the range update, and for
/// the EOF symbol the owed trailing bits, fewer one for each renormalization
/// step that fired.
pub open spec fn enc_emitted(
    p: Parameters,
    cf: Seq<u64>,
    low: u64,
    high: u64,
    pending: u64,
    extra: usize,
    symbol: int,
) -> Seq<bool> {
    let r = enc_step(p, cf, low, high, pending, symbol);
    if symbol == p.symbol_eof {
        let left = if r.4 >= extra {
            0nat
        } else {
            (extra - r.4) as nat
        };
        r.0 + enc_tail(p, r.1, r.3, left)
    } else {
        r.0
    }
}

/// Every bit the encoder emits for a whole byte sequence followed by the EOF
/// symbol, before the final byte padding: the per-symbol emissions
/// concatenated, each from the registers and the adapted table the previous
/// symbol left behind.
pub open spec fn enc_bytes(
    p: Parameters,
    cf: Seq<u64>,
    low: u64,
    high: u64,
    pending: u64,
    extra: usize,
    bytes: Seq<u8>,
) -> Seq<bool>
    decreases bytes.len(),
{
    if bytes.len() == 0 {
        enc_emitted(p, cf, low, high, pending, extra, p.symbol_eof as int)
    } else {
        let st = enc_step(p, cf, low, high, pending, bytes.first() as int);
        st.0 + enc_bytes(
            p,
            cf_update(p, cf, bytes.first() as int),
            st.1 as u64,
            st.2 as u64,
            st.3 as u64,
            extra,
            bytes.drop_first(),
        )
    }
}

/// The linear search for the symbol whose cumulative range contains the
/// target, starting at index `i`.
pub open spec fn dec_find(cf: Seq<u64>, t: int, i: int) -> int
    decreases cf.len() - i,
{
    if i + 2 >= cf.len() {
        i
    } else if t < cf[i + 1] {
        i
    } else {
        dec_find(cf, t, i + 1)
    }
}

/// The search lands on the unique symbol whose range contains the target.
pub proof fn lemma_dec_find(p: Parameters, cf: Seq<u64>, t: int, i: int)
    requires
        cf_wf(p, cf),
        0 <= i < p.symbol_count,
        cf[i] <= t < cf[p.symbol_count as int],
    ensures
        ({
            let s = dec_find(cf, t, i);
            i <= s < p.symbol_count && cf[s] <= t < cf[s + 1]
        }),
    decreases cf.len() - i,
{
    if !(i + 2 >= cf.len()) && !(t < cf[i + 1]) {
        lemma_dec_find(p, cf, t, i + 1);
    }
}

/// The interval is fully renormalized: no E1, E2 or E3 case applies any
/// longer, so the next symbol can be decoded.
pub open spec fn renorm_done(p: Parameters, low: int, high: int) -> bool {
    !(high < p.code_half) && !(low >= p.code_half) && !(low >= p.code_one_fourth && high
        < p.code_three_fourths)
}

/// The decoder's renormalization: it re-centers the interval exactly as the
/// encoder does, pulling one input bit into the value register per step.
/// Once the input runs out the recursion stops where the executable decoder
/// reports `Eof`.  The result carries the final `low`, `high` and value
/// registers and the new read position.
pub open spec fn dec_renorm(p: Parameters, low: int, high: int, value: int, s: Seq<bool>, pos: int) -> (
    int,
    int,
    int,
    int,
)
    decreases p.code_max + 1 - (high - low)
        when renorm_dom(p, low, high) && 0 <= pos <= s.len()
        via dec_renorm_dec
{
    if renorm_done(p, low, high) {
        (low, high, value, pos)
    } else if pos >= s.len() {
        (low, high, value, pos)
    } else {
        let b: int = if s[pos] {
            1
        } else {
            0
        };
        if high < p.code_half {
            dec_renorm(p, 2 * low, 2 * high + 1, 2 * value + b, s, pos + 1)
        } else if low >= p.code_half {
            dec_renorm(
                p,
                2 * (low - p.code_half),
                2 * (high - p.code_half) + 1,
                2 * (value - p.code_half) + b,
                s,
                pos + 1,
            )
        } else {
            dec_renorm(
                p,
                2 * (low - p.code_one_fourth),
                2 * (high - p.code_one_fourth) + 1,
                2 * (value - p.code_one_fourth) + b,
                s,
                pos + 1,
            )
        }
    }
}

#[via_fn]
proof fn dec_renorm_dec(p: Parameters, low: int, high: int, value: int, s: Seq<bool>, pos: int) {
    lemma_quarters(p);
}

/// The decoder's renormalization never rewinds, stays within the input, and
/// leaves the registers untouched when it takes no step.
pub proof fn lemma_dec_renorm_props(
    p: Parameters,
    low: int,
    high: int,
    value: int,
    s: Seq<bool>,
    pos: int,
)
    requires
        renorm_dom(p, low, high),
        0 <= pos <= s.len(),
    ensures
        ({
            let r = dec_renorm(p, low, high, value, s, pos);
            &&& pos <= r.3 <= s.len()
            &&& (r.3 == pos ==> r == (low, high, value, pos))
        }),
    decreases p.code_max + 1 - (high - low),
{
    lemma_quarters(p);
    if renorm_done(p, low, high) {
    } else if pos >= s.len() {
    } else if high < p.code_half {
        lemma_dec_renorm_props(p, 2 * low, 2 * high + 1, 2 * value + (if s[pos] {
            1int
        } else {
            0int
        }), s, pos + 1);
    } else if low >= p.code_half {
        lemma_dec_renorm_props(
            p,
            2 * (low - p.code_half),
            2 * (high - p.code_half) + 1,
            2 * (value - p.code_half) + (if s[pos] {
                1int
            } else {
                0int
            }),
            s,
            pos + 1,
        );
    } else {
        lemma_dec_renorm_props(
            p,
            2 * (low - p.code_one_fourth),
            2 * (high - p.code_one_fourth) + 1,
            2 * (value - p.code_one_fourth) + (if s[pos] {
                1int
            } else {
                0int
            }),
            s,
            pos + 1,
        );
    }
}

/// The decoder's domain: a well-formed table and a value register sitting in
/// a wide-enough interval, with the read position inside the input.
pub open spec fn dec_dom(
    p: Parameters,
    cf: Seq<u64>,
    low: int,
    high: int,
    value: int,
    s: Seq<bool>,
    pos: int,
) -> bool {
    &&& p.valid()
    &&& cf_wf(p, cf)
    &&& 0 <= low <= value <= high <= p.code_max
    &&& high - low + 1 > p.code_one_fourth
    &&& 0 <= pos <= s.len()
}

/// One whole-stream decode from the given registers and table: the bytes
/// produced, whether the EOF symbol was reached before the input ran dry,
/// and the read position where decoding stopped.  Each round scales the
/// value register into the frequency range, takes the symbol found there,
/// re-centers the interval pulling in fresh bits, and repeats until the EOF
/// symbol appears or a renormalization is cut short by the end of the input.
pub open spec fn dec_run(
    p: Parameters,
    cf: Seq<u64>,
    low: int,
    high: int,
    value: int,
    s: Seq<bool>,
    pos: int,
) -> (Seq<u8>, bool, int)
    decreases s.len() - pos, high - low
        when dec_dom(p, cf, low, high, value, s, pos)
{
    let count = cf[p.symbol_count as int] as int;
    let t = ((value - low + 1) * count - 1) / (high - low + 1);
    let sym = dec_find(cf, t, 0);
    if sym == p.symbol_eof {
        (Seq::<u8>::empty(), true, pos)
    } else {
        let sl = cf[sym] as int;
        let sh = cf[sym + 1] as int;
        let range = high - low + 1;
        let h1 = low + range * sh / count - 1;
        let l1 = low + range * sl / count;
        let rr = dec_renorm(p, l1, h1, value, s, pos);
        proof {
            lemma_dec_stream_step(p, cf, low, high, value, s, pos);
        }
        if renorm_done(p, rr.0, rr.1) {
            let rest = dec_run(p, cf_update(p, cf, sym), rr.0, rr.1, rr.2, s, rr.3);
            (seq![sym as u8] + rest.0, rest.1, rest.2)
        } else {
            (Seq::<u8>::empty(), false, rr.3)
        }
    }
}

/// The bytes `dec_run` produces.
pub open spec fn dec_stream(
    p: Parameters,
    cf: Seq<u64>,
    low: int,
    high: int,
    value: int,
    s: Seq<bool>,
    pos: int,
) -> Seq<u8> {
    dec_run(p, cf, low, high, value, s, pos).0
}

/// One decoding step stays in the decoder's domain and makes progress:
/// either a bit was consumed or the interval got strictly narrower.
pub proof fn lemma_dec_stream_step(
    p: Parameters,
    cf: Seq<u64>,
    low: int,
    high: int,
    value: int,
    s: Seq<bool>,
    pos: int,
)
    requires
        dec_dom(p, cf, low, high, value, s, pos),
    ensures
        ({
            let count = cf[p.symbol_count as int] as int;
            let t = ((value - low + 1) * count - 1) / (high - low + 1);
            let sym = dec_find(cf, t, 0);
            sym != p.symbol_eof ==> {
                let sl = cf[sym] as int;
                let sh = cf[sym + 1] as int;
                let range = high - low + 1;
                let h1 = low + range * sh / count - 1;
                let l1 = low + range * sl / count;
                let rr = dec_renorm(p, l1, h1, value, s, pos);
                &&& 0 <= sym < p.symbol_count
                &&& cf[sym] <= t < cf[sym + 1]
                &&& low <= l1 <= h1 <= high
                &&& pos <= rr.3 <= s.len()
                &&& (rr.3 == pos ==> (rr.0 == l1 && rr.1 == h1 && 0 <= rr.1 - rr.0 < high - low))
            }
        }),
{
    lemma_quarters(p);
    let count = cf[p.symbol_count as int] as int;
    let cu = cf[p.symbol_count as int];
    let t = ((value - low + 1) * count - 1) / (high - low + 1);
    lemma_cf_mono(p, cf, 0, p.symbol_count as int);
    lemma_scale_bound(p, cu, low as u64, high as u64, value as u64);
    assert(0 <= t < count) by {
        lemma_div_pos_is_pos((value - low + 1) * count - 1, high - low + 1);
        lemma_mul_inequality(1, value - low + 1, count);
    }
    lemma_dec_find(p, cf, t, 0);
    let sym = dec_find(cf, t, 0);
    if sym != p.symbol_eof {
        let sl = cf[sym] as int;
        let sh = cf[sym + 1] as int;
        let range = high - low + 1;
        let h1 = low + range * sh / count - 1;
        let l1 = low + range * sl / count;
        lemma_cf_mono(p, cf, sym + 1, p.symbol_count as int);
        lemma_cf_mono(p, cf, 0, sym);
        lemma_range_update(p, cu, cf[sym], cf[sym + 1], low as u64, high as u64);
        lemma_decode_bracket(p, cu, cf[sym], cf[sym + 1], low as u64, high as u64, value as u64);
        lemma_range_shrinks(p, cu, cf[sym], cf[sym + 1], low as u64, high as u64);
        lemma_dec_renorm_props(p, l1, h1, value, s, pos);
    }
}

/// The registers and read position one full symbol decode leaves behind:
/// the range update for the found symbol followed by the renormalization.
pub open spec fn dec_renorm_after(
    p: Parameters,
    cf: Seq<u64>,
    low: u64,
    high: u64,
    v0: u64,
    s: Seq<bool>,
    pos1: int,
) -> (int, int, int, int) {
    let count = cf[p.symbol_count as int] as int;
    let t = decode_target(p, cf, low, high, v0);
    let sym = dec_find(cf, t, 0);
    let range = high - low + 1;
    let h1 = low + range * (cf[sym + 1] as int) / count - 1;
    let l1 = low + range * (cf[sym] as int) / count;
    dec_renorm(p, l1, h1, v0 as int, s, pos1)
}

/// Every byte a decoder in the given state will produce from the rest of the
/// input: the value register is first primed with the owed bits if priming is
/// still outstanding.
pub open spec fn dec_expected(
    p: Parameters,
    cf: Seq<u64>,
    low: u64,
    high: u64,
    pending: u64,
    extra: usize,
    s: Seq<bool>,
    pos: int,
) -> Seq<u8> {
    if extra > 0 {
        dec_stream(
            p,
            cf,
            low as int,
            high as int,
            bits_val(s.subrange(pos, pos + extra)) as int,
            s,
            pos + extra,
        )
    } else {
        dec_stream(p, cf, low as int, high as int, pending as int, s, pos)
    }
}

/// Whether a decoder in the given state reaches the EOF symbol before the
/// input runs dry: the success condition of a whole-stream decode.
pub open spec fn dec_succeeds(
    p: Parameters,
    cf: Seq<u64>,
    low: u64,
    high: u64,
    pending: u64,
    extra: usize,
    s: Seq<bool>,
    pos: int,
) -> bool {
    if extra > 0 {
        pos + extra <= s.len() && dec_run(
            p,
            cf,
            low as int,
            high as int,
            bits_val(s.subrange(pos, pos + extra)) as int,
            s,
            pos + extra,
        ).1
    } else {
        dec_run(p, cf, low as int, high as int, pending as int, s, pos).1
    }
}

/// The read position where a whole-stream decode from the given state stops.
pub open spec fn dec_stop_pos(
    p: Parameters,
    cf: Seq<u64>,
    low: u64,
    high: u64,
    pending: u64,
    extra: usize,
    s: Seq<bool>,
    pos: int,
) -> int {
    if extra > 0 {
        dec_run(
            p,
            cf,
            low as int,
            high as int,
            bits_val(s.subrange(pos, pos + extra)) as int,
            s,
            pos + extra,
        ).2
    } else {
        dec_run(p, cf, low as int, high as int, pending as int, s, pos).2
    }
}

/// Testing the top code bit of a register by masking.
proof fn lemma_u64_test_bit(x: u64, k: u64)
    by (bit_vector)
    requires
        k < 64,
    ensures
        ((x & (1u64 << k)) != 0) == ((x >> k) & 1 == 1),
        ((x >> k) & 1) == (x >> k) % 2,
{
}

/// The top code bit of a register is set exactly when the register reaches
/// the half mark.
proof fn lemma_top_bit(p: Parameters, x: u64)
    requires
        p.valid(),
        x <= p.code_max,
    ensures
        ((x & p.code_half) != 0) <==> x >= p.code_half,
{
    lemma_quarters(p);
    lemma_pow2_pos((p.code_bits - 1) as nat);
    assert(p.code_half == 1u64 << ((p.code_bits - 1) as u64)) by {
        lemma_mul_basics(pow2((p.code_bits - 1) as nat) as int);
        lemma_u64_shl_is_mul(1u64, (p.code_bits - 1) as u64);
    }
    lemma_u64_test_bit(x, (p.code_bits - 1) as u64);
    lemma_u64_shr_is_div(x, (p.code_bits - 1) as u64);
    let h = p.code_half as int;
    assert(x < 2 * h);
    assert(x as int / h < 2) by {
        if x as int / h >= 2 {
            lemma_fundamental_div_mod(x as int, h);
            lemma_mod_bound(x as int, h);
            lemma_mul_inequality(2, x as int / h, h);
            lemma_mul_is_commutative(2, h);
            lemma_mul_is_commutative(x as int / h, h);
        }
    }
    if x >= p.code_half {
        lemma_div_is_ordered(h, x as int, h);
        lemma_div_by_self(h);
    } else {
        lemma_basic_div(x as int, h);
    }
}

/// No-overflow and ordering facts for the range update `low + range*f/count`.
proof fn lemma_range_update(p: Parameters, count: u64, sl: u64, sh: u64, low: u64, high: u64)
    requires
        p.valid(),
        sl < sh <= count,
        1 <= count <= p.freq_max,
        low <= high <= p.code_max,
        high - low + 1 > p.code_one_fourth,
    ensures
        ({
            let range = (high - low + 1) as int;
            &&& range * sh <= u64::MAX
            &&& range * sl < range * sh
            &&& count <= range
            &&& range * sl / (count as int) < range * sh / (count as int)
            &&& 1 <= range * sh / (count as int) <= range
            &&& 0 <= range * sl / (count as int)
        }),
{
    let range = (high - low + 1) as int;
    let c = count as int;
    assert(range <= pow2(p.code_bits as nat)) by {
        lemma_pow2_pos((p.code_bits - 2) as nat);
    }
    assert(count < pow2(p.freq_bits as nat));
    // the product stays below 2^(code_bits + freq_bits) <= 2^64
    assert(range * sh <= u64::MAX) by {
        lemma_mul_inequality(sh as int, (pow2(p.freq_bits as nat) - 1) as int, range);
        lemma_mul_is_commutative(sh as int, range);
        lemma_mul_inequality(range, pow2(p.code_bits as nat) as int, (pow2(
            p.freq_bits as nat,
        ) - 1) as int);
        lemma_mul_is_commutative(range, (pow2(p.freq_bits as nat) - 1) as int);
        lemma_mul_is_distributive_sub(pow2(p.code_bits as nat) as int, pow2(p.freq_bits as nat) as int, 1);
        lemma_pow2_adds(p.code_bits as nat, p.freq_bits as nat);
        lemma_pow2_pos(p.code_bits as nat);
        lemma_pow2_pos(p.freq_bits as nat);
        if p.code_bits + p.freq_bits < 64 {
            lemma_pow2_strictly_increases((p.code_bits + p.freq_bits) as nat, 64);
        }
        vstd::layout::unsigned_int_max_values();
        lemma2_to64_rest();
    }
    // the range covers the whole frequency scale
    assert(count <= range) by {
        assert(pow2(p.freq_bits as nat) <= pow2((p.code_bits - 2) as nat)) by {
            if p.freq_bits < p.code_bits - 2 {
                lemma_pow2_strictly_increases(p.freq_bits as nat, (p.code_bits - 2) as nat);
            }
        }
    }
    assert(range * sl < range * sh) by {
        lemma_mul_strict_inequality(sl as int, sh as int, range);
        lemma_mul_is_commutative(sl as int, range);
        lemma_mul_is_commutative(sh as int, range);
    }
    // quotients are ordered strictly because the products differ by >= count
    assert(range * sh >= range * sl + c) by {
        lemma_mul_inequality(sl as int + 1, sh as int, range);
        lemma_mul_is_distributive_add_other_way(range, sl as int, 1);
        lemma_mul_is_commutative(sl as int + 1, range);
        lemma_mul_is_commutative(sl as int, range);
        lemma_mul_is_commutative(sh as int, range);
    }
    assert(range * sl / c < range * sh / c) by {
        lemma_hoist_over_denominator(range * sl, 1, count as nat);
        lemma_div_is_ordered(range * sl + c, range * sh, c);
        lemma_div_pos_is_pos(range * sl, c);
    }
    assert(range * sh / c <= range) by {
        lemma_mul_inequality(sh as int, c, range);
        lemma_mul_is_commutative(sh as int, range);
        lemma_mul_is_commutative(c, range);
        lemma_div_is_ordered(range * sh, range * c, c);
        lemma_div_by_multiple(range, c);
    }
    assert(1 <= range * sh / c) by {
        lemma_mul_inequality(1, sh as int, range);
        lemma_mul_is_commutative(sh as int, range);
        lemma_div_is_ordered(c, range * sh, c);
        lemma_div_by_self(c);
    }
    lemma_div_pos_is_pos(range * sl, c);
}

/// The scaled target always lands inside the frequency scale.
proof fn lemma_scale_bound(p: Parameters, count: u64, low: u64, high: u64, value: u64)
    requires
        p.valid(),
        1 <= count <= p.freq_max,
        low <= value <= high,
        high <= p.code_max,
        high - low + 1 > p.code_one_fourth,
    ensures
        ({
            let range = (high - low + 1) as int;
            let prod = (value - low + 1) * count;
            &&& prod <= u64::MAX
            &&& 1 <= prod
            &&& (prod - 1) / range < count
        }),
{
    let range = (high - low + 1) as int;
    let width = (value - low + 1) as int;
    let c = count as int;
    lemma_range_update(p, count, 0, count, low, high);
    assert(width * c <= range * c) by {
        lemma_mul_inequality(width, range, c);
    }
    assert(1 * c <= width * c) by {
        lemma_mul_inequality(1, width, c);
    }
    assert(range * c - 1 == range * (c - 1) + (range - 1)) by {
        lemma_mul_is_distributive_sub(range, c, 1);
    }
    assert((range * c - 1) / range == c - 1) by {
        lemma_fundamental_div_mod_converse(range * c - 1, range, c - 1, range - 1);
    }
    lemma_div_is_ordered(width * c - 1, range * c - 1, range);
}

/// The decoded value stays bracketed by the updated range: what the scaled
/// target promises about the chosen symbol carries back to the registers.
proof fn lemma_decode_bracket(
    p: Parameters,
    count: u64,
    sl: u64,
    sh: u64,
    low: u64,
    high: u64,
    value: u64,
)
    requires
        p.valid(),
        sl < sh <= count,
        1 <= count <= p.freq_max,
        low <= value <= high,
        high <= p.code_max,
        high - low + 1 > p.code_one_fourth,
        sl <= ((value - low + 1) * count - 1) / ((high - low + 1) as int) < sh,
    ensures
        ({
            let range = (high - low + 1) as int;
            &&& low + range * sl / (count as int) <= value
            &&& value <= low + range * sh / (count as int) - 1
        }),
{
    let range = (high - low + 1) as int;
    let c = count as int;
    let width = (value - low + 1) as int;
    let scaled = (width * c - 1) / range;
    lemma_range_update(p, count, sl, sh, low, high);
    lemma_scale_bound(p, count, low, high, value);
    // lower bound: scaled >= sl forces value past the low split point
    let qsl = range * sl / c;
    assert(range * (sl as int) <= range * scaled) by {
        lemma_mul_inequality(sl as int, scaled, range);
        lemma_mul_is_commutative(sl as int, range);
        lemma_mul_is_commutative(scaled, range);
    }
    assert(range * scaled <= width * c - 1) by {
        lemma_fundamental_div_mod(width * c - 1, range);
        lemma_mod_bound(width * c - 1, range);
    }
    assert(range * sl <= width * c - 1);
    assert(qsl < width) by {
        lemma_fundamental_div_mod(range * sl, c);
        lemma_mod_bound(range * sl, c);
        // c * qsl <= range*sl <= width*c - 1 < width*c
        if qsl >= width {
            lemma_mul_inequality(width, qsl, c);
            lemma_mul_is_commutative(width, c);
            lemma_mul_is_commutative(qsl, c);
        }
    }
    // upper bound: scaled < sh keeps value short of the high split point
    let qsh = range * sh / c;
    assert(width * c - 1 <= range * sh - 1) by {
        // scaled <= sh - 1, so width*c - 1 < range*(scaled+1) <= range*sh
        lemma_fundamental_div_mod(width * c - 1, range);
        lemma_mod_bound(width * c - 1, range);
        lemma_mul_inequality(scaled + 1, sh as int, range);
        lemma_mul_is_commutative(scaled + 1, range);
        lemma_mul_is_commutative(sh as int, range);
        lemma_mul_is_distributive_add(range, scaled, 1);
    }
    assert(width <= qsh) by {
        lemma_fundamental_div_mod(range * sh, c);
        lemma_mod_bound(range * sh, c);
        // c * width <= range*sh, so width <= qsh
        if width > qsh {
            lemma_mul_inequality(qsh + 1, width, c);
            lemma_mul_is_commutative(qsh + 1, c);
            lemma_mul_is_commutative(width, c);
            lemma_mul_is_distributive_add(c, qsh, 1);
        }
    }
}

/// The updated range is strictly narrower than the old one whenever at least
/// two other symbols keep nonzero frequency: the decoder makes progress even
/// when no renormalization fires.
proof fn lemma_range_shrinks(p: Parameters, count: u64, sl: u64, sh: u64, low: u64, high: u64)
    requires
        p.valid(),
        sl < sh <= count,
        sh - sl <= count - 2,
        1 <= count <= p.freq_max,
        low <= high <= p.code_max,
        high - low + 1 > p.code_one_fourth,
    ensures
        ({
            let range = (high - low + 1) as int;
            range * sh / (count as int) - range * sl / (count as int) < range
        }),
{
    let range = (high - low + 1) as int;
    let c = count as int;
    let qsh = range * sh / c;
    let qsl = range * sl / c;
    lemma_range_update(p, count, sl, sh, low, high);
    assert(c * qsh <= range * sh) by {
        lemma_fundamental_div_mod(range * sh, c);
        lemma_mod_bound(range * sh, c);
    }
    assert(c * qsl >= range * sl - (c - 1)) by {
        lemma_fundamental_div_mod(range * sl, c);
        lemma_mod_bound(range * sl, c);
    }
    assert(range * sh - range * sl <= range * (c - 2)) by {
        lemma_mul_is_distributive_sub_other_way(range, sh as int, sl as int);
        lemma_mul_inequality((sh - sl) as int, c - 2, range);
        lemma_mul_is_commutative((sh - sl) as int, range);
        lemma_mul_is_commutative(c - 2, range);
    }
    assert(c * (qsh - qsl) <= range * (c - 2) + c - 1) by {
        lemma_mul_is_distributive_sub(c, qsh, qsl);
    }
    assert(range * (c - 2) + c - 1 < (range - 1) * c + c) by {
        lemma_mul_is_distributive_sub(range, c, 2);
        lemma_mul_is_distributive_sub_other_way(c, range, 1);
        lemma_mul_is_commutative(range, c);
    }
    assert(qsh - qsl <= range - 1) by {
        if qsh - qsl > range - 1 {
            lemma_mul_inequality(range, qsh - qsl, c);
            lemma_mul_is_commutative(range, c);
            lemma_mul_is_commutative(qsh - qsl, c);
            lemma_mul_is_distributive_sub_other_way(c, range, 1);
        }
    }
}

/// Numeric relations between the quarter marks of valid parameters.
proof fn lemma_quarters(p: Parameters)
    requires
        p.valid(),
    ensures
        p.code_half == 2 * p.code_one_fourth,
        p.code_three_fourths == 3 * p.code_one_fourth,
        p.code_max + 1 == 4 * p.code_one_fourth,
        p.code_max + 1 == pow2(p.code_bits as nat),
        p.code_half == pow2((p.code_bits - 1) as nat),
        p.code_max < 0x4000_0000_0000_0000,
        p.code_max == vstd::bits::low_bits_mask(p.code_bits as nat),
        p.code_bits < 62,
        p.symbol_count >= 3,
{
    lemma_pow2_adds(1, (p.code_bits - 2) as nat);
    lemma_pow2_adds(2, (p.code_bits - 2) as nat);
    lemma_pow2_strictly_increases(p.code_bits as nat, 62);
    lemma_pow2_pos(p.symbol_bits as nat);
    lemma_pow2_strictly_increases(0, p.symbol_bits as nat);
    lemma2_to64();
    lemma2_to64_rest();
}

/// The current state of the encoder and decoder.
pub struct Codec<M: Model> {
    /// The start of the active range.
    low: u64,
    /// The end of the active range.
    high: u64,
    /// Number of pending code bits to output when encoding.
    /// The current symbol value being decoded.
    pending: u64,
    /// Number of trailing bits to output for unambiguous encoding.
    /// Number of leading bits to read when decoding.
    extra: usize,
    /// The probability model being used.
    model: M,
}

impl<M: Model> Codec<M> {
    /// The probability model inside the codec.
    pub closed spec fn model_ref(self) -> M {
        self.model
    }

    /// The low register.
    pub closed spec fn low_reg(self) -> u64 {
        self.low
    }

    /// The high register.
    pub closed spec fn high_reg(self) -> u64 {
        self.high
    }

    /// The pending-bit counter (the value register while decoding).
    pub closed spec fn pending_reg(self) -> u64 {
        self.pending
    }

    /// The count of owed trailing bits (the priming countdown while
    /// decoding).
    pub closed spec fn extra_reg(self) -> usize {
        self.extra
    }

    /// The parameters of the model in use.
    pub open spec fn params(self) -> Parameters {
        self.model_ref().params()
    }

    /// The cumulative frequency table of the model in use.
    pub open spec fn cf(self) -> Seq<u64> {
        self.model_ref().cf()
    }

    /// Coding-interval well-formedness: the registers bound a range wider
    /// than a quarter of the code space, so the range covers every frequency
    /// scale the model can produce.
    pub open spec fn inv(self) -> bool {
        &&& self.model_ref().wf()
        &&& self.low_reg() <= self.high_reg() <= self.params().code_max
        &&& self.high_reg() - self.low_reg() + 1 > self.params().code_one_fourth
        &&& self.extra_reg() <= self.params().code_bits
    }

    /// Decoder well-formedness: before priming the registers are fresh;
    /// after priming the value register sits inside the range.
    pub open spec fn dec_inv(self) -> bool {
        &&& self.inv()
        &&& if self.extra_reg() == 0 {
            self.low_reg() <= self.pending_reg() <= self.high_reg()
        } else {
            &&& self.extra_reg() == self.params().code_bits
            &&& self.pending_reg() == 0
            &&& self.low_reg() == 0
            &&& self.high_reg() == self.params().code_max
        }
    }

    /// Creates and initializes the codec for encoding or decoding.
    pub fn new(m: M) -> (c: Codec<M>)
        requires
            m.wf(),
        ensures
            c.inv(),
            c.dec_inv(),
            c.model_ref() == m,
            c.low_reg() == 0,
            c.high_reg() == m.params().code_max,
            c.pending_reg() == 0,
            c.extra_reg() == m.params().code_bits,
    {
        proof {
            m.lemma_wf();
            lemma_pow2_pos((m.params().code_bits - 2) as nat);
            lemma_pow2_adds((m.params().code_bits - 2) as nat, 2);
            lemma2_to64();
        }
        let low = { m.parameters().code_min };
        let high = { m.parameters().code_max };
        let extra = { m.parameters().code_bits };
        Codec { low, high, pending: 0, extra, model: m }
    }

    /// Outputs a bit and the preceding pending bits, if any.
    fn put_bit(&mut self, bit: bool, output: &mut BitWriter) -> (r: Result<(), Error>)
        requires
            old(output).inv(),
        ensures
            r is Ok,
            final(output).inv(),
            final(self).model_ref() == old(self).model_ref(),
            final(self).low_reg() == old(self).low_reg(),
            final(self).high_reg() == old(self).high_reg(),
            final(self).extra_reg() == old(self).extra_reg(),
            final(self).pending_reg() == 0,
            final(output).bits_written() == old(output).bits_written() + bit_run(
                bit,
                old(self).pending_reg() as nat,
            ),
    {
        let res = output.write_bit(bit);
        let ghost pend0 = self.pending;
        while self.pending > 0
            invariant
                output.inv(),
                self.pending <= pend0,
                self.model_ref() == old(self).model_ref(),
                self.low_reg() == old(self).low_reg(),
                self.high_reg() == old(self).high_reg(),
                self.extra_reg() == old(self).extra_reg(),
                output.bits_written() == old(output).bits_written().push(bit) + Seq::new(
                    (pend0 - self.pending) as nat,
                    |k: int| !bit,
                ),
            decreases self.pending,
        {
            let res2 = output.write_bit(!bit);
            self.pending = self.pending - 1;
            proof {
                assert(old(output).bits_written().push(bit) + Seq::new(
                    (pend0 - self.pending) as nat,
                    |k: int| !bit,
                ) =~= (old(output).bits_written().push(bit) + Seq::new(
                    (pend0 - self.pending - 1) as nat,
                    |k: int| !bit,
                )).push(!bit));
            }
        }
        proof {
            assert(output.bits_written() =~= old(output).bits_written() + bit_run(
                bit,
                pend0 as nat,
            ));
        }
        Ok(())
    }

    /// Inputs a bit into the value register.
    fn get_bit(&mut self, input: &mut BitReader) -> (r: Result<(), Error>)
        requires
            old(input).inv(),
            old(self).pending_reg() <= u64::MAX / 2,
        ensures
            final(input).inv(),
            final(input).source() == old(input).source(),
            final(self).model_ref() == old(self).model_ref(),
            final(self).low_reg() == old(self).low_reg(),
            final(self).high_reg() == old(self).high_reg(),
            final(self).extra_reg() == old(self).extra_reg(),
            old(input).pos() < 8 * old(input).source().len() ==> (r is Ok && final(self).pending_reg()
                == 2 * old(self).pending_reg() + (if stream_bit(
                old(input).source(),
                old(input).pos() as int,
            ) {
                1u64
            } else {
                0u64
            }) && final(input).pos() == old(input).pos() + 1),
            old(input).pos() >= 8 * old(input).source().len() ==> (r matches Err(e) && e is Eof
                && final(self).pending_reg() == old(self).pending_reg() && final(input).pos()
                == old(input).pos()),
    {
        let b = match input.read_bit() {
            Ok(b) => b,
            Err(e) => {
                return Err(e);
            },
        };
        self.pending = (self.pending << 1u64) | (if b {
            1u64
        } else {
            0u64
        });
        proof {
            lemma_u64_shl1_or_bit(old(self).pending_reg(), if b {
                1u64
            } else {
                0u64
            });
        }
        Ok(())
    }

    /// Compresses a symbol and outputs some bits depending on the state of
    /// the codec.  Fails with `InvalidInput` exactly when the symbol lies
    /// outside the alphabet.  Encoding the EOF symbol also emits the owed
    /// trailing bits and flushes the output, padding the last byte with zero
    /// bits.
    ///
    /// The pending-bit counter must have room for the at most 62 bits one
    /// call can defer; `compress_bytes` keeps it far below that bound.
    #[verifier::rlimit(100)]
    #[verifier::spinoff_prover]
    pub fn compress_symbol(&mut self, symbol: usize, output: &mut BitWriter) -> (r: Result<
        (),
        Error,
    >)
        requires
            old(self).inv(),
            old(output).inv(),
            old(self).pending_reg() <= u64::MAX - 64,
        ensures
            final(output).inv(),
            final(self).params() == old(self).params(),
            old(output).bits_written().is_prefix_of(final(output).bits_written()),
            symbol > old(self).params().symbol_eof ==> (r matches Err(e) && e is InvalidInput
                && final(self).cf() == old(self).cf() && final(self).low_reg() == old(self).low_reg()
                && final(self).high_reg() == old(self).high_reg() && final(self).pending_reg()
                == old(self).pending_reg() && final(self).extra_reg() == old(self).extra_reg()
                && final(self).model_ref().wf() && final(output).bits_written() == old(output).bits_written()),
            symbol <= old(self).params().symbol_eof ==> (r is Ok && final(self).cf() == cf_update(
                old(self).params(),
                old(self).cf(),
                symbol as int,
            ) && final(self).model_ref().wf()),
            symbol < old(self).params().symbol_eof ==> ({
                let st = enc_step(
                    old(self).params(),
                    old(self).cf(),
                    old(self).low_reg(),
                    old(self).high_reg(),
                    old(self).pending_reg(),
                    symbol as int,
                );
                &&& final(self).inv()
                &&& final(self).pending_reg() <= old(self).pending_reg() + 62
                &&& final(self).extra_reg() == old(self).extra_reg()
                &&& final(output).bits_written() == old(output).bits_written() + st.0
                &&& final(self).low_reg() == st.1
                &&& final(self).high_reg() == st.2
                &&& final(self).pending_reg() == st.3
                &&& final(self).low_reg() < old(self).params().code_half <= final(self).high_reg()
                &&& !(final(self).low_reg() >= old(self).params().code_one_fourth
                    && final(self).high_reg() < old(self).params().code_three_fourths)
            }),
            symbol == old(self).params().symbol_eof ==> ({
                let core = old(output).bits_written() + enc_emitted(
                    old(self).params(),
                    old(self).cf(),
                    old(self).low_reg(),
                    old(self).high_reg(),
                    old(self).pending_reg(),
                    old(self).extra_reg(),
                    symbol as int,
                );
                &&& final(self).extra_reg() == 0
                &&& final(output).staged() == 0
                &&& stream_bits(final(output).bytes_out()) == final(output).bits_written()
                &&& final(output).bits_written() == core + zero_bits(
                    ((8 - core.len() as int % 8) % 8) as nat,
                )
                &&& final(self).low_reg() <= old(self).params().code_max
                &&& old(self).params().code_half <= final(self).high_reg()
                &&& final(self).high_reg() <= old(self).params().code_max
            }),
    {
        proof {
            self.model.lemma_wf();
            lemma_cf_mono(self.params(), self.cf(), 0, self.params().symbol_count as int);
        }
        let ghost p = self.params();
        let ghost cf0 = self.cf();
        let count = self.model.total_frequency();
        let (sl, sh) = match self.model.get_frequency(symbol) {
            Ok(t) => t,
            Err(e) => {
                return Err(e);
            },
        };
        let ghost msnap = self.model_ref();
        proof {
            self.model.lemma_wf();
            lemma_quarters(p);
            lemma_cf_mono(p, cf0, symbol as int + 1, p.symbol_count as int);
            assert(sl == cf0[symbol as int] && sh == cf0[symbol as int + 1]);
            assert(sl < sh <= count);
            assert(1 <= count);
            lemma_range_update(p, count, sl, sh, self.low, self.high);
        }
        let range = self.high - self.low + 1;
        self.high = self.low + (range * sh / count) - 1;
        self.low = self.low + (range * sl / count);

        let eof = { self.model.parameters().symbol_eof };
        let ch = { self.model.parameters().code_half };
        let cq = { self.model.parameters().code_one_fourth };
        let c3q = { self.model.parameters().code_three_fourths };
        let cm = { self.model.parameters().code_max };
        let ghost pend0 = self.pending;
        let ghost extra0 = self.extra;
        let ghost mut steps: nat = 0;
        let ghost rn = enc_renorm(p, self.low as int, self.high as int, pend0 as nat);
        let ghost base = output.bits_written();
        proof {
            lemma_pow2_pos(0);
            lemma_pow2_adds(1, (p.code_bits - 2) as nat);
            lemma_pow2_adds(2, (p.code_bits - 2) as nat);
            lemma2_to64();
            assert(rn == enc_step(p, cf0, old(self).low_reg(), old(self).high_reg(), pend0, symbol as int));
        }
        loop
            invariant
                self.model_ref() == msnap,
                msnap.wf(),
                p == self.params(),
                p.valid(),
                eof == p.symbol_eof,
                ch == p.code_half,
                cq == p.code_one_fourth,
                c3q == p.code_three_fourths,
                cm == p.code_max,
                self.low <= self.high <= p.code_max,
                output.inv(),
                old(output).bits_written().is_prefix_of(output.bits_written()),
                self.extra <= extra0 <= p.code_bits,
                symbol != eof ==> self.extra == extra0,
                symbol == eof ==> self.extra == (if steps >= extra0 as nat {
                    0nat
                } else {
                    (extra0 - steps) as nat
                }),
                pend0 <= u64::MAX - 64,
                self.pending <= pend0 + steps,
                steps <= p.code_bits,
                pow2(steps) <= self.high - self.low + 1,
                ({
                    let rc = enc_renorm(p, self.low as int, self.high as int, self.pending as nat);
                    &&& base + rn.0 == output.bits_written() + rc.0
                    &&& rn.1 == rc.1
                    &&& rn.2 == rc.2
                    &&& rn.3 == rc.3
                    &&& rn.4 == steps + rc.4
                }),
            ensures
                self.model_ref() == msnap,
                p == self.params(),
                self.low <= self.high <= p.code_max,
                output.inv(),
                old(output).bits_written().is_prefix_of(output.bits_written()),
                self.extra <= extra0,
                symbol != eof ==> self.extra == extra0,
                symbol == eof ==> self.extra == (if steps >= extra0 as nat {
                    0nat
                } else {
                    (extra0 - steps) as nat
                }),
                self.pending <= pend0 + 62,
                self.high >= ch,
                self.low < ch,
                !(self.low >= cq && self.high < c3q),
                ({
                    let rc = enc_renorm(p, self.low as int, self.high as int, self.pending as nat);
                    &&& base + rn.0 == output.bits_written() + rc.0
                    &&& rn.1 == rc.1
                    &&& rn.2 == rc.2
                    &&& rn.3 == rc.3
                    &&& rn.4 == steps + rc.4
                }),
            decreases p.code_max + 1 - (self.high - self.low),
        {
            proof {
                lemma_quarters(p);
            }
            let ghost lpre = self.low;
            let ghost hpre = self.high;
            let ghost pendpre = self.pending;
            let ghost opre = output.bits_written();
            if self.high < ch {
                let res = self.put_bit(false, output);
                if symbol == eof && self.extra > 0 {
                    self.extra = self.extra - 1;
                }
            } else if self.low >= ch {
                let res = self.put_bit(true, output);
                if symbol == eof && self.extra > 0 {
                    self.extra = self.extra - 1;
                }
            } else if self.low >= cq && self.high < c3q {
                proof {
                    // the range currently fits under half, so the counter
                    // stays within its budget
                    assert(steps + 1 <= p.code_bits) by {
                        if steps + 1 > p.code_bits {
                            lemma_pow2_strictly_increases((p.code_bits - 1) as nat, steps);
                        }
                    }
                }
                self.pending = self.pending + 1;
                self.low = self.low - cq;
                self.high = self.high - cq;
                if symbol == eof && self.extra > 0 {
                    self.extra = self.extra - 1;
                }
            } else {
                break ;
            }
            let ghost lmid = self.low;
            let ghost hmid = self.high;
            proof {
                assert(old(output).bits_written().is_prefix_of(output.bits_written())) by {
                    assert(old(output).bits_written() =~= output.bits_written().take(
                        old(output).bits_written().len() as int,
                    ));
                }
                assert(steps + 1 <= p.code_bits) by {
                    if steps + 1 > p.code_bits {
                        lemma_pow2_strictly_increases((p.code_bits - 1) as nat, steps);
                    }
                }
                steps = steps + 1;
                lemma_pow2_adds((steps - 1) as nat, 1);
                lemma2_to64();
                lemma_u64_shl_is_mul(self.high, 1);
                lemma_u64_shl_is_mul(self.low, 1);
                assert(cm == vstd::bits::low_bits_mask(p.code_bits as nat));
                lemma_u64_low_bits_mask_is_mod((2 * self.high + 1) as u64, p.code_bits as nat);
                lemma_u64_low_bits_mask_is_mod((2 * self.low) as u64, p.code_bits as nat);
                if self.high < ch {
                    lemma_small_mod((2 * self.high + 1) as nat, pow2(p.code_bits as nat));
                    lemma_small_mod((2 * self.low) as nat, pow2(p.code_bits as nat));
                } else {
                    lemma_fundamental_div_mod_converse(
                        2 * self.high + 1,
                        pow2(p.code_bits as nat) as int,
                        1,
                        2 * self.high + 1 - pow2(p.code_bits as nat),
                    );
                    lemma_fundamental_div_mod_converse(
                        2 * self.low,
                        pow2(p.code_bits as nat) as int,
                        1,
                        2 * self.low - pow2(p.code_bits as nat),
                    );
                }
            }
            self.high = ((self.high << 1u64) + 1) & cm;
            self.low = (self.low << 1u64) & cm;
            proof {
                let rc_end = enc_renorm(p, self.low as int, self.high as int, self.pending as nat);
                let rc_pre = enc_renorm(p, lpre as int, hpre as int, pendpre as nat);
                if hpre < ch {
                    assert(self.low == 2 * lpre && self.high == 2 * hpre + 1);
                    assert(rc_pre == (
                        bit_run(false, pendpre as nat) + rc_end.0,
                        rc_end.1,
                        rc_end.2,
                        rc_end.3,
                        rc_end.4 + 1nat,
                    ));
                    assert((opre + bit_run(false, pendpre as nat)) + rc_end.0 =~= opre + (bit_run(
                        false,
                        pendpre as nat,
                    ) + rc_end.0));
                } else if lpre >= ch {
                    assert(self.low == 2 * lpre - (cm + 1) && self.high == 2 * hpre + 1 - (cm + 1));
                    assert(rc_pre == (
                        bit_run(true, pendpre as nat) + rc_end.0,
                        rc_end.1,
                        rc_end.2,
                        rc_end.3,
                        rc_end.4 + 1nat,
                    ));
                    assert((opre + bit_run(true, pendpre as nat)) + rc_end.0 =~= opre + (bit_run(
                        true,
                        pendpre as nat,
                    ) + rc_end.0));
                } else {
                    assert(self.low == 2 * (lpre - cq) && self.high == 2 * (hpre - cq) + 1);
                    assert(rc_pre == (rc_end.0, rc_end.1, rc_end.2, rc_end.3, rc_end.4 + 1nat));
                }
            }
        }
        if symbol == eof {
            let ghost left0 = self.extra as nat;
            let ghost t0 = enc_tail(p, self.low as int, self.pending as nat, left0);
            let res = self.emit_trailing(output);
            proof {
                assert(output.bits_written().take(base.len() as int) =~= (base + rn.0 + t0).take(
                    base.len() as int,
                ));
                assert(old(output).bits_written().is_prefix_of(output.bits_written()));
                assert(base + rn.0 + t0 == old(output).bits_written() + enc_emitted(
                    p,
                    cf0,
                    old(self).low_reg(),
                    old(self).high_reg(),
                    pend0,
                    extra0,
                    symbol as int,
                )) by {
                    assert((base + rn.0) + enc_tail(p, rn.1, rn.3, left0) =~= base + (rn.0
                        + enc_tail(p, rn.1, rn.3, left0)));
                }
            }
        } else {
            proof {
                assert(output.bits_written() =~= base + rn.0);
            }
        }
        Ok(())
    }

    /// Emits the owed trailing bits after the EOF symbol — the top code bit
    /// of `low` for each remaining count, the pending bits resolved after the
    /// first — and flushes the output to a whole byte.
    fn emit_trailing(&mut self, output: &mut BitWriter) -> (r: Result<(), Error>)
        requires
            old(self).model_ref().wf(),
            old(self).low_reg() <= old(self).params().code_max,
            old(output).inv(),
        ensures
            r is Ok,
            final(self).model_ref() == old(self).model_ref(),
            final(self).extra_reg() == 0,
            final(self).high_reg() == old(self).high_reg(),
            final(self).low_reg() <= old(self).params().code_max,
            final(output).inv(),
            final(output).staged() == 0,
            stream_bits(final(output).bytes_out()) == final(output).bits_written(),
            ({
                let core = old(output).bits_written() + enc_tail(
                    old(self).params(),
                    old(self).low_reg() as int,
                    old(self).pending_reg() as nat,
                    old(self).extra_reg() as nat,
                );
                final(output).bits_written() == core + zero_bits(
                    ((8 - core.len() as int % 8) % 8) as nat,
                )
            }),
    {
        proof {
            self.model.lemma_wf();
        }
        let ghost p = self.params();
        let ghost msnap = self.model_ref();
        let ch = { self.model.parameters().code_half };
        let cm = { self.model.parameters().code_max };
        let ghost t0 = enc_tail(p, self.low as int, self.pending as nat, self.extra as nat);
        let ghost base2 = output.bits_written();
        while self.extra > 0
            invariant
                self.model_ref() == msnap,
                msnap.wf(),
                p == self.params(),
                p.valid(),
                cm == p.code_max,
                ch == p.code_half,
                self.low <= p.code_max,
                self.high_reg() == old(self).high_reg(),
                output.inv(),
                old(output).bits_written().is_prefix_of(output.bits_written()),
                base2 + t0 == output.bits_written() + enc_tail(
                    p,
                    self.low as int,
                    self.pending as nat,
                    self.extra as nat,
                ),
            decreases self.extra,
        {
            let ghost lpre = self.low;
            let ghost pendpre = self.pending;
            let ghost extrapre = self.extra;
            let ghost opre = output.bits_written();
            proof {
                lemma_top_bit(p, self.low);
            }
            let bit = (self.low & ch) != 0;
            let res = self.put_bit(bit, output);
            proof {
                lemma_quarters(p);
                lemma2_to64();
                lemma_u64_shl_is_mul(self.low, 1);
                assert(cm == vstd::bits::low_bits_mask(p.code_bits as nat));
                lemma_u64_low_bits_mask_is_mod((2 * self.low) as u64, p.code_bits as nat);
                lemma_mod_bound(2 * self.low, pow2(p.code_bits as nat) as int);
                lemma_pow2_pos(p.code_bits as nat);
                assert(old(output).bits_written().is_prefix_of(output.bits_written())) by {
                    assert(old(output).bits_written() =~= output.bits_written().take(
                        old(output).bits_written().len() as int,
                    ));
                }
            }
            self.low = (self.low << 1u64) & cm;
            self.extra = self.extra - 1;
            proof {
                assert(self.low as int == (2 * lpre) % (cm + 1));
                assert(enc_tail(p, lpre as int, pendpre as nat, extrapre as nat) == bit_run(
                    bit,
                    pendpre as nat,
                ) + enc_tail(p, self.low as int, 0nat, self.extra as nat));
                assert((opre + bit_run(bit, pendpre as nat)) + enc_tail(
                    p,
                    self.low as int,
                    0nat,
                    self.extra as nat,
                ) =~= opre + (bit_run(bit, pendpre as nat) + enc_tail(
                    p,
                    self.low as int,
                    0nat,
                    self.extra as nat,
                )));
            }
        }
        proof {
            assert(output.bits_written() =~= base2 + t0);
        }
        let res = output.flush_bits();
        proof {
            assert(old(output).bits_written().is_prefix_of(output.bits_written())) by {
                assert(old(output).bits_written() =~= output.bits_written().take(
                    old(output).bits_written().len() as int,
                ));
            }
        }
        Ok(())
    }

    /// Compresses an entire byte stream, encoding the EOF symbol at its end
    /// together with all bits needed for unambiguous decoding.  Fails with
    /// `InvalidInput` exactly when the parameters are not byte oriented.
    ///
    /// The reader must stand on a byte boundary with a fresh pending counter,
    /// and the stream is bounded so that the 64-bit pending counter cannot
    /// overflow even if every symbol defers its full bit budget.
    pub fn compress_bytes(&mut self, input: &mut BitReader, output: &mut BitWriter) -> (r: Result<
        (),
        Error,
    >)
        requires
            old(self).inv(),
            old(input).inv(),
            old(output).inv(),
            old(self).pending_reg() == 0,
            old(input).pos() % 8 == 0,
            old(input).source().len() <= 0x0010_0000_0000_0000,
        ensures
            final(input).inv(),
            final(input).source() == old(input).source(),
            final(output).inv(),
            old(output).bits_written().is_prefix_of(final(output).bits_written()),
            old(self).params().symbol_bits != 8 ==> (r matches Err(e) && e is InvalidInput
                && final(self).cf() == old(self).cf() && final(input).pos() == old(input).pos()
                && final(output).bits_written() == old(output).bits_written()),
            old(self).params().symbol_bits == 8 ==> (r is Ok && final(input).pos() == 8 * old(input).source().len() && final(output).staged() == 0 && stream_bits(
                final(output).bytes_out(),
            ) == final(output).bits_written() && final(self).cf() == cf_after_bytes(
                old(self).params(),
                old(self).cf(),
                old(input).source().skip(old(input).pos() as int / 8),
            ) && ({
                let core = old(output).bits_written() + enc_bytes(
                    old(self).params(),
                    old(self).cf(),
                    old(self).low_reg(),
                    old(self).high_reg(),
                    old(self).pending_reg(),
                    old(self).extra_reg(),
                    old(input).source().skip(old(input).pos() as int / 8),
                );
                final(output).bits_written() == core + zero_bits(
                    ((8 - core.len() as int % 8) % 8) as nat,
                )
            })),
    {
        proof {
            self.model.lemma_wf();
        }
        if { self.model.parameters().symbol_bits } != 8 {
            return Err(Error::InvalidInput);
        }
        let ghost p = self.params();
        let eof = { self.model.parameters().symbol_eof };
        proof {
            lemma2_to64();
            assert(eof == 256);
        }
        let ghost mut k: nat = 0;
        let ghost pos0 = input.pos();
        let ghost src = input.source();
        let ghost base = output.bits_written();
        let ghost whole = enc_bytes(
            p,
            self.cf(),
            self.low,
            self.high,
            self.pending,
            self.extra,
            src.skip(pos0 as int / 8),
        );
        proof {
            input.lemma_shape();
        }
        loop
            invariant_except_break
                self.inv(),
                input.pos() == pos0 + 8 * k,
                k <= src.len(),
                self.pending_reg() <= 62 * (k + 1),
                cf_after_bytes(p, old(self).cf(), src.skip(pos0 as int / 8)) == cf_after_bytes(
                    p,
                    self.cf(),
                    src.skip(input.pos() as int / 8),
                ),
                base + whole == output.bits_written() + enc_bytes(
                    p,
                    self.cf(),
                    self.low_reg(),
                    self.high_reg(),
                    self.pending_reg(),
                    self.extra_reg(),
                    src.skip(input.pos() as int / 8),
                ),
            invariant
                input.inv(),
                output.inv(),
                p == self.params(),
                p.valid(),
                p.symbol_bits == 8,
                eof == p.symbol_eof == 256,
                src == input.source(),
                src == old(input).source(),
                pos0 == old(input).pos(),
                pos0 % 8 == 0,
                src.len() <= 0x0010_0000_0000_0000,
                input.pos() <= 8 * src.len(),
                base == old(output).bits_written(),
                old(output).bits_written().is_prefix_of(output.bits_written()),
            ensures
                self.params() == p,
                input.source() == src,
                output.inv(),
                input.inv(),
                old(output).bits_written().is_prefix_of(output.bits_written()),
                input.pos() == 8 * src.len(),
                output.staged() == 0,
                stream_bits(output.bytes_out()) == output.bits_written(),
                self.cf() == cf_after_bytes(p, old(self).cf(), src.skip(pos0 as int / 8)),
                ({
                    let core = base + whole;
                    output.bits_written() == core + zero_bits(
                        ((8 - core.len() as int % 8) % 8) as nat,
                    )
                }),
            decreases 8 * src.len() + 8 - (input.pos() - pos0),
        {
            let ghost cfpre = self.cf();
            let ghost pospre = input.pos();
            let ghost lowpre = self.low_reg();
            let ghost highpre = self.high_reg();
            let ghost pendpre = self.pending_reg();
            let ghost extrapre = self.extra_reg();
            let ghost opre = output.bits_written();
            let symbol = match input.read_byte() {
                Ok(b) => b as usize,
                Err(Error::Eof) => eof,
                Err(e) => {
                    return Err(e);
                },
            };
            proof {
                crate::bitio::lemma_usize_max_bits();
                if symbol != eof {
                    // a byte was read: it heads the remaining suffix
                    assert(input.pos() == pospre + 8);
                    assert(pospre as int / 8 < src.len()) by {
                        lemma_fundamental_div_mod(pospre as int, 8);
                    }
                    assert(src.skip(pospre as int / 8).first() == src[pospre as int / 8]);
                }
            }
            let res = self.compress_symbol(symbol, output);
            proof {
                assert(old(output).bits_written().is_prefix_of(output.bits_written())) by {
                    assert(old(output).bits_written() =~= output.bits_written().take(
                        old(output).bits_written().len() as int,
                    ));
                }
            }
            if symbol == eof {
                proof {
                    assert(input.pos() == 8 * src.len());
                    assert(input.pos() as int / 8 == src.len()) by {
                        lemma_div_multiples_vanish(src.len() as int, 8);
                        vstd::arithmetic::mul::lemma_mul_is_commutative(8, src.len() as int);
                    }
                    assert(src.skip(src.len() as int) =~= Seq::<u8>::empty());
                    assert(cf_after_bytes(p, cfpre, Seq::<u8>::empty()) == cf_update(
                        p,
                        cfpre,
                        p.symbol_eof as int,
                    ));
                    // the remaining suffix was already empty when the EOF
                    // symbol was encoded
                    assert(pospre as int / 8 == src.len()) by {
                        lemma_div_multiples_vanish(src.len() as int, 8);
                        vstd::arithmetic::mul::lemma_mul_is_commutative(8, src.len() as int);
                    }
                    assert(enc_bytes(p, cfpre, lowpre, highpre, pendpre, extrapre, src.skip(
                        pospre as int / 8,
                    )) == enc_emitted(p, cfpre, lowpre, highpre, pendpre, extrapre, 256));
                    assert(base + whole =~= opre + enc_emitted(
                        p,
                        cfpre,
                        lowpre,
                        highpre,
                        pendpre,
                        extrapre,
                        256,
                    ));
                }
                break ;
            }
            proof {
                k = k + 1;
                assert(input.pos() as int / 8 == pospre as int / 8 + 1) by {
                    lemma_fundamental_div_mod(pospre as int, 8);
                    lemma_div_multiples_vanish((pospre as int / 8) + 1, 8);
                    vstd::arithmetic::mul::lemma_mul_is_commutative(
                        8,
                        (pospre as int / 8) + 1,
                    );
                }
                assert(src.skip(pospre as int / 8).drop_first() =~= src.skip(
                    input.pos() as int / 8,
                ));
                assert(cf_after_bytes(p, cfpre, src.skip(pospre as int / 8)) == cf_after_bytes(
                    p,
                    self.cf(),
                    src.skip(input.pos() as int / 8),
                ));
                // one encoding step peels the first remaining byte
                let st = enc_step(p, cfpre, lowpre, highpre, pendpre, symbol as int);
                assert(self.low_reg() == st.1 as u64 && self.high_reg() == st.2 as u64
                    && self.pending_reg() == st.3 as u64);
                assert(enc_bytes(p, cfpre, lowpre, highpre, pendpre, extrapre, src.skip(
                    pospre as int / 8,
                )) == st.0 + enc_bytes(
                    p,
                    self.cf(),
                    self.low_reg(),
                    self.high_reg(),
                    self.pending_reg(),
                    self.extra_reg(),
                    src.skip(input.pos() as int / 8),
                ));
                assert((opre + st.0) + enc_bytes(
                    p,
                    self.cf(),
                    self.low_reg(),
                    self.high_reg(),
                    self.pending_reg(),
                    self.extra_reg(),
                    src.skip(input.pos() as int / 8),
                ) =~= opre + (st.0 + enc_bytes(
                    p,
                    self.cf(),
                    self.low_reg(),
                    self.high_reg(),
                    self.pending_reg(),
                    self.extra_reg(),
                    src.skip(input.pos() as int / 8),
                )));
            }
        }
        Ok(())
    }

    /// Decompresses a symbol, reading bits until the symbol can be decoded.
    /// Before the first symbol, the value register is primed with `code_bits`
    /// bits from the input.  Fails with `Eof` exactly when the input runs out
    /// of bits, which can only happen once every bit has been consumed.
    pub fn decompress_symbol(&mut self, input: &mut BitReader) -> (r: Result<usize, Error>)
        requires
            old(self).dec_inv(),
            old(input).inv(),
        ensures
            final(input).inv(),
            final(input).source() == old(input).source(),
            final(input).pos() >= old(input).pos(),
            final(self).params() == old(self).params(),
            r matches Err(e) ==> e is Eof && final(input).pos() == 8 * old(input).source().len(),
            r matches Ok(s) ==> (s <= old(self).params().symbol_eof && final(self).dec_inv()
                && final(self).cf() == cf_update(old(self).params(), old(self).cf(), s as int)
                && old(self).cf()[s as int] <= decode_target(
                old(self).params(),
                old(self).cf(),
                old(self).low_reg(),
                old(self).high_reg(),
                primed_value(*old(self), *old(input)),
            ) < old(self).cf()[s as int + 1] && s as int == dec_find(
                old(self).cf(),
                decode_target(
                    old(self).params(),
                    old(self).cf(),
                    old(self).low_reg(),
                    old(self).high_reg(),
                    primed_value(*old(self), *old(input)),
                ),
                0,
            )),
            r is Ok ==> (final(self).extra_reg() == 0 && old(input).pos() + old(self).extra_reg()
                <= 8 * old(input).source().len()),
            (r matches Ok(s) && s != old(self).params().symbol_eof) ==> ({
                let rr = dec_renorm_after(
                    old(self).params(),
                    old(self).cf(),
                    old(self).low_reg(),
                    old(self).high_reg(),
                    primed_value(*old(self), *old(input)),
                    stream_bits(old(input).source()),
                    old(input).pos() + old(self).extra_reg(),
                );
                &&& final(self).low_reg() == rr.0
                &&& final(self).high_reg() == rr.1
                &&& final(self).pending_reg() == rr.2
                &&& final(input).pos() == rr.3
                &&& renorm_done(
                    old(self).params(),
                    final(self).low_reg() as int,
                    final(self).high_reg() as int,
                )
            }),
            r matches Err(e) ==> (old(input).pos() + old(self).extra_reg() > 8 * old(
                input,
            ).source().len() || ({
                let rr = dec_renorm_after(
                    old(self).params(),
                    old(self).cf(),
                    old(self).low_reg(),
                    old(self).high_reg(),
                    primed_value(*old(self), *old(input)),
                    stream_bits(old(input).source()),
                    old(input).pos() + old(self).extra_reg(),
                );
                let t = decode_target(
                    old(self).params(),
                    old(self).cf(),
                    old(self).low_reg(),
                    old(self).high_reg(),
                    primed_value(*old(self), *old(input)),
                );
                dec_find(old(self).cf(), t, 0) != old(self).params().symbol_eof && !renorm_done(
                    old(self).params(),
                    rr.0,
                    rr.1,
                )
            })),
            (r matches Ok(s) && s == old(self).params().symbol_eof) ==> (final(self).low_reg()
                == old(self).low_reg() && final(self).high_reg() == old(self).high_reg()
                && final(input).pos() == old(input).pos() + old(self).extra_reg()
                && final(self).extra_reg() == 0),
            (r matches Ok(s) && s != old(self).params().symbol_eof) ==> (final(input).pos() > old(input).pos() || (final(input).pos() == old(input).pos() && final(self).high_reg() - final(self).low_reg() < old(self).high_reg() - old(self).low_reg())),
    {
        let ghost p = self.params();
        let ghost cf0 = self.cf();
        proof {
            self.model.lemma_wf();
            lemma_quarters(p);
        }
        let ghost pos0 = input.pos();
        let ghost extra0 = self.extra;
        let ghost msnap = self.model_ref();
        proof {
            lemma_pow2_pos(0);
            input.lemma_shape();
            assert(stream_bits(input.source()).subrange(pos0 as int, pos0 as int) =~= Seq::<
                bool,
            >::empty());
        }
        while self.extra > 0
            invariant
                input.inv(),
                input.source() == old(input).source(),
                self.model_ref() == msnap,
                msnap == old(self).model_ref(),
                msnap.wf(),
                p == self.params(),
                p.valid(),
                pos0 == old(input).pos(),
                extra0 == old(self).extra_reg(),
                self.low_reg() == old(self).low_reg(),
                self.high_reg() == old(self).high_reg(),
                self.extra <= extra0 <= p.code_bits,
                extra0 > 0 ==> (extra0 == p.code_bits && old(self).pending_reg() == 0
                    && old(self).low_reg() == 0 && old(self).high_reg() == p.code_max),
                extra0 == 0 ==> self.pending_reg() == old(self).pending_reg(),
                input.pos() == pos0 + (extra0 - self.extra),
                extra0 > 0 ==> self.pending_reg() as nat == bits_val(
                    stream_bits(input.source()).subrange(pos0 as int, input.pos() as int),
                ),
                (self.pending_reg() as nat) < pow2((extra0 - self.extra) as nat) || extra0 == 0,
            decreases self.extra,
        {
            proof {
                crate::bitio::lemma_bits_val_bound(
                    stream_bits(input.source()).subrange(pos0 as int, input.pos() as int),
                );
                lemma_pow2_strictly_increases((extra0 - self.extra) as nat, 62);
                lemma2_to64_rest();
            }
            let ghost pend_pre = self.pending_reg();
            let ghost pos_pre = input.pos();
            match self.get_bit(input) {
                Ok(()) => {},
                Err(e) => {
                    proof {
                        input.lemma_shape();
                        assert(pos0 + extra0 > 8 * input.source().len());
                    }
                    return Err(e);
                },
            }
            self.extra = self.extra - 1;
            proof {
                let srcb = stream_bits(input.source());
                assert(srcb.subrange(pos0 as int, pos_pre as int + 1) =~= srcb.subrange(
                    pos0 as int,
                    pos_pre as int,
                ).push(srcb[pos_pre as int]));
                crate::bitio::lemma_bits_val_push(
                    srcb.subrange(pos0 as int, pos_pre as int),
                    srcb[pos_pre as int],
                );
                lemma_pow2_adds((extra0 - self.extra - 1) as nat, 1);
                lemma2_to64();
            }
        }
        proof {
            if extra0 > 0 {
                lemma_pow2_strictly_increases((p.code_bits - 2) as nat, p.code_bits as nat);
                assert((self.pending_reg() as nat) < pow2(p.code_bits as nat));
            }
            assert(self.low_reg() <= self.pending_reg() <= self.high_reg());
            lemma_cf_mono(p, cf0, 0, p.symbol_count as int);
        }
        let ghost srcb = stream_bits(input.source());
        let ghost v0 = self.pending;
        let ghost pos1 = input.pos();
        proof {
            input.lemma_shape();
            assert(v0 == primed_value(*old(self), *old(input)));
            assert(pos1 == old(input).pos() + extra0);
        }
        let range = self.high - self.low + 1;
        let count = self.model.total_frequency();
        proof {
            lemma_scale_bound(p, count, self.low, self.high, self.pending);
        }
        let value = ((self.pending - self.low + 1) * count - 1) / range;
        let ghost target = value;
        let (symbol, sl, sh) = match self.model.get_symbol(value) {
            Ok(t) => t,
            Err(e) => {
                proof {
                    assert(false);
                }
                return Err(e);
            },
        };
        proof {
            self.model.lemma_wf();
            lemma_dec_find(p, cf0, target as int, 0);
            lemma_symbol_unique(
                p,
                cf0,
                target,
                symbol as int,
                dec_find(cf0, target as int, 0),
            );
            assert(symbol as int == dec_find(cf0, decode_target(p, cf0, old(self).low_reg(), old(self).high_reg(), v0), 0));
        }
        if symbol == { self.model.parameters().symbol_eof } {
            return Ok(symbol);
        }
        let ghost msnap2 = self.model_ref();
        proof {
            lemma_cf_mono(p, cf0, 0, symbol as int);
            lemma_cf_mono(p, cf0, symbol as int + 1, p.symbol_count as int);
            lemma_range_update(p, count, sl, sh, self.low, self.high);
            lemma_decode_bracket(p, count, sl, sh, self.low, self.high, self.pending);
            lemma_range_shrinks(p, count, sl, sh, self.low, self.high);
            input.lemma_shape();
        }
        let ghost width0 = self.high_reg() - self.low_reg();
        self.high = self.low + (range * sh / count) - 1;
        self.low = self.low + (range * sl / count);
        let ghost width1 = self.high_reg() - self.low_reg();
        let ghost rr = dec_renorm(p, self.low as int, self.high as int, v0 as int, srcb, pos1 as int);
        proof {
            assert(rr == dec_renorm_after(
                p,
                cf0,
                old(self).low_reg(),
                old(self).high_reg(),
                v0,
                srcb,
                pos1 as int,
            ));
        }
        let ch = { self.model.parameters().code_half };
        let cq = { self.model.parameters().code_one_fourth };
        let c3q = { self.model.parameters().code_three_fourths };
        loop
            invariant
                input.inv(),
                input.source() == old(input).source(),
                srcb == stream_bits(input.source()),
                self.model_ref() == msnap2,
                msnap2.wf(),
                p == self.params(),
                p.valid(),
                ch == p.code_half,
                cq == p.code_one_fourth,
                c3q == p.code_three_fourths,
                self.extra == 0,
                self.low <= self.pending <= self.high,
                self.high <= p.code_max,
                width1 < width0 <= p.code_max,
                p == old(self).params(),
                pos1 >= old(input).pos(),
                pos1 == old(input).pos() + old(self).extra_reg(),
                8 * input.source().len() >= input.pos(),
                srcb.len() == 8 * input.source().len(),
                input.pos() >= pos1,
                input.pos() == pos1 ==> self.high_reg() - self.low_reg() <= width1,
                cf0 == old(self).cf(),
                v0 == primed_value(*old(self), *old(input)),
                symbol as int == dec_find(
                    cf0,
                    decode_target(p, cf0, old(self).low_reg(), old(self).high_reg(), v0),
                    0,
                ),
                symbol != p.symbol_eof,
                rr == dec_renorm_after(
                    p,
                    cf0,
                    old(self).low_reg(),
                    old(self).high_reg(),
                    v0,
                    srcb,
                    pos1 as int,
                ),
                rr == dec_renorm(
                    p,
                    self.low as int,
                    self.high as int,
                    self.pending as int,
                    srcb,
                    input.pos() as int,
                ),
            ensures
                input.inv(),
                input.source() == old(input).source(),
                self.model_ref() == msnap2,
                p == self.params(),
                self.extra == 0,
                self.low <= self.pending <= self.high,
                self.high <= p.code_max,
                self.high >= ch,
                self.low < ch,
                !(self.low >= cq && self.high < c3q),
                input.pos() >= pos1,
                input.pos() == pos1 ==> self.high_reg() - self.low_reg() <= width1,
                rr == dec_renorm(
                    p,
                    self.low as int,
                    self.high as int,
                    self.pending as int,
                    srcb,
                    input.pos() as int,
                ),
            decreases p.code_max + 1 - (self.high - self.low),
        {
            proof {
                lemma_quarters(p);
            }
            let ghost lpre = self.low;
            let ghost hpre = self.high;
            let ghost vpre = self.pending;
            let ghost pospre = input.pos();
            if self.high < ch {
                // no change to the registers beyond the shift
            } else if self.low >= ch {
                self.pending = self.pending - ch;
                self.low = self.low - ch;
                self.high = self.high - ch;
            } else if self.low >= cq && self.high < c3q {
                self.pending = self.pending - cq;
                self.low = self.low - cq;
                self.high = self.high - cq;
            } else {
                break ;
            }
            proof {
                lemma2_to64();
                lemma_u64_shl_is_mul(self.low, 1);
                lemma_u64_shl_is_mul(self.high, 1);
            }
            self.low = self.low << 1u64;
            self.high = (self.high << 1u64) + 1;
            match self.get_bit(input) {
                Ok(()) => {},
                Err(e) => {
                    proof {
                        input.lemma_shape();
                        // the recursion is stuck exactly where the read failed
                        assert(pospre >= srcb.len());
                        assert(!renorm_done(p, lpre as int, hpre as int));
                        assert(dec_renorm(p, lpre as int, hpre as int, vpre as int, srcb, pospre as int)
                            == (lpre as int, hpre as int, vpre as int, pospre as int));
                        assert(!renorm_done(p, rr.0, rr.1));
                    }
                    return Err(e);
                },
            }
            proof {
                // one unfolding of the renormalization recursion
                assert(pospre < srcb.len());
                assert(dec_renorm(p, lpre as int, hpre as int, vpre as int, srcb, pospre as int)
                    == dec_renorm(
                    p,
                    self.low as int,
                    self.high as int,
                    self.pending as int,
                    srcb,
                    input.pos() as int,
                ));
            }
        }
        proof {
            lemma_quarters(p);
            assert(rr == (self.low as int, self.high as int, self.pending as int, input.pos() as int));
        }
        Ok(symbol)
    }

    /// Decompresses a whole bit stream until the EOF symbol is found, writing
    /// every decoded byte to the output.  Fails with `InvalidInput` exactly
    /// when the parameters are not byte oriented, and with `Eof` when the
    /// input ends before the EOF symbol appears.
    #[verifier::rlimit(100)]
    #[verifier::spinoff_prover]
    pub fn decompress_bytes(&mut self, input: &mut BitReader, output: &mut BitWriter) -> (r:
        Result<(), Error>)
        requires
            old(self).dec_inv(),
            old(input).inv(),
            old(output).inv(),
        ensures
            final(input).inv(),
            final(input).source() == old(input).source(),
            final(output).inv(),
            old(output).bits_written().is_prefix_of(final(output).bits_written()),
            final(output).staged() == old(output).staged(),
            old(self).params().symbol_bits != 8 ==> (r matches Err(e) && e is InvalidInput
                && final(self).cf() == old(self).cf() && final(input).pos() == old(input).pos()
                && final(output).bits_written() == old(output).bits_written()),
            old(self).params().symbol_bits == 8 ==> (r is Ok || (r matches Err(e) && e is Eof
                && final(input).pos() == 8 * old(input).source().len())),
            old(self).params().symbol_bits == 8 ==> (r is Ok <==> dec_succeeds(
                old(self).params(),
                old(self).cf(),
                old(self).low_reg(),
                old(self).high_reg(),
                old(self).pending_reg(),
                old(self).extra_reg(),
                stream_bits(old(input).source()),
                old(input).pos() as int,
            )),
            (old(self).params().symbol_bits == 8 && r is Ok) ==> (final(output).bits_written()
                == old(output).bits_written() + stream_bits(
                dec_expected(
                    old(self).params(),
                    old(self).cf(),
                    old(self).low_reg(),
                    old(self).high_reg(),
                    old(self).pending_reg(),
                    old(self).extra_reg(),
                    stream_bits(old(input).source()),
                    old(input).pos() as int,
                ),
            ) && final(input).pos() == dec_stop_pos(
                old(self).params(),
                old(self).cf(),
                old(self).low_reg(),
                old(self).high_reg(),
                old(self).pending_reg(),
                old(self).extra_reg(),
                stream_bits(old(input).source()),
                old(input).pos() as int,
            )),
    {
        proof {
            self.model.lemma_wf();
        }
        if { self.model.parameters().symbol_bits } != 8 {
            return Err(Error::InvalidInput);
        }
        let ghost p = self.params();
        let eof = { self.model.parameters().symbol_eof };
        let ghost srcb = stream_bits(input.source());
        let ghost base = output.bits_written();
        let ghost expected = dec_expected(
            p,
            self.cf(),
            self.low_reg(),
            self.high_reg(),
            self.pending_reg(),
            self.extra_reg(),
            srcb,
            input.pos() as int,
        );
        let ghost mut done = Seq::<u8>::empty();
        proof {
            lemma2_to64();
            assert(eof == 256);
            input.lemma_shape();
            assert(stream_bits(Seq::<u8>::empty()) =~= Seq::<bool>::empty());
            assert(base + stream_bits(done) =~= base);
        }
        loop
            invariant_except_break
                self.dec_inv(),
                expected == done + dec_expected(
                    p,
                    self.cf(),
                    self.low_reg(),
                    self.high_reg(),
                    self.pending_reg(),
                    self.extra_reg(),
                    srcb,
                    input.pos() as int,
                ),
                dec_succeeds(
                    p,
                    old(self).cf(),
                    old(self).low_reg(),
                    old(self).high_reg(),
                    old(self).pending_reg(),
                    old(self).extra_reg(),
                    srcb,
                    old(input).pos() as int,
                ) == dec_succeeds(
                    p,
                    self.cf(),
                    self.low_reg(),
                    self.high_reg(),
                    self.pending_reg(),
                    self.extra_reg(),
                    srcb,
                    input.pos() as int,
                ),
                dec_stop_pos(
                    p,
                    old(self).cf(),
                    old(self).low_reg(),
                    old(self).high_reg(),
                    old(self).pending_reg(),
                    old(self).extra_reg(),
                    srcb,
                    old(input).pos() as int,
                ) == dec_stop_pos(
                    p,
                    self.cf(),
                    self.low_reg(),
                    self.high_reg(),
                    self.pending_reg(),
                    self.extra_reg(),
                    srcb,
                    input.pos() as int,
                ),
            invariant
                input.inv(),
                output.inv(),
                p == self.params(),
                p == old(self).params(),
                p.valid(),
                p.symbol_bits == 8,
                eof == p.symbol_eof == 256,
                input.source() == old(input).source(),
                srcb == stream_bits(input.source()),
                srcb.len() == 8 * input.source().len(),
                input.pos() <= 8 * input.source().len(),
                base == old(output).bits_written(),
                output.bits_written() == base + stream_bits(done),
                old(output).bits_written().is_prefix_of(output.bits_written()),
                output.staged() == old(output).staged(),
            ensures
                input.inv(),
                output.inv(),
                input.source() == old(input).source(),
                old(output).bits_written().is_prefix_of(output.bits_written()),
                output.staged() == old(output).staged(),
                output.bits_written() == base + stream_bits(expected),
                dec_succeeds(
                    p,
                    old(self).cf(),
                    old(self).low_reg(),
                    old(self).high_reg(),
                    old(self).pending_reg(),
                    old(self).extra_reg(),
                    srcb,
                    old(input).pos() as int,
                ),
                input.pos() == dec_stop_pos(
                    p,
                    old(self).cf(),
                    old(self).low_reg(),
                    old(self).high_reg(),
                    old(self).pending_reg(),
                    old(self).extra_reg(),
                    srcb,
                    old(input).pos() as int,
                ),
            decreases 8 * input.source().len() - input.pos(), self.high_reg() - self.low_reg(),
        {
            let ghost cfpre = self.cf();
            let ghost lowpre = self.low_reg();
            let ghost highpre = self.high_reg();
            let ghost pendpre = self.pending_reg();
            let ghost extrapre = self.extra_reg();
            let ghost pospre = input.pos();
            proof {
                self.model.lemma_wf();
            }
            let symbol = match self.decompress_symbol(input) {
                Ok(s) => s,
                Err(e) => {
                    proof {
                        // the current state cannot decode to EOF: either the
                        // priming bits are missing, or the renormalization
                        // runs dry
                        if pospre + extrapre > 8 * input.source().len() {
                            assert(extrapre > 0);
                        } else {
                            let v0: int = if extrapre > 0 {
                                bits_val(srcb.subrange(pospre as int, pospre + extrapre)) as int
                            } else {
                                pendpre as int
                            };
                            if extrapre > 0 {
                                crate::bitio::lemma_bits_val_bound(
                                    srcb.subrange(pospre as int, pospre + extrapre),
                                );
                                lemma_quarters(p);
                                lemma_pow2_strictly_increases(
                                    (p.code_bits - 2) as nat,
                                    p.code_bits as nat,
                                );
                            }
                            assert(dec_dom(
                                p,
                                cfpre,
                                lowpre as int,
                                highpre as int,
                                v0,
                                srcb,
                                pospre + extrapre,
                            ));
                            assert(!dec_run(
                                p,
                                cfpre,
                                lowpre as int,
                                highpre as int,
                                v0,
                                srcb,
                                pospre + extrapre,
                            ).1);
                        }
                        assert(!dec_succeeds(
                            p,
                            cfpre,
                            lowpre,
                            highpre,
                            pendpre,
                            extrapre,
                            srcb,
                            pospre as int,
                        ));
                    }
                    return Err(e);
                },
            };
            proof {
                input.lemma_shape();
                // the call decoded exactly the next symbol of the expected
                // stream
                let v0: int = if extrapre > 0 {
                    bits_val(srcb.subrange(pospre as int, pospre + extrapre)) as int
                } else {
                    pendpre as int
                };
                if extrapre > 0 {
                    crate::bitio::lemma_bits_val_bound(
                        srcb.subrange(pospre as int, pospre + extrapre),
                    );
                    lemma_quarters(p);
                    lemma_pow2_strictly_increases((p.code_bits - 2) as nat, p.code_bits as nat);
                }
                assert(v0 <= highpre);
                assert(dec_dom(p, cfpre, lowpre as int, highpre as int, v0, srcb, pospre + extrapre));
                assert(dec_expected(p, cfpre, lowpre, highpre, pendpre, extrapre, srcb, pospre as int)
                    == dec_stream(p, cfpre, lowpre as int, highpre as int, v0, srcb, pospre + extrapre));
                lemma_dec_stream_step(p, cfpre, lowpre as int, highpre as int, v0, srcb, pospre + extrapre);
                if symbol != 256 {
                    // a decoded symbol advances the whole-stream decode by
                    // one step
                    assert(renorm_done(p, self.low_reg() as int, self.high_reg() as int));
                    assert(dec_run(p, cfpre, lowpre as int, highpre as int, v0, srcb, pospre + extrapre).1
                        == dec_run(
                        p,
                        self.cf(),
                        self.low_reg() as int,
                        self.high_reg() as int,
                        self.pending_reg() as int,
                        srcb,
                        input.pos() as int,
                    ).1);
                    assert(dec_run(p, cfpre, lowpre as int, highpre as int, v0, srcb, pospre + extrapre).2
                        == dec_run(
                        p,
                        self.cf(),
                        self.low_reg() as int,
                        self.high_reg() as int,
                        self.pending_reg() as int,
                        srcb,
                        input.pos() as int,
                    ).2);
                    assert(dec_succeeds(p, cfpre, lowpre, highpre, pendpre, extrapre, srcb, pospre as int)
                        == dec_succeeds(
                        p,
                        self.cf(),
                        self.low_reg(),
                        self.high_reg(),
                        self.pending_reg(),
                        self.extra_reg(),
                        srcb,
                        input.pos() as int,
                    ));
                    assert(dec_stop_pos(p, cfpre, lowpre, highpre, pendpre, extrapre, srcb, pospre as int)
                        == dec_stop_pos(
                        p,
                        self.cf(),
                        self.low_reg(),
                        self.high_reg(),
                        self.pending_reg(),
                        self.extra_reg(),
                        srcb,
                        input.pos() as int,
                    ));
                }
            }
            if symbol == eof {
                proof {
                    assert(dec_expected(p, cfpre, lowpre, highpre, pendpre, extrapre, srcb, pospre as int)
                        =~= Seq::<u8>::empty());
                    assert(expected =~= done);
                    assert(output.bits_written() == base + stream_bits(expected));
                    assert(dec_succeeds(p, cfpre, lowpre, highpre, pendpre, extrapre, srcb, pospre as int));
                    assert(dec_stop_pos(p, cfpre, lowpre, highpre, pendpre, extrapre, srcb, pospre as int)
                        == input.pos());
                }
                break ;
            }
            let res = output.write_byte(symbol as u8);
            proof {
                assert(old(output).bits_written().is_prefix_of(output.bits_written())) by {
                    assert(old(output).bits_written() =~= output.bits_written().take(
                        old(output).bits_written().len() as int,
                    ));
                }
                crate::bitio::lemma_stream_bits_push(done, symbol as u8);
                assert(base + (stream_bits(done) + nat_bits(symbol as u8 as nat, 8)) =~= (base
                    + stream_bits(done)) + nat_bits(symbol as nat, 8));
                assert(expected == done.push(symbol as u8) + dec_expected(
                    p,
                    self.cf(),
                    self.low_reg(),
                    self.high_reg(),
                    self.pending_reg(),
                    self.extra_reg(),
                    srcb,
                    input.pos() as int,
                )) by {
                    assert(done + (seq![symbol as u8] + dec_expected(
                        p,
                        self.cf(),
                        self.low_reg(),
                        self.high_reg(),
                        self.pending_reg(),
                        self.extra_reg(),
                        srcb,
                        input.pos() as int,
                    )) =~= done.push(symbol as u8) + dec_expected(
                        p,
                        self.cf(),
                        self.low_reg(),
                        self.high_reg(),
                        self.pending_reg(),
                        self.extra_reg(),
                        srcb,
                        input.pos() as int,
                    ));
                }
                done = done.push(symbol as u8);
            }
        }
        Ok(())
    }
}

/// The target value the decoder scales out of the current range.
pub open spec fn decode_target(p: Parameters, cf: Seq<u64>, low: u64, high: u64, value: u64) -> int {
    ((value - low + 1) * cf[p.symbol_count as int] - 1) / ((high - low + 1) as int)
}

/// The value register as it stands after priming: the next `code_bits` bits
/// of the input for a fresh decoder, the current register otherwise.
pub open spec fn primed_value<M: Model>(c: Codec<M>, r: BitReader) -> u64 {
    if c.extra_reg() > 0 {
        bits_val(
            stream_bits(r.source()).subrange(
                r.pos() as int,
                r.pos() + c.params().code_bits,
            ),
        ) as u64
    } else {
        c.pending_reg()
    }
}

/// The bit of a byte stream at the given position.
pub open spec fn stream_bit(bytes: Seq<u8>, k: int) -> bool {
    crate::bitio::stream_bits(bytes)[k]
}

/// Shifting a word left by one and appending a bit is arithmetic.
proof fn lemma_u64_shl1_or_bit(x: u64, b: u64)
    by (bit_vector)
    requires
        x <= 0x7fff_ffff_ffff_ffffu64,
        b <= 1,
    ensures
        ((x << 1u64) | b) == 2 * x + b,
{
}

} // verus!
