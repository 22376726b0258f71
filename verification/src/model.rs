//! Symbol frequency distribution models.
//!
//! A model maintains a cumulative frequency table over the alphabet
//! `0 ..= symbol_eof`.  The table is described abstractly by the sequence
//! `cf`, where `cf[i]` is the summed frequency of all symbols below `i`;
//! `cf[symbol_count]` is the total frequency.  After every query the table
//! adapts: the queried symbol's frequency grows by one unless the total has
//! reached its cap, which freezes the table.

use vstd::arithmetic::div_mod::*;
use vstd::arithmetic::mul::*;
use vstd::arithmetic::power2::*;
use vstd::bits::*;
use vstd::prelude::*;

use crate::Error;

mod adaptive_linear;
mod adaptive_tree;

pub use adaptive_linear::AdaptiveLinearModel;
pub use adaptive_tree::AdaptiveTreeModel;

verus! {

/// Model parameters that specify the common properties of the models.
#[derive(Clone)]
pub struct Parameters {
    /// Bit width of the symbols being encoded.
    /// Usually 8 for byte oriented inputs.
    pub symbol_bits: usize,
    /// Code for the EOF symbol.
    /// This is the next symbol code after the valid symbols to encode.
    pub symbol_eof: usize,
    /// Number of possible symbols including the EOF symbol.
    pub symbol_count: usize,
    /// Number of bits representing symbol frequencies.
    pub freq_bits: usize,
    /// Maximum cumulated frequency value for symbols.
    pub freq_max: u64,
    /// Number of bits representing the current code ranges.
    pub code_bits: usize,
    /// Minimum value for code range.
    /// This is always zero.
    pub code_min: u64,
    /// Delimiter for the one fourth of the valid code range.
    pub code_one_fourth: u64,
    /// Delimiter for the half of the valid code range.
    pub code_half: u64,
    /// Delimiter for the three fourths of the valid code range.
    pub code_three_fourths: u64,
    /// Upper limit of the valid code range.
    pub code_max: u64,
}

impl Parameters {
    /// The widths are in range and every derived field carries its defining
    /// value.
    pub open spec fn valid(self) -> bool {
        &&& 1 <= self.symbol_bits
        &&& self.symbol_bits + 2 <= self.freq_bits
        &&& self.freq_bits + 2 <= self.code_bits
        &&& self.code_bits + self.freq_bits <= 64
        &&& self.symbol_eof == pow2(self.symbol_bits as nat)
        &&& self.symbol_count == self.symbol_eof + 1
        &&& self.freq_max == pow2(self.freq_bits as nat) - 1
        &&& self.code_min == 0
        &&& self.code_one_fourth == pow2((self.code_bits - 2) as nat)
        &&& self.code_half == 2 * pow2((self.code_bits - 2) as nat)
        &&& self.code_three_fourths == 3 * pow2((self.code_bits - 2) as nat)
        &&& self.code_max == pow2(self.code_bits as nat) - 1
    }

    /// Calculates all parameter values based on the `symbol`, `frequency` and
    /// `code` widths.  Fails exactly when the widths break one of the bounds
    /// `symbol >= 1`, `frequency >= symbol + 2`, `code >= frequency + 2` or
    /// `code + frequency <= 64`.
    pub fn new(symbol: usize, frequency: usize, code: usize) -> (r: Result<Parameters, Error>)
        ensures
            (symbol < 1 || frequency < symbol + 2 || code < frequency + 2 || 64 < code + frequency)
                <==> (r matches Err(e) && e is InvalidInput),
            !(symbol < 1 || frequency < symbol + 2 || code < frequency + 2 || 64 < code
                + frequency) <==> r is Ok,
            r matches Ok(p) ==> p.valid() && p.symbol_bits == symbol && p.freq_bits == frequency
                && p.code_bits == code,
    {
        if symbol < 1 || frequency < 2 || frequency - 2 < symbol || code < 2 || code - 2 < frequency
            || 64 < code || 64 - code < frequency {
            Err(Error::InvalidInput)
        } else {
            proof {
                // the bounds give symbol <= 29, frequency <= 31, code <= 61
                lemma2_to64();
                lemma2_to64_rest();
                lemma_pow2_strictly_increases(symbol as nat, 32);
                assert(usize::MAX >= 0xffff_ffffusize);
                lemma_mul_basics(pow2(symbol as nat) as int);
                lemma_usize_shl_is_mul(1usize, symbol);
                lemma_pow2_strictly_increases(frequency as nat, 32);
                lemma_mul_basics(pow2(frequency as nat) as int);
                lemma_u64_shl_is_mul(1u64, frequency as u64);
                lemma_pow2_strictly_increases((code - 2) as nat, 60);
                lemma_mul_basics(pow2((code - 2) as nat) as int);
                lemma_u64_shl_is_mul(1u64, (code - 2) as u64);
                lemma_u64_shl_is_mul(2u64, (code - 2) as u64);
                lemma_u64_shl_is_mul(3u64, (code - 2) as u64);
                lemma_pow2_strictly_increases(code as nat, 62);
                lemma_mul_basics(pow2(code as nat) as int);
                lemma_u64_shl_is_mul(1u64, code as u64);
            }
            let eof: usize = 1usize << symbol;
            Ok(
                Parameters {
                    symbol_bits: symbol,
                    symbol_eof: eof,
                    symbol_count: eof + 1,
                    freq_bits: frequency,
                    freq_max: (1u64 << (frequency as u64)) - 1,
                    code_bits: code,
                    code_min: 0,
                    code_one_fourth: 1u64 << ((code - 2) as u64),
                    code_half: 2u64 << ((code - 2) as u64),
                    code_three_fourths: 3u64 << ((code - 2) as u64),
                    code_max: (1u64 << (code as u64)) - 1,
                },
            )
        }
    }
}

/// A well-formed cumulative frequency table for the given parameters: it
/// starts at zero, strictly increases (every symbol keeps frequency at least
/// one), and its total stays within the cap.
pub open spec fn cf_wf(p: Parameters, cf: Seq<u64>) -> bool {
    &&& cf.len() == p.symbol_count + 1
    &&& cf[0] == 0
    &&& (forall|i: int| 0 <= i < p.symbol_count ==> #[trigger] cf[i] < cf[i + 1])
    &&& cf[p.symbol_count as int] <= p.freq_max
}

/// The initial table: every symbol, the EOF symbol included, has frequency
/// one.
pub open spec fn cf_init(p: Parameters) -> Seq<u64> {
    Seq::new((p.symbol_count + 1) as nat, |i: int| i as u64)
}

/// The table after the adaptive update for `symbol`: every entry above the
/// symbol grows by one, unless the total has reached the cap, which leaves
/// the table frozen.
pub open spec fn cf_update(p: Parameters, cf: Seq<u64>, symbol: int) -> Seq<u64> {
    if cf[p.symbol_count as int] < p.freq_max {
        Seq::new(
            cf.len(),
            |i: int|
                if i > symbol {
                    (cf[i] + 1) as u64
                } else {
                    cf[i]
                },
        )
    } else {
        cf
    }
}

/// The alphabet of valid parameters is small: the derived counts fit
/// comfortably in a word.
pub proof fn lemma_symbol_count_small(p: Parameters)
    requires
        p.valid(),
    ensures
        p.symbol_count < 0x4000_0000,
        p.symbol_count + 1 < usize::MAX,
{
    lemma2_to64();
    lemma2_to64_rest();
    lemma_pow2_strictly_increases(p.symbol_bits as nat, 30);
    crate::bitio::lemma_usize_max_bits();
}

/// A well-formed table grows by at least one per index.
pub proof fn lemma_cf_mono(p: Parameters, cf: Seq<u64>, i: int, j: int)
    requires
        cf_wf(p, cf),
        0 <= i <= j <= p.symbol_count,
    ensures
        cf[i] + (j - i) <= cf[j],
    decreases j - i,
{
    if i < j {
        lemma_cf_mono(p, cf, i, j - 1);
        assert(cf[j - 1] < cf[j]);
    }
}

/// The initial table is well formed for valid parameters.
pub proof fn lemma_cf_init_wf(p: Parameters)
    requires
        p.valid(),
    ensures
        cf_wf(p, cf_init(p)),
{
    assert(p.symbol_count + 1 <= pow2(p.freq_bits as nat)) by {
        lemma2_to64();
        lemma_pow2_adds(p.symbol_bits as nat, 2);
        lemma_pow2_pos(p.symbol_bits as nat);
        if p.symbol_bits + 2 < p.freq_bits {
            lemma_pow2_strictly_increases((p.symbol_bits + 2) as nat, p.freq_bits as nat);
        }
    }
}

/// Updating a well-formed table keeps it well formed.
pub proof fn lemma_cf_update_wf(p: Parameters, cf: Seq<u64>, symbol: int)
    requires
        p.valid(),
        cf_wf(p, cf),
        0 <= symbol,
    ensures
        cf_wf(p, cf_update(p, cf, symbol)),
        cf_update(p, cf, symbol)[0] == 0,
{
    if cf[p.symbol_count as int] < p.freq_max {
        let cf2 = cf_update(p, cf, symbol);
        assert forall|i: int| 0 <= i < p.symbol_count implies cf2[i] < #[trigger] cf2[i + 1] by {
            lemma_cf_mono(p, cf, i + 1, p.symbol_count as int);
        }
        assert(cf2[p.symbol_count as int] <= p.freq_max);
    }
}

/// At most one symbol's cumulative range contains a given value: the heart of
/// model equivalence.  Any two models that answer queries from equal tables
/// return the same symbol and the same range, and their tables evolve
/// identically, so a Linear and a Fenwick model driven by one call sequence
/// stay bit-identical.
pub proof fn lemma_symbol_unique(p: Parameters, cf: Seq<u64>, value: u64, s1: int, s2: int)
    requires
        cf_wf(p, cf),
        0 <= s1 < p.symbol_count,
        0 <= s2 < p.symbol_count,
        cf[s1] <= value < cf[s1 + 1],
        cf[s2] <= value < cf[s2 + 1],
    ensures
        s1 == s2,
{
    if s1 < s2 {
        lemma_cf_mono(p, cf, s1 + 1, s2);
    }
    if s2 < s1 {
        lemma_cf_mono(p, cf, s2 + 1, s1);
    }
}

/// Trait for the probability models behind arithmetic coding.
/// Possible implementations may include static models with fixed
/// probabilities or an adaptive model that continuously updates cumulative
/// frequencies.
pub trait Model: Sized {
    /// The parameters the model was built with.
    spec fn params(&self) -> Parameters;

    /// The cumulative frequency table: entry `i` is the summed frequency of
    /// all symbols below `i`.
    spec fn cf(&self) -> Seq<u64>;

    /// Model well-formedness.
    spec fn wf(&self) -> bool;

    /// A well-formed model has valid parameters and a well-formed table.
    proof fn lemma_wf(&self)
        requires
            self.wf(),
        ensures
            self.params().valid(),
            cf_wf(self.params(), self.cf()),
    ;

    /// Returns the arithmetic compression parameters.
    fn parameters(&self) -> (p: &Parameters)
        requires
            self.wf(),
        ensures
            *p == self.params(),
    ;

    /// Returns the maximum cumulative frequency.
    fn total_frequency(&self) -> (t: u64)
        requires
            self.wf(),
        ensures
            t == self.cf()[self.params().symbol_count as int],
    ;

    /// Returns the cumulative frequency range for the given input symbol and
    /// then updates the table.  Fails with `InvalidInput` exactly when the
    /// symbol lies outside the alphabet.
    fn get_frequency(&mut self, symbol: usize) -> (r: Result<(u64, u64), Error>)
        requires
            old(self).wf(),
        ensures
            final(self).wf(),
            final(self).params() == old(self).params(),
            symbol > old(self).params().symbol_eof ==> (r matches Err(e) && e is InvalidInput
                && final(self).cf() == old(self).cf()),
            symbol <= old(self).params().symbol_eof ==> r == Ok::<(u64, u64), Error>(
                (old(self).cf()[symbol as int], old(self).cf()[symbol as int + 1]),
            ) && final(self).cf() == cf_update(old(self).params(), old(self).cf(), symbol as int),
    ;

    /// Returns the symbol whose cumulative range contains the given value,
    /// together with that range, and then updates the table.  Fails with
    /// `InvalidInput` exactly when the value is at least the total frequency.
    fn get_symbol(&mut self, value: u64) -> (r: Result<(usize, u64, u64), Error>)
        requires
            old(self).wf(),
        ensures
            final(self).wf(),
            final(self).params() == old(self).params(),
            value >= old(self).cf()[old(self).params().symbol_count as int] ==> (r matches Err(e)
                && e is InvalidInput && final(self).cf() == old(self).cf()),
            value < old(self).cf()[old(self).params().symbol_count as int] ==> (r matches Ok(t)
                && t.0 <= old(self).params().symbol_eof && t.1 == old(self).cf()[t.0 as int] && t.2
                == old(self).cf()[t.0 as int + 1] && t.1 <= value < t.2 && final(self).cf()
                == cf_update(old(self).params(), old(self).cf(), t.0 as int)),
    ;

    /// Returns the reconstructed `(CF(i), CF(i+1))` table over the alphabet,
    /// for cross-validation of model implementations.
    fn get_freq_table(&self) -> (r: Vec<(u64, u64)>)
        requires
            self.wf(),
        ensures
            r@.len() == self.params().symbol_count,
            forall|i: int|
                0 <= i < r@.len() ==> r@[i] == (self.cf()[i], self.cf()[i + 1]),
    ;
}

} // verus!
