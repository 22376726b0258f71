//! Adaptive linear symbol frequency model.

use vstd::prelude::*;

use crate::model::{cf_init, cf_update, cf_wf, lemma_cf_init_wf, lemma_cf_mono, lemma_cf_update_wf,
    Model, Parameters};
use crate::Error;

verus! {

/// Adaptive model that uses a simple array for cumulative frequencies and
/// simple, but slow linear algorithms for operations.
pub struct AdaptiveLinearModel {
    /// Array of cumulative frequencies.
    freq: Vec<u64>,
    /// Arithmetic parameters.
    params: Parameters,
}

impl AdaptiveLinearModel {
    /// The stored array is a well-formed cumulative frequency table.
    pub closed spec fn inv(self) -> bool {
        self.params.valid() && cf_wf(self.params, self.freq@)
    }

    /// Initializes the model with the given parameters: every symbol starts
    /// with frequency one.
    pub fn new(p: Parameters) -> (m: AdaptiveLinearModel)
        requires
            p.valid(),
        ensures
            m.wf(),
            m.params() == p,
            m.cf() == cf_init(p),
    {
        proof {
            crate::model::lemma_symbol_count_small(p);
        }
        let n = p.symbol_count;
        let mut freq: Vec<u64> = Vec::new();
        let mut i: usize = 0;
        while i <= n
            invariant
                i <= n + 1,
                n == p.symbol_count,
                n < 0x4000_0000,
                p.valid(),
                freq@.len() == i,
                forall|j: int| 0 <= j < i ==> freq@[j] == j as u64,
            decreases n + 1 - i,
        {
            freq.push(i as u64);
            i = i + 1;
        }
        let m = AdaptiveLinearModel { freq, params: p };
        proof {
            lemma_cf_init_wf(p);
            assert(m.freq@ =~= cf_init(p));
        }
        m
    }

    /// Updates the cumulative frequencies for the given symbol.
    fn update(&mut self, symbol: usize)
        requires
            old(self).inv(),
            symbol < old(self).params.symbol_count,
        ensures
            final(self).inv(),
            final(self).params == old(self).params,
            final(self).freq@ == cf_update(old(self).params, old(self).freq@, symbol as int),
    {
        let ghost p = self.params;
        let ghost cf0 = self.freq@;
        proof {
            crate::model::lemma_symbol_count_small(p);
        }
        let n = self.params.symbol_count;
        let total = self.freq[n];
        if total < self.params.freq_max {
            let mut i = symbol + 1;
            while i < n + 1
                invariant
                    p == old(self).params,
                    cf0 == old(self).freq@,
                    n < 0x4000_0000,
                    self.params == p,
                    p.valid(),
                    cf_wf(p, cf0),
                    cf0[p.symbol_count as int] < p.freq_max,
                    symbol < p.symbol_count,
                    symbol + 1 <= i <= n + 1,
                    n == p.symbol_count,
                    self.freq@.len() == cf0.len(),
                    forall|j: int| 0 <= j < i ==> self.freq@[j] == cf_update(p, cf0, symbol as int)[j],
                    forall|j: int| i <= j < cf0.len() ==> self.freq@[j] == cf0[j],
                decreases n + 1 - i,
            {
                proof {
                    lemma_cf_mono(p, cf0, i as int, p.symbol_count as int);
                }
                let v = self.freq[i];
                self.freq[i] = v + 1;
                i = i + 1;
            }
            proof {
                assert(self.freq@ =~= cf_update(p, cf0, symbol as int));
                lemma_cf_update_wf(p, cf0, symbol as int);
            }
        } else {
            proof {
                assert(self.freq@ =~= cf_update(p, cf0, symbol as int));
            }
        }
    }
}

impl Model for AdaptiveLinearModel {
    closed spec fn params(&self) -> Parameters {
        self.params
    }

    closed spec fn cf(&self) -> Seq<u64> {
        self.freq@
    }

    open spec fn wf(&self) -> bool {
        self.inv()
    }

    proof fn lemma_wf(&self) {
    }

    fn parameters(&self) -> (p: &Parameters) {
        &self.params
    }

    fn total_frequency(&self) -> (t: u64) {
        self.freq[self.params.symbol_count]
    }

    fn get_frequency(&mut self, symbol: usize) -> (r: Result<(u64, u64), Error>) {
        if symbol > self.params.symbol_eof {
            Err(Error::InvalidInput)
        } else {
            let res = (self.freq[symbol], self.freq[symbol + 1]);
            self.update(symbol);
            Ok(res)
        }
    }

    fn get_symbol(&mut self, value: u64) -> (r: Result<(usize, u64, u64), Error>) {
        let ghost p = self.params;
        let ghost cf0 = self.freq@;
        let n = self.params.symbol_count;
        let mut i: usize = 0;
        while i < n
            invariant
                p == old(self).params,
                cf0 == old(self).freq@,
                self.params == p,
                self.freq@ == cf0,
                p.valid(),
                cf_wf(p, cf0),
                0 <= i <= n,
                n == p.symbol_count,
                cf0[i as int] <= value,
            decreases n - i,
        {
            if value < self.freq[i + 1] {
                let res = (i, self.freq[i], self.freq[i + 1]);
                proof {
                    lemma_cf_mono(p, cf0, i as int + 1, p.symbol_count as int);
                }
                self.update(i);
                return Ok(res);
            }
            i = i + 1;
        }
        Err(Error::InvalidInput)
    }

    fn get_freq_table(&self) -> (r: Vec<(u64, u64)>) {
        let n = self.params.symbol_count;
        let mut res: Vec<(u64, u64)> = Vec::new();
        let mut i: usize = 0;
        while i < n
            invariant
                self.inv(),
                0 <= i <= n,
                n == self.params.symbol_count,
                res@.len() == i,
                forall|j: int| 0 <= j < i ==> res@[j] == (self.cf()[j], self.cf()[j + 1]),
            decreases n - i,
        {
            res.push((self.freq[i], self.freq[i + 1]));
            i = i + 1;
        }
        res
    }
}

} // verus!
