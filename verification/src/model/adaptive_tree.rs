//! Symbol frequency model implemented by a binary indexed (Fenwick) tree.
//!
//! Entry `j >= 1` of the tree holds the summed frequency of the index
//! interval `(j - lowbit(j), j]`, where `lowbit(j)` is the value of the
//! rightmost one bit of `j`.  Prefix sums descend the chain
//! `j, j - lowbit(j), ...`; point updates ascend `j, j + lowbit(j), ...`.

use vstd::arithmetic::power2::*;
use vstd::bits::*;
use vstd::prelude::*;

use crate::model::{cf_update, cf_wf, cf_init, lemma_cf_init_wf, lemma_cf_mono, lemma_cf_update_wf,
    lemma_symbol_count_small, Model, Parameters};
use crate::Error;

verus! {

/// The value of the rightmost one bit of `i` (zero for zero).
pub open spec fn lowbit(i: nat) -> nat
    decreases i,
{
    if i == 0 {
        0
    } else if i % 2 == 1 {
        1
    } else {
        2 * lowbit(i / 2)
    }
}

/// The rightmost one bit of a positive number is at least one and at most the
/// number itself.
pub proof fn lemma_lowbit_bounds(i: nat)
    requires
        i >= 1,
    ensures
        1 <= lowbit(i) <= i,
    decreases i,
{
    if i % 2 == 0 {
        lemma_lowbit_bounds(i / 2);
    }
}

/// Doubling doubles the rightmost one bit.
proof fn lemma_lowbit_double(i: nat)
    requires
        i >= 1,
    ensures
        lowbit(2 * i) == 2 * lowbit(i),
{
    assert((2 * i) % 2 == 0 && (2 * i) / 2 == i) by {
        vstd::arithmetic::div_mod::lemma_fundamental_div_mod_converse(2 * i as int, 2, i as int, 0);
    }
}

/// Adding the rightmost one bit clears it and carries upward: the new
/// rightmost one bit is at least twice the old one.
pub proof fn lemma_lowbit_step(i: nat)
    requires
        i >= 1,
    ensures
        lowbit(i + lowbit(i)) >= 2 * lowbit(i),
    decreases i,
{
    if i % 2 == 1 {
        let j = i + 1;
        assert(j % 2 == 0 && j >= 2);
        lemma_lowbit_bounds(j / 2);
    } else {
        let h = i / 2;
        lemma_lowbit_step(h);
        assert(i == 2 * h && i + lowbit(i) == 2 * (h + lowbit(h)));
        lemma_lowbit_bounds(h);
        lemma_lowbit_double(h + lowbit(h));
        lemma_lowbit_double(h);
    }
}

/// Numbers strictly between `i` and `i + lowbit(i)` keep their own low bits:
/// adding `i` does not disturb positions below `lowbit(i)`.
pub proof fn lemma_lowbit_skip(i: nat, r: nat)
    requires
        i >= 1,
        0 < r < lowbit(i),
    ensures
        lowbit(i + r) == lowbit(r),
    decreases i,
{
    if i % 2 == 1 {
        // lowbit(i) == 1 leaves no room for r
        assert(false);
    } else {
        let h = i / 2;
        assert(i == 2 * h);
        lemma_lowbit_bounds(h);
        if r % 2 == 1 {
            assert((i + r) % 2 == 1);
        } else {
            let q = r / 2;
            assert(r == 2 * q && q >= 1);
            lemma_lowbit_skip(h, q);
            lemma_lowbit_double(h + q);
            lemma_lowbit_double(q);
            assert(i + r == 2 * (h + q));
        }
    }
}

/// A power of two is its own rightmost one bit.
pub proof fn lemma_lowbit_pow2(k: nat)
    ensures
        lowbit(pow2(k)) == pow2(k),
    decreases k,
{
    if k == 0 {
        assert(pow2(0) == 1) by {
            lemma2_to64();
        }
    } else {
        lemma_lowbit_pow2((k - 1) as nat);
        lemma_pow2_pos((k - 1) as nat);
        assert(pow2(k) == 2 * pow2((k - 1) as nat)) by {
            lemma_pow2_adds(1, (k - 1) as nat);
            lemma2_to64();
        }
        lemma_lowbit_double(pow2((k - 1) as nat));
    }
}

/// The rightmost one bit of a positive multiple of a power of two is at least
/// that power of two.
pub proof fn lemma_lowbit_multiple(i: nat, k: nat)
    requires
        i >= 1,
        i % pow2(k) == 0,
    ensures
        lowbit(i) >= pow2(k),
    decreases k,
{
    if k == 0 {
        lemma2_to64();
        lemma_lowbit_bounds(i);
    } else {
        let d = pow2(k);
        assert(d == 2 * pow2((k - 1) as nat)) by {
            lemma_pow2_adds(1, (k - 1) as nat);
            lemma2_to64();
        }
        lemma_pow2_pos((k - 1) as nat);
        // i is even because an even number divides it
        assert(i % 2 == 0) by {
            vstd::arithmetic::div_mod::lemma_mod_mod(i as int, 2, pow2((k - 1) as nat) as int);
        }
        let h = i / 2;
        assert(i == 2 * h) by {
            vstd::arithmetic::div_mod::lemma_fundamental_div_mod(i as int, 2);
        }
        assert(h % pow2((k - 1) as nat) == 0) by {
            vstd::arithmetic::div_mod::lemma_breakdown(i as int, 2, pow2((k - 1) as nat) as int);
        }
        lemma_lowbit_multiple(h, (k - 1) as nat);
        lemma_lowbit_double(h);
    }
}

/// Adding a power of two to a multiple of the next power of two gives a
/// number whose rightmost one bit is exactly the added power: the shape of
/// the nodes visited by the tree descent.
pub proof fn lemma_lowbit_aligned(i: nat, k: nat)
    requires
        i % (2 * pow2(k)) == 0,
    ensures
        lowbit(i + pow2(k)) == pow2(k),
{
    lemma_pow2_pos(k);
    if i == 0 {
        lemma_lowbit_pow2(k);
    } else {
        assert(i % pow2(k + 1) == 0) by {
            lemma_pow2_adds(1, k);
            lemma2_to64();
        }
        lemma_lowbit_multiple(i, k + 1);
        assert(lowbit(i) >= 2 * pow2(k)) by {
            lemma_pow2_adds(1, k);
            lemma2_to64();
        }
        lemma_lowbit_skip(i, pow2(k));
        lemma_lowbit_pow2(k);
    }
}

/// Computing the rightmost one bit by two's complement: `x & (!x + 1)`.
proof fn lemma_u64_lowbit(x: u64)
    requires
        1 <= x,
    ensures
        (x & ((((!x) as int) + 1) as u64)) as nat == lowbit(x as nat),
    decreases x,
{
    let m: u64 = (((!x) as int) + 1) as u64;
    assert((!x) < 0xffff_ffff_ffff_ffffu64) by (bit_vector)
        requires
            x >= 1,
    ;
    if x % 2 == 1 {
        assert(x & m == 1) by (bit_vector)
            requires
                x % 2 == 1 && m as int == ((!x) as int) + 1,
        ;
    } else {
        let y = x / 2;
        assert((!y) < 0xffff_ffff_ffff_ffffu64) by (bit_vector)
            requires
                y >= 1,
        ;
        let my: u64 = (((!y) as int) + 1) as u64;
        lemma_u64_lowbit(y);
        assert((x & m) as int == 2 * ((y & my) as int)) by (bit_vector)
            requires
                x % 2 == 0 && x >= 2 && y == x / 2 && m as int == ((!x) as int) + 1 && my as int
                    == ((!y) as int) + 1,
        ;
    }
}

/// Extracts the rightmost one bit of `i`: `10110100` becomes `00000100`.
fn last_one(i: usize) -> (r: usize)
    requires
        1 <= i,
    ensures
        r as nat == lowbit(i as nat),
        1 <= r <= i,
{
    let x = i as u64;
    proof {
        assert((!x) < 0xffff_ffff_ffff_ffffu64) by (bit_vector)
            requires
                x >= 1,
        ;
        lemma_u64_lowbit(x);
        lemma_lowbit_bounds(x as nat);
    }
    let l = x & ((!x) + 1);
    l as usize
}

/// The table entry at `j`, clipped to the final entry: the upper search
/// bound of the tree descent.
pub open spec fn cf_clip(cf: Seq<u64>, p: Parameters, j: int) -> u64 {
    if j <= p.symbol_count {
        cf[j]
    } else {
        cf[p.symbol_count as int]
    }
}

/// Two distinct multiples of `d` lie at least `d` apart.
proof fn lemma_multiple_gap(a: int, b: int, d: int)
    requires
        d >= 1,
        0 <= a < b,
        a % d == 0,
        b % d == 0,
    ensures
        a + d <= b,
{
    vstd::arithmetic::div_mod::lemma_fundamental_div_mod(a, d);
    vstd::arithmetic::div_mod::lemma_fundamental_div_mod(b, d);
    let qa = a / d;
    let qb = b / d;
    assert(a == d * qa && b == d * qb);
    assert(qa < qb) by {
        if qb <= qa {
            vstd::arithmetic::mul::lemma_mul_inequality(qb, qa, d);
            vstd::arithmetic::mul::lemma_mul_is_commutative(qb, d);
            vstd::arithmetic::mul::lemma_mul_is_commutative(qa, d);
        }
    }
    assert(d * (qa + 1) <= d * qb) by {
        vstd::arithmetic::mul::lemma_mul_inequality(qa + 1, qb, d);
        vstd::arithmetic::mul::lemma_mul_is_commutative(qa + 1, d);
        vstd::arithmetic::mul::lemma_mul_is_commutative(qb, d);
    }
    assert(d * (qa + 1) == d * qa + d) by {
        vstd::arithmetic::mul::lemma_mul_is_distributive_add(d, qa, 1);
    }
}

/// One probe of the symbol-search descent: starting from a position `i`
/// aligned on twice the probe width `pow2(e)`, the probed node `i + pow2(e)`
/// lies within the alphabet and covers exactly the interval that starts at
/// `i`.
proof fn lemma_descent_probe(p: Parameters, i: nat, e: nat)
    requires
        p.valid(),
        pow2(e) <= p.symbol_eof,
        i <= p.symbol_eof,
        i % (2 * pow2(e)) == 0,
    ensures
        i < p.symbol_eof ==> i + pow2(e) <= p.symbol_eof,
        lowbit(i + pow2(e)) == pow2(e),
{
    lemma_pow2_pos(e);
    if e > p.symbol_bits as nat {
        lemma_pow2_strictly_increases(p.symbol_bits as nat, e);
    }
    lemma_pow2_adds((p.symbol_bits - e) as nat, e);
    vstd::arithmetic::div_mod::lemma_mod_multiples_basic(
        pow2((p.symbol_bits - e) as nat) as int,
        pow2(e) as int,
    );
    assert(p.symbol_eof as int % pow2(e) as int == 0);
    assert(i as int % pow2(e) as int == 0) by {
        assert(i as int % (pow2(e) as int * 2) == 0);
        vstd::arithmetic::div_mod::lemma_mod_breakdown(i as int, pow2(e) as int, 2);
        vstd::arithmetic::mul::lemma_mul_nonnegative(
            pow2(e) as int,
            (i as int / pow2(e) as int) % 2,
        );
    }
    if 0 < i < p.symbol_eof {
        lemma_multiple_gap(i as int, p.symbol_eof as int, pow2(e) as int);
    }
    lemma_lowbit_aligned(i, e);
}

/// Node `j` of a Fenwick tree over the table `cf` covers the interval
/// `(j - lowbit(j), j]`.
pub open spec fn tree_node_ok(tree: Seq<u64>, cf: Seq<u64>, j: int) -> bool {
    tree[j] as int == cf[j] - cf[j - lowbit(j as nat)]
}

/// Adaptive model that uses a binary indexed tree for storing cumulative
/// frequencies.
pub struct AdaptiveTreeModel {
    /// Tree of partial frequency sums.
    tree: Vec<u64>,
    /// Arithmetic parameters.
    params: Parameters,
    /// The cumulative frequency table the tree encodes.
    table: Ghost<Seq<u64>>,
}

impl AdaptiveTreeModel {
    /// The tree encodes a well-formed cumulative frequency table.
    pub closed spec fn inv(self) -> bool {
        &&& self.params.valid()
        &&& cf_wf(self.params, self.table@)
        &&& self.tree@.len() == self.params.symbol_count + 1
        &&& self.tree@[0] == 0
        &&& forall|j: int|
            1 <= j <= self.params.symbol_count ==> tree_node_ok(self.tree@, self.table@, j)
    }

    /// Initializes the model with the given parameters: every symbol starts
    /// with frequency one, so node `j` covers an interval of length
    /// `lowbit(j)`.
    pub fn new(p: Parameters) -> (m: AdaptiveTreeModel)
        requires
            p.valid(),
        ensures
            m.wf(),
            m.params() == p,
            m.cf() == cf_init(p),
    {
        proof {
            lemma_symbol_count_small(p);
        }
        let n = p.symbol_count;
        let mut tree: Vec<u64> = Vec::new();
        tree.push(0);
        let mut i: usize = 1;
        while i <= n
            invariant
                1 <= i <= n + 1,
                n == p.symbol_count,
                n < 0x4000_0000,
                tree@.len() == i,
                tree@[0] == 0,
                forall|j: int| 1 <= j < i ==> tree@[j] as nat == lowbit(j as nat),
            decreases n + 1 - i,
        {
            let l = last_one(i);
            tree.push(l as u64);
            i = i + 1;
        }
        let m = AdaptiveTreeModel { tree, params: p, table: Ghost(cf_init(p)) };
        proof {
            lemma_cf_init_wf(p);
            assert forall|j: int| 1 <= j <= p.symbol_count implies tree_node_ok(
                m.tree@,
                m.table@,
                j,
            ) by {
                lemma_lowbit_bounds(j as nat);
            }
        }
        m
    }

    /// Returns the cumulated frequency below `symbol`: the sum of the tree
    /// nodes along the descending chain.
    fn get_frequency_single(&self, symbol: usize) -> (sum: u64)
        requires
            self.inv(),
            symbol <= self.params.symbol_count,
        ensures
            sum == self.table@[symbol as int],
    {
        let ghost cf = self.table@;
        let ghost p = self.params;
        let mut i = symbol;
        let mut sum = self.tree[0];
        while i > 0
            invariant
                self.inv(),
                p == self.params,
                cf == self.table@,
                i <= symbol <= p.symbol_count,
                sum as int == cf[symbol as int] - cf[i as int],
            decreases i,
        {
            proof {
                lemma_lowbit_bounds(i as nat);
                assert(tree_node_ok(self.tree@, cf, i as int));
                lemma_cf_mono(p, cf, 0, i - lowbit(i as nat) as int);
                lemma_cf_mono(p, cf, i - lowbit(i as nat) as int, i as int);
                lemma_cf_mono(p, cf, i as int, symbol as int);
                lemma_cf_mono(p, cf, symbol as int, p.symbol_count as int);
            }
            sum = sum + self.tree[i];
            i = i - last_one(i);
        }
        sum
    }

    /// Returns the cumulated frequency range of `symbol`.
    /// Uses an optimized algorithm that walks the shared part of the two
    /// chains only once.
    fn get_frequency_range(&self, symbol: usize) -> (r: (u64, u64))
        requires
            self.inv(),
            symbol < self.params.symbol_count,
        ensures
            r.0 == self.table@[symbol as int],
            r.1 == self.table@[symbol as int + 1],
    {
        let ghost cf = self.table@;
        let ghost p = self.params;
        let mut sumh: u64 = 0;
        let mut suml: u64 = 0;
        let mut h = symbol + 1;
        let mut l = symbol;
        while h != l
            invariant
                self.inv(),
                p == self.params,
                cf == self.table@,
                h <= symbol + 1,
                l <= symbol,
                symbol < p.symbol_count,
                sumh as int == cf[symbol as int + 1] - cf[h as int],
                suml as int == cf[symbol as int] - cf[l as int],
            decreases h + l,
        {
            if h > l {
                proof {
                    lemma_lowbit_bounds(h as nat);
                    assert(tree_node_ok(self.tree@, cf, h as int));
                    lemma_cf_mono(p, cf, 0, h - lowbit(h as nat) as int);
                    lemma_cf_mono(p, cf, h - lowbit(h as nat) as int, h as int);
                    lemma_cf_mono(p, cf, h as int, symbol as int + 1);
                    lemma_cf_mono(p, cf, symbol as int + 1, p.symbol_count as int);
                }
                sumh = sumh + self.tree[h];
                h = h - last_one(h);
            } else {
                proof {
                    lemma_lowbit_bounds(l as nat);
                    assert(tree_node_ok(self.tree@, cf, l as int));
                    lemma_cf_mono(p, cf, 0, l - lowbit(l as nat) as int);
                    lemma_cf_mono(p, cf, l - lowbit(l as nat) as int, l as int);
                    lemma_cf_mono(p, cf, l as int, symbol as int);
                    lemma_cf_mono(p, cf, symbol as int, p.symbol_count as int);
                }
                suml = suml + self.tree[l];
                l = l - last_one(l);
            }
        }
        let sumr = self.get_frequency_single(h);
        proof {
            lemma_cf_mono(p, cf, h as int, symbol as int);
            lemma_cf_mono(p, cf, symbol as int, p.symbol_count as int);
            lemma_cf_mono(p, cf, symbol as int + 1, p.symbol_count as int);
        }
        (suml + sumr, sumh + sumr)
    }

    /// Adds one to the frequency of `symbol` by walking the ascending chain,
    /// unless the total frequency has reached its cap.
    fn update(&mut self, symbol: usize)
        requires
            old(self).inv(),
            symbol < old(self).params.symbol_count,
        ensures
            final(self).inv(),
            final(self).params == old(self).params,
            final(self).table@ == cf_update(old(self).params, old(self).table@, symbol as int),
    {
        let ghost p = self.params;
        let ghost cf0 = self.table@;
        let ghost cf1 = cf_update(p, cf0, symbol as int);
        proof {
            lemma_symbol_count_small(p);
            lemma_cf_update_wf(p, cf0, symbol as int);
        }
        let n = self.params.symbol_count;
        let total = self.get_frequency_single(n);
        if total >= self.params.freq_max {
            return ;
        }
        let k = symbol + 1;
        proof {
            self.table = Ghost(cf1);
        }
        let ghost tree0 = self.tree@;
        let mut i = k;
        proof {
            lemma_lowbit_bounds(k as nat);
        }
        while i <= n
            invariant
                p == old(self).params,
                cf0 == old(self).table@,
                cf1 == cf_update(p, cf0, symbol as int),
                cf0[p.symbol_count as int] < p.freq_max,
                p.valid(),
                cf_wf(p, cf0),
                cf_wf(p, cf1),
                self.params == p,
                self.table@ == cf1,
                tree0 == old(self).tree@,
                self.tree@.len() == tree0.len(),
                tree0.len() == p.symbol_count + 1,
                self.tree@[0] == tree0[0],
                k == symbol + 1,
                1 <= k <= p.symbol_count,
                n == p.symbol_count,
                n < 0x4000_0000,
                k <= i <= 2 * n,
                i as nat - lowbit(i as nat) < k,
                forall|j: int| 1 <= j <= p.symbol_count ==> tree_node_ok(tree0, cf0, j),
                forall|j: int|
                    1 <= j <= p.symbol_count ==> #[trigger] self.tree@[j] as int == (
                    if j < i && j as nat - lowbit(j as nat) < k <= j {
                        tree0[j] + 1
                    } else {
                        tree0[j] as int
                    }),
            decreases 2 * n + 2 - i,
        {
            proof {
                lemma_lowbit_bounds(i as nat);
                // the node value stays within the capped total
                assert(tree_node_ok(tree0, cf0, i as int));
                lemma_cf_mono(p, cf0, 0, i - lowbit(i as nat) as int);
                lemma_cf_mono(p, cf0, i - lowbit(i as nat) as int, i as int);
                lemma_cf_mono(p, cf0, i as int, p.symbol_count as int);
            }
            let v = self.tree[i];
            self.tree[i] = v + 1;
            let ghost iprev = i as int;
            let step = last_one(i);
            proof {
                lemma_lowbit_step(i as nat);
                assert forall|j: int| iprev < j < iprev + step implies #[trigger] lowbit(
                    j as nat,
                ) <= j - iprev by {
                    lemma_lowbit_skip(iprev as nat, (j - iprev) as nat);
                    lemma_lowbit_bounds((j - iprev) as nat);
                }
            }
            i = i + step;
        }
        proof {
            assert forall|j: int| 1 <= j <= p.symbol_count implies tree_node_ok(
                self.tree@,
                cf1,
                j,
            ) by {
                lemma_lowbit_bounds(j as nat);
                let jl = j - lowbit(j as nat);
                assert(tree_node_ok(tree0, cf0, j));
                if j < i && j as nat - lowbit(j as nat) < k <= j {
                    // updated node: its interval contains the symbol
                    assert(self.tree@[j] as int == tree0[j] + 1);
                    assert(cf1[j] == cf0[j] + 1);
                    assert(cf1[jl] == cf0[jl]);
                } else {
                    // untouched node: both ends move together
                    if k <= j {
                        assert(jl >= k);
                        assert(cf1[j] == cf0[j] + 1 && cf1[jl] == cf0[jl] + 1);
                    } else {
                        assert(cf1[j] == cf0[j] && cf1[jl] == cf0[jl]);
                    }
                }
            }
        }
    }
}

impl Model for AdaptiveTreeModel {
    closed spec fn params(&self) -> Parameters {
        self.params
    }

    closed spec fn cf(&self) -> Seq<u64> {
        self.table@
    }

    open spec fn wf(&self) -> bool {
        self.inv()
    }

    proof fn lemma_wf(&self) {
    }

    fn parameters(&self) -> (p: &Parameters) {
        &self.params
    }

    fn total_frequency(&self) -> (t: u64) {
        self.get_frequency_single(self.params.symbol_count)
    }

    fn get_frequency(&mut self, symbol: usize) -> (r: Result<(u64, u64), Error>) {
        if symbol > self.params.symbol_eof {
            Err(Error::InvalidInput)
        } else {
            let result = self.get_frequency_range(symbol);
            self.update(symbol);
            Ok(result)
        }
    }

    #[verifier::rlimit(100)]
    #[verifier::spinoff_prover]
    fn get_symbol(&mut self, value: u64) -> (r: Result<(usize, u64, u64), Error>) {
        let ghost cf = self.table@;
        let ghost p = self.params;
        proof {
            lemma_symbol_count_small(p);
        }
        let mut m = self.params.symbol_eof;
        let ghost mut e = p.symbol_bits as nat;
        let mut i: usize = 0;
        let mut v = value;
        while m > 0 && i < self.params.symbol_eof
            invariant
                self.inv(),
                p == self.params,
                cf == self.table@,
                p.valid(),
                p.symbol_eof < 0x4000_0000,
                m > 0 ==> m == pow2(e),
                m <= p.symbol_eof,
                i <= p.symbol_eof,
                m > 0 ==> i as nat % (2 * pow2(e)) == 0,
                cf[i as int] <= value,
                v == value - cf[i as int],
                (value < cf[p.symbol_count as int] && m > 0) ==> value < cf_clip(
                    cf,
                    p,
                    i + 2 * m,
                ),
                (value < cf[p.symbol_count as int] && m == 0) ==> value < cf[i as int + 1],
            decreases m,
        {
            proof {
                lemma_descent_probe(p, i as nat, e);
                assert(tree_node_ok(self.tree@, cf, i as int + m));
                lemma_cf_mono(p, cf, 0, i as int);
                lemma_cf_mono(p, cf, i as int, i as int + m);
                lemma_cf_mono(p, cf, i as int + m, p.symbol_count as int);
            }
            let ti = i + m;
            let tv = self.tree[ti];
            let ghost iold = i as int;
            let ghost mold = m as int;
            let ghost moved = v >= tv;
            if v >= tv {
                i = ti;
                v = v - tv;
            }
            proof {
                lemma_usize_shr_is_div(m, 1);
                lemma2_to64();
            }
            m = m >> 1usize;
            proof {
                if m > 0 {
                    // the probe width halves: it was even
                    lemma_pow2_adds(1, (e - 1) as nat);
                    lemma2_to64();
                    e = (e - 1) as nat;
                    lemma_pow2_pos(e);
                    assert(m == pow2(e));
                    assert(mold == 2 * pow2(e));
                    let d = 2 * pow2(e) as int;
                    assert(iold % (2 * d) == 0);
                    assert(iold % d == 0) by {
                        vstd::arithmetic::div_mod::lemma_mod_breakdown(iold, d, 2);
                        vstd::arithmetic::mul::lemma_mul_nonnegative(d, (iold / d) % 2);
                    }
                    if moved {
                        assert(i as int % d == 0) by {
                            vstd::arithmetic::div_mod::lemma_mod_adds(iold, d, d);
                            vstd::arithmetic::div_mod::lemma_mod_self_0(d);
                        }
                    }
                } else {
                    // the last probe had width one and pinned the bracket
                    assert(mold == 1);
                    if value < cf[p.symbol_count as int] {
                        if moved {
                            assert(value < cf_clip(cf, p, iold + 2));
                            assert(i as int + 1 <= p.symbol_count);
                        } else {
                            assert(value < cf[i as int + 1]);
                        }
                    }
                }
            }
        }
        proof {
            lemma_cf_mono(p, cf, i as int + 1, p.symbol_count as int);
        }
        let r = self.get_frequency_range(i);
        if value >= r.1 {
            Err(Error::InvalidInput)
        } else {
            self.update(i);
            Ok((i, r.0, r.1))
        }
    }

    fn get_freq_table(&self) -> (r: Vec<(u64, u64)>) {
        let n = self.params.symbol_count;
        let mut res: Vec<(u64, u64)> = Vec::new();
        let mut i: usize = 0;
        while i < n
            invariant
                self.inv(),
                0 <= i <= n,
                n == self.params.symbol_count,
                res@.len() == i,
                forall|j: int| 0 <= j < i ==> res@[j] == (self.cf()[j], self.cf()[j + 1]),
            decreases n - i,
        {
            let lo = self.get_frequency_single(i);
            let hi = self.get_frequency_single(i + 1);
            res.push((lo, hi));
            i = i + 1;
        }
        res
    }
}

} // verus!
