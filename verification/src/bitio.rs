//! Bit level I/O operations.
//!
//! `BitWriter` packs bits most-significant-first into bytes collected in an
//! output buffer; `BitReader` consumes the bits of a byte sequence in the same
//! order.  The specification functions below give the mathematical reading of
//! a byte stream as a bit sequence and of a bit sequence as an unsigned value.

use vstd::arithmetic::div_mod::*;
use vstd::arithmetic::mul::*;
use vstd::arithmetic::power2::*;
use vstd::bits::*;
use vstd::prelude::*;

use crate::Error;

verus! {

/// The bit of `v` at position `k`, counting from the least significant bit.
pub open spec fn nth_bit(v: nat, k: nat) -> bool {
    v / pow2(k) % 2 == 1
}

/// The low `n` bits of `v`, most significant first.
pub open spec fn nat_bits(v: nat, n: nat) -> Seq<bool> {
    Seq::new(n, |k: int| nth_bit(v, (n - 1 - k) as nat))
}

/// All bits of a byte sequence, most significant bit of each byte first.
pub open spec fn stream_bits(bytes: Seq<u8>) -> Seq<bool> {
    Seq::new(bytes.len() * 8, |k: int| nth_bit(bytes[k / 8] as nat, (7 - k % 8) as nat))
}

/// The unsigned value of a bit sequence read most significant bit first.
pub open spec fn bits_val(s: Seq<bool>) -> nat
    decreases s.len(),
{
    if s.len() == 0 {
        0
    } else {
        2 * bits_val(s.drop_last()) + (if s.last() {
            1nat
        } else {
            0nat
        })
    }
}

/// A run of `n` zero bits.
pub open spec fn zero_bits(n: nat) -> Seq<bool> {
    Seq::new(n, |k: int| false)
}

/// Doubling a value and appending a bit shifts every bit position up by one.
proof fn lemma_nth_bit_double(v: nat, b: nat, j: nat)
    requires
        b <= 1,
    ensures
        nth_bit(2 * v + b, j + 1) == nth_bit(v, j),
        nth_bit(2 * v + b, 0) == (b == 1),
{
    lemma_pow2_adds(1, j);
    lemma_pow2(1);
    assert(pow2(1) == 2) by {
        lemma2_to64();
    }
    lemma_pow2_pos(j);
    lemma_div_denominator((2 * v + b) as int, 2, pow2(j) as int);
    assert((2 * v + b) / 2 == v) by {
        lemma_fundamental_div_mod_converse((2 * v + b) as int, 2, v as int, b as int);
    }
    assert(pow2(0) == 1) by {
        lemma2_to64();
    }
    assert((2 * v + b) / pow2(0) == 2 * v + b);
    assert((2 * v + b) % 2 == b) by {
        lemma_fundamental_div_mod_converse((2 * v + b) as int, 2, v as int, b as int);
    }
}

/// The bit expansion of `2v + b` is the expansion of `v` with `b` appended.
pub proof fn lemma_nat_bits_push(v: nat, b: nat, n: nat)
    requires
        b <= 1,
    ensures
        nat_bits(2 * v + b, n + 1) == nat_bits(v, n).push(b == 1),
{
    let lhs = nat_bits(2 * v + b, n + 1);
    let rhs = nat_bits(v, n).push(b == 1);
    assert forall|k: int| 0 <= k < n + 1 implies lhs[k] == rhs[k] by {
        if k < n {
            lemma_nth_bit_double(v, b, (n - 1 - k) as nat);
        } else {
            lemma_nth_bit_double(v, b, 0);
        }
    }
    assert(lhs =~= rhs);
}

/// Bits below position `m` are unchanged by reduction modulo `pow2(m)`.
proof fn lemma_nth_bit_mod(v: nat, m: nat, j: nat)
    requires
        j < m,
    ensures
        nth_bit(v % pow2(m), j) == nth_bit(v, j),
{
    let p = pow2(j);
    let q = pow2((m - j) as nat);
    lemma_pow2_adds(j, (m - j) as nat);
    lemma_pow2_pos(j);
    lemma_pow2_pos((m - j) as nat);
    assert(pow2(m) == p * q);
    lemma_mod_breakdown(v as int, p as int, q as int);
    assert(v % (p * q) == p * ((v / p) % q) + v % p);
    lemma_mod_division_less_than_divisor(v as int, p as int);
    assert((v % (p * q)) / p == (v / p) % q) by {
        lemma_fundamental_div_mod_converse(
            (v % (p * q)) as int,
            p as int,
            ((v / p) % q) as int,
            (v % p) as int,
        );
    }
    // ((v / p) % q) % 2 == (v / p) % 2 because 2 divides q
    assert(q == 2 * pow2((m - j - 1) as nat)) by {
        lemma_pow2_adds(1, (m - j - 1) as nat);
        lemma2_to64();
    }
    lemma_mod_mod((v / p) as int, 2, pow2((m - j - 1) as nat) as int);
}

/// Splitting off the most significant of the low `n` bits of `v`.
pub proof fn lemma_nat_bits_first(v: nat, n: nat)
    requires
        n >= 1,
        v < pow2(n),
    ensures
        nat_bits(v, n)[0] == nth_bit(v, (n - 1) as nat),
        nat_bits(v, n).subrange(1, n as int) == nat_bits(v % pow2((n - 1) as nat), (n - 1) as nat),
{
    let lhs = nat_bits(v, n).subrange(1, n as int);
    let rhs = nat_bits(v % pow2((n - 1) as nat), (n - 1) as nat);
    assert forall|k: int| 0 <= k < n - 1 implies lhs[k] == rhs[k] by {
        lemma_nth_bit_mod(v, (n - 1) as nat, (n - 2 - k) as nat);
    }
    assert(lhs =~= rhs);
}

/// Multiplying by `pow2(m)` appends `m` zero bits to the expansion.
pub proof fn lemma_nat_bits_shift_zeros(v: nat, n: nat, m: nat)
    ensures
        nat_bits(v * pow2(m), n + m) == nat_bits(v, n) + zero_bits(m),
    decreases m,
{
    if m == 0 {
        assert(pow2(0) == 1) by {
            lemma2_to64();
        }
        assert(v * pow2(0) == v) by {
            lemma_mul_basics(v as int);
        }
        assert(nat_bits(v * pow2(0), n + 0) =~= nat_bits(v, n) + zero_bits(0));
    } else {
        lemma_nat_bits_shift_zeros(v, n, (m - 1) as nat);
        let w = v * pow2((m - 1) as nat);
        assert(v * pow2(m) == 2 * w) by {
            lemma_pow2_adds(1, (m - 1) as nat);
            lemma2_to64();
            lemma_mul_is_associative(v as int, 2, pow2((m - 1) as nat) as int);
            lemma_mul_is_commutative(v as int, 2);
            lemma_mul_is_associative(2, v as int, pow2((m - 1) as nat) as int);
        }
        lemma_nat_bits_push(w, 0, (n + m - 1) as nat);
        assert(nat_bits(2 * w, n + m) == nat_bits(w, (n + m - 1) as nat).push(false));
        assert(nat_bits(v, n) + zero_bits(m) =~= (nat_bits(v, n) + zero_bits((m - 1) as nat)).push(
            false,
        ));
    }
}

/// Reading the bits of a value back gives the value: the round-trip of the
/// bit layer, for one symbol of `n` bits.
pub proof fn lemma_bits_val_nat_bits(v: nat, n: nat)
    requires
        v < pow2(n),
    ensures
        bits_val(nat_bits(v, n)) == v,
    decreases n,
{
    if n == 0 {
        assert(pow2(0) == 1) by {
            lemma2_to64();
        }
        assert(nat_bits(v, 0).len() == 0);
    } else {
        let b = v % 2;
        let w = v / 2;
        assert(v == 2 * w + b) by {
            lemma_fundamental_div_mod(v as int, 2);
        }
        assert(w < pow2((n - 1) as nat)) by {
            lemma_pow2_adds(1, (n - 1) as nat);
            lemma2_to64();
            lemma_pow2_pos((n - 1) as nat);
        }
        lemma_nat_bits_push(w, b, (n - 1) as nat);
        assert(nat_bits(v, n) == nat_bits(w, (n - 1) as nat).push(b == 1));
        assert(nat_bits(v, n).drop_last() =~= nat_bits(w, (n - 1) as nat));
        lemma_bits_val_nat_bits(w, (n - 1) as nat);
    }
}

/// The value of a bit sequence is below `pow2` of its length.
pub proof fn lemma_bits_val_bound(s: Seq<bool>)
    ensures
        bits_val(s) < pow2(s.len()),
    decreases s.len(),
{
    if s.len() == 0 {
        assert(pow2(0) == 1) by {
            lemma2_to64();
        }
    } else {
        lemma_bits_val_bound(s.drop_last());
        assert(pow2(s.len()) == 2 * pow2((s.len() - 1) as nat)) by {
            lemma_pow2_adds(1, (s.len() - 1) as nat);
            lemma2_to64();
        }
    }
}

/// Appending a byte to a stream appends its eight bits.
pub proof fn lemma_stream_bits_push(bytes: Seq<u8>, b: u8)
    ensures
        stream_bits(bytes.push(b)) == stream_bits(bytes) + nat_bits(b as nat, 8),
{
    let lhs = stream_bits(bytes.push(b));
    let rhs = stream_bits(bytes) + nat_bits(b as nat, 8);
    let l = bytes.len() as int;
    assert forall|k: int| 0 <= k < 8 * l + 8 implies lhs[k] == rhs[k] by {
        if k < 8 * l {
            lemma_fundamental_div_mod(k, 8);
            assert(k / 8 < l) by {
                lemma_div_is_ordered(k, 8 * l - 1, 8);
                lemma_div_multiples_vanish(l - 1, 8);
                assert((8 * l - 1) / 8 == (8 * (l - 1) + 7) / 8);
                lemma_hoist_over_denominator(7, l - 1, 8);
                assert((7 + (l - 1) * 8) / 8 == 7int / 8 + (l - 1));
                lemma_basic_div(7, 8);
            }
            assert(bytes.push(b)[k / 8] == bytes[k / 8]);
        } else {
            assert(k / 8 == l && k % 8 == k - 8 * l) by {
                lemma_fundamental_div_mod_converse(k, 8, l, k - 8 * l);
            }
            assert(bytes.push(b)[l] == b);
        }
    }
    assert(lhs =~= rhs);
}

/// A subrange of a stream aligned on a byte holds exactly that byte's bits.
pub proof fn lemma_stream_bits_byte(bytes: Seq<u8>, i: int)
    requires
        0 <= i < bytes.len(),
    ensures
        stream_bits(bytes).subrange(8 * i, 8 * i + 8) == nat_bits(bytes[i] as nat, 8),
{
    let lhs = stream_bits(bytes).subrange(8 * i, 8 * i + 8);
    let rhs = nat_bits(bytes[i] as nat, 8);
    assert forall|k: int| 0 <= k < 8 implies lhs[k] == rhs[k] by {
        assert((8 * i + k) / 8 == i && (8 * i + k) % 8 == k) by {
            lemma_fundamental_div_mod_converse(8 * i + k, 8, i, k);
        }
    }
    assert(lhs =~= rhs);
}

/// Bit I/O round-trip: a value written as `n` bits into the middle of any
/// stream is read back unchanged from the same position.  Together with the
/// writer's contract (writing appends exactly `nat_bits`) and the reader's
/// contract (reading returns exactly `bits_val` of the next bits), any finite
/// sequence of width-tagged writes is recovered by the matching reads.
pub proof fn lemma_write_read_round_trip(prefix: Seq<bool>, v: nat, n: nat, suffix: Seq<bool>)
    requires
        v < pow2(n),
    ensures
        bits_val((prefix + nat_bits(v, n) + suffix).subrange(
            prefix.len() as int,
            prefix.len() + n as int,
        )) == v,
{
    assert((prefix + nat_bits(v, n) + suffix).subrange(
        prefix.len() as int,
        prefix.len() + n as int,
    ) =~= nat_bits(v, n));
    lemma_bits_val_nat_bits(v, n);
}

/// Two byte sequences with the same bit stream are the same bytes.
pub proof fn lemma_stream_bits_injective(a: Seq<u8>, b: Seq<u8>)
    requires
        stream_bits(a) == stream_bits(b),
    ensures
        a == b,
{
    assert(a.len() == b.len()) by {
        assert(stream_bits(a).len() == 8 * a.len());
        assert(stream_bits(b).len() == 8 * b.len());
    }
    assert forall|i: int| 0 <= i < a.len() implies a[i] == b[i] by {
        lemma_stream_bits_byte(a, i);
        lemma_stream_bits_byte(b, i);
        lemma2_to64();
        lemma_bits_val_nat_bits(a[i] as nat, 8);
        lemma_bits_val_nat_bits(b[i] as nat, 8);
        assert(stream_bits(a).subrange(8 * i, 8 * i + 8) =~= stream_bits(b).subrange(
            8 * i,
            8 * i + 8,
        ));
    }
    assert(a =~= b);
}

/// The value of a sequence extended by one bit.
pub proof fn lemma_bits_val_push(s: Seq<bool>, b: bool)
    ensures
        bits_val(s.push(b)) == 2 * bits_val(s) + (if b {
            1nat
        } else {
            0nat
        }),
{
    assert(s.push(b).drop_last() =~= s);
}

/// Shifting a small byte left by one and appending a bit is arithmetic.
proof fn lemma_u8_shl1_or(x: u8, b: u8)
    by (bit_vector)
    requires
        x < 128,
        b <= 1,
    ensures
        ((x << 1u8) | b) == 2 * x + b,
{
}

/// The low bit of a word is its remainder modulo two.
proof fn lemma_usize_and1(x: usize)
    by (bit_vector)
    ensures
        (x & 1) == x % 2,
{
}

/// Extracting the bit of a word at position `k` by shift and mask.
proof fn lemma_usize_bit_extract(x: usize, k: usize)
    requires
        k < usize::BITS,
    ensures
        ((x >> k) & 1) == 1 <==> nth_bit(x as nat, k as nat),
        ((x >> k) & 1) <= 1,
{
    lemma_usize_shr_is_div(x, k);
    lemma_usize_and1(x >> k);
}

/// The low bit of a byte is its remainder modulo two.
proof fn lemma_u8_and1(x: u8)
    by (bit_vector)
    ensures
        (x & 1) == x % 2,
{
}

/// Extracting the bit of a byte at position `k` by shift and mask.
proof fn lemma_u8_bit_extract(x: u8, k: u8)
    requires
        k < 8,
    ensures
        ((x >> k) & 1) == 1 <==> nth_bit(x as nat, k as nat),
        ((x >> k) & 1) <= 1,
{
    lemma_u8_shr_is_div(x, k);
    lemma_u8_and1(x >> k);
}

/// A word is at least `pow2(n)` exactly when some bit at position `n` or
/// above is set.
proof fn lemma_usize_high_bits(x: usize, n: usize)
    requires
        n < usize::BITS,
    ensures
        (x >> n) > 0 <==> x as nat >= pow2(n as nat),
{
    lemma_usize_shr_is_div(x, n);
    lemma_pow2_pos(n as nat);
    if x as nat >= pow2(n as nat) {
        lemma_div_is_ordered(pow2(n as nat) as int, x as int, pow2(n as nat) as int);
        lemma_div_by_self(pow2(n as nat) as int);
    } else {
        lemma_basic_div(x as int, pow2(n as nat) as int);
    }
}

/// Every word value fits in `usize::BITS` bits.
proof fn lemma_usize_fits(x: usize)
    ensures
        (x as nat) < pow2(usize::BITS as nat),
{
    crate::bitio::lemma_usize_max_bits();
}

/// Relates the word maximum to its bit width.
pub(crate) proof fn lemma_usize_max_bits()
    ensures
        (usize::MAX as nat) == pow2(usize::BITS as nat) - 1,
        usize::BITS >= 32,
{
    vstd::layout::unsigned_int_max_values();
    assert(usize::MAX >= 0xffff_ffffusize);
    assert(pow2(32) == 0x1_0000_0000) by {
        lemma2_to64_rest();
    }
    if usize::BITS < 32 {
        lemma_pow2_strictly_increases(usize::BITS as nat, 32);
    }
}


/// A trait for counting the number of bytes flowing through a reader or a
/// writer implementation.
pub trait ByteCount {
    /// Returns the number of bytes in this stream.
    fn get_count(&self) -> u64;
}

/// A trait for objects that allow writing one byte at a time.
pub trait ByteWrite {
    /// Well-formedness of the byte sink.
    spec fn byte_writable(&self) -> bool;

    /// Writes a single byte to the output.
    fn write_byte(&mut self, byte: u8) -> (r: Result<(), Error>)
        requires
            old(self).byte_writable(),
        ensures
            final(self).byte_writable(),
    ;
}

/// A trait for objects that allow writing single bits and symbols of variable
/// bit length.
pub trait BitWrite {
    /// Well-formedness of the bit sink.
    spec fn writable(&self) -> bool;

    /// Every bit accepted by the sink so far, in order.
    spec fn bits_written(&self) -> Seq<bool>;

    /// The number of accepted bits after the last whole octet.
    spec fn staged(&self) -> nat;

    /// Writes a single bit to the output.
    fn write_bit(&mut self, bit: bool) -> (r: Result<(), Error>)
        requires
            old(self).writable(),
        ensures
            final(self).writable(),
            r is Ok ==> final(self).bits_written() == old(self).bits_written().push(bit),
    ;

    /// Writes the low `bits` bits of `symbol` to the output, most significant
    /// first.
    fn write_bits(&mut self, symbol: usize, bits: usize) -> (r: Result<(), Error>)
        requires
            old(self).writable(),
        ensures
            final(self).writable(),
            r is Ok ==> bits <= usize::BITS && (symbol as nat) < pow2(bits as nat) && final(self).bits_written() == old(self).bits_written() + nat_bits(symbol as nat, bits as nat),
    ;

    /// Flushes all remaining bits to the output after the last whole octet,
    /// padded with zero bits.
    fn flush_bits(&mut self) -> (r: Result<(), Error>)
        requires
            old(self).writable(),
        ensures
            final(self).writable(),
            r is Ok ==> final(self).staged() == 0 && final(self).bits_written() == old(self).bits_written() + zero_bits(((8 - old(self).staged() as int) % 8) as nat),
    ;
}

/// A trait for objects that allow reading one byte at a time.
pub trait ByteRead {
    /// Well-formedness of the byte source.
    spec fn byte_readable(&self) -> bool;

    /// Reads a single byte from the input.
    fn read_byte(&mut self) -> (r: Result<u8, Error>)
        requires
            old(self).byte_readable(),
        ensures
            final(self).byte_readable(),
    ;
}

/// A trait for objects that allow reading single bits and symbols of variable
/// bit length.
pub trait BitRead {
    /// Well-formedness of the bit source.
    spec fn readable(&self) -> bool;

    /// All bits of the underlying source, in reading order.
    spec fn source_bits(&self) -> Seq<bool>;

    /// The number of bits consumed so far.
    spec fn consumed(&self) -> nat;

    /// Reads a single bit from the input.
    fn read_bit(&mut self) -> (r: Result<bool, Error>)
        requires
            old(self).readable(),
        ensures
            final(self).readable(),
            final(self).source_bits() == old(self).source_bits(),
            r matches Ok(b) ==> old(self).consumed() < old(self).source_bits().len() && b == old(self).source_bits()[old(self).consumed() as int] && final(self).consumed() == old(self).consumed() + 1,
    ;

    /// Reads `bits` bits from the input, the first bit read standing in the
    /// most significant position of the result.
    fn read_bits(&mut self, bits: usize) -> (r: Result<usize, Error>)
        requires
            old(self).readable(),
        ensures
            final(self).readable(),
            final(self).source_bits() == old(self).source_bits(),
            r matches Ok(v) ==> bits <= usize::BITS && old(self).consumed() + bits <= old(self).source_bits().len() && v as nat == bits_val(
                old(self).source_bits().subrange(
                    old(self).consumed() as int,
                    old(self).consumed() + bits,
                ),
            ) && final(self).consumed() == old(self).consumed() + bits,
    ;
}

/// Writer that packs bits most-significant-first into bytes.
pub struct BitWriter {
    /// Completed output bytes, in order.
    out: Vec<u8>,
    /// Staging byte holding the bits after the last whole octet.
    next: u8,
    /// Number of staged bits held in `next`.
    bits: usize,
}

impl BitWriter {
    /// The staging byte holds exactly the staged bits.
    pub closed spec fn inv(self) -> bool {
        self.bits < 8 && (self.next as nat) < pow2(self.bits as nat)
    }

    /// The completed output bytes so far.
    pub closed spec fn bytes_out(self) -> Seq<u8> {
        self.out@
    }

    /// Every bit written so far: the bits of the completed bytes followed by
    /// the staged bits.
    pub closed spec fn written(self) -> Seq<bool> {
        stream_bits(self.out@) + nat_bits(self.next as nat, self.bits as nat)
    }

    /// The number of staged bits not yet part of a completed byte.
    pub closed spec fn pending(self) -> nat {
        self.bits as nat
    }

    /// The completed bytes and the staged bits together make up everything
    /// written.
    pub proof fn lemma_shape(self)
        requires
            self.inv(),
        ensures
            self.written().len() == 8 * self.bytes_out().len() + self.pending(),
            self.pending() < 8,
            self.written().take(8 * self.bytes_out().len() as int) == stream_bits(self.bytes_out()),
    {
        assert(self.written().take(8 * self.bytes_out().len() as int) =~= stream_bits(
            self.bytes_out(),
        ));
    }

    /// Creates a new writer with an empty output.
    pub fn new() -> (w: BitWriter)
        ensures
            w.inv(),
            w.written() == Seq::<bool>::empty(),
            w.bytes_out() == Seq::<u8>::empty(),
    {
        proof {
            lemma_pow2_pos(0);
        }
        let w = BitWriter { out: Vec::new(), next: 0, bits: 0 };
        proof {
            assert(w.written() =~= Seq::<bool>::empty());
        }
        w
    }

    /// Returns the number of bytes written to the output.
    pub fn get_count(&self) -> (c: u64)
        ensures
            c == self.bytes_out().len(),
    {
        self.out.len() as u64
    }

    /// Consumes the writer and hands back the completed output bytes.
    pub fn into_bytes(self) -> (r: Vec<u8>)
        ensures
            r@ == self.bytes_out(),
    {
        self.out
    }
}

impl ByteCount for BitWriter {
    fn get_count(&self) -> (c: u64)
        ensures
            c == self.bytes_out().len(),
    {
        self.out.len() as u64
    }
}

impl BitWrite for BitWriter {
    open spec fn writable(&self) -> bool {
        self.inv()
    }

    open spec fn bits_written(&self) -> Seq<bool> {
        self.written()
    }

    open spec fn staged(&self) -> nat {
        self.pending()
    }

    fn write_bit(&mut self, bit: bool) -> (r: Result<(), Error>)
        ensures
            r is Ok,
            final(self).pending() == if old(self).pending() == 7 {
                0nat
            } else {
                old(self).pending() + 1
            },
            final(self).bytes_out().len() == old(self).bytes_out().len() + (
            if old(self).pending() == 7 {
                1int
            } else {
                0int
            }),
    {
        let b: u8 = if bit {
            1
        } else {
            0
        };
        proof {
            if self.bits < 7 {
                lemma_pow2_strictly_increases(self.bits as nat, 7);
            }
            lemma2_to64();
            lemma_u8_shl1_or(self.next, b);
            lemma_nat_bits_push(self.next as nat, b as nat, self.bits as nat);
        }
        self.next = (self.next << 1u8) | b;
        self.bits = self.bits + 1;
        proof {
            lemma_pow2_adds((self.bits - 1) as nat, 1);
            lemma2_to64();
            assert(stream_bits(self.out@) + nat_bits(self.next as nat, self.bits as nat)
                =~= old(self).written().push(bit));
        }
        if self.bits == 8 {
            let byte = self.next;
            let ghost prev = self.out@;
            self.out.push(byte);
            self.next = 0;
            self.bits = 0;
            proof {
                lemma_stream_bits_push(prev, byte);
                lemma_pow2_pos(0);
                assert(self.written() =~= stream_bits(prev) + nat_bits(byte as nat, 8));
            }
        }
        Ok(())
    }

    fn write_bits(&mut self, symbol: usize, bits: usize) -> (r: Result<(), Error>)
        ensures
            (bits > usize::BITS || symbol as nat >= pow2(bits as nat)) ==> (r matches Err(e)
                && e is InvalidInput && final(self).written() == old(self).written() && final(self).bytes_out() == old(self).bytes_out() && final(self).pending() == old(self).pending()),
            (bits <= usize::BITS && (symbol as nat) < pow2(bits as nat)) ==> (r is Ok && final(self).pending() == ((old(self).pending() + bits) % 8) as nat),
    {
        proof {
            lemma_usize_max_bits();
        }
        if bits > usize::BITS as usize {
            proof {
                lemma_usize_fits(symbol);
                lemma_pow2_strictly_increases(usize::BITS as nat, bits as nat);
            }
            return Err(Error::InvalidInput);
        }
        if bits < usize::BITS as usize && (symbol >> bits) > 0 {
            proof {
                lemma_usize_high_bits(symbol, bits);
            }
            return Err(Error::InvalidInput);
        }
        proof {
            if bits < usize::BITS {
                lemma_usize_high_bits(symbol, bits);
            } else {
                lemma_usize_fits(symbol);
            }
        }
        let ghost target = nat_bits(symbol as nat, bits as nat);
        let mut k: usize = 0;
        while k < bits
            invariant
                self.inv(),
                k <= bits,
                bits <= usize::BITS,
                (symbol as nat) < pow2(bits as nat),
                target == nat_bits(symbol as nat, bits as nat),
                self.written() == old(self).written() + target.take(k as int),
                self.pending() == ((old(self).pending() + k) % 8) as nat,
            decreases bits - k,
        {
            let shift: usize = bits - 1 - k;
            let bit: bool = ((symbol >> shift) & 1) == 1;
            proof {
                lemma_usize_bit_extract(symbol, shift);
                assert(bit == target[k as int]);
                assert(target.take(k as int + 1) =~= target.take(k as int).push(bit));
            }
            let res = self.write_bit(bit);
            proof {
                assert(old(self).written() + target.take(k as int + 1) =~= (old(self).written()
                    + target.take(k as int)).push(bit));
            }
            k = k + 1;
        }
        proof {
            assert(target.take(bits as int) =~= target);
        }
        Ok(())
    }

    fn flush_bits(&mut self) -> (r: Result<(), Error>)
        ensures
            r is Ok,
            old(self).pending() == 0 ==> final(self).bytes_out() == old(self).bytes_out(),
            final(self).bytes_out().len() == old(self).bytes_out().len() + (
            if old(self).pending() == 0 {
                0int
            } else {
                1int
            }),
            stream_bits(final(self).bytes_out()) == final(self).written(),
    {
        if self.bits > 0 {
            let pad: usize = 8 - self.bits;
            proof {
                lemma_pow2_adds(self.bits as nat, pad as nat);
                lemma2_to64();
                lemma_pow2_pos(pad as nat);
                assert((self.next as nat) * pow2(pad as nat) < 256) by {
                    lemma_mul_inequality(
                        self.next as int + 1,
                        pow2(self.bits as nat) as int,
                        pow2(pad as nat) as int,
                    );
                    lemma_mul_is_distributive_add_other_way(
                        pow2(pad as nat) as int,
                        self.next as int,
                        1,
                    );
                }
                lemma_u8_shl_is_mul(self.next, pad as u8);
            }
            let byte = self.next << (pad as u8);
            let ghost prev = self.out@;
            proof {
                lemma_nat_bits_shift_zeros(self.next as nat, self.bits as nat, pad as nat);
                lemma_stream_bits_push(prev, byte);
            }
            self.out.push(byte);
            self.next = 0;
            self.bits = 0;
            proof {
                lemma_pow2_pos(0);
                assert(self.written() =~= stream_bits(prev) + nat_bits(byte as nat, 8));
                assert(self.written() =~= old(self).written() + zero_bits(pad as nat));
                assert(stream_bits(self.bytes_out()) =~= self.written());
            }
        } else {
            proof {
                assert(self.written() =~= old(self).written() + zero_bits(0));
                assert(stream_bits(self.bytes_out()) =~= self.written());
            }
        }
        Ok(())
    }
}

impl ByteWrite for BitWriter {
    open spec fn byte_writable(&self) -> bool {
        self.inv()
    }

    fn write_byte(&mut self, byte: u8) -> (r: Result<(), Error>)
        ensures
            r is Ok,
            final(self).written() == old(self).written() + nat_bits(byte as nat, 8),
            final(self).pending() == old(self).pending(),
    {
        proof {
            lemma_usize_max_bits();
            lemma2_to64();
            assert(nat_bits(byte as usize as nat, 8) =~= nat_bits(byte as nat, 8));
        }
        let r = self.write_bits(byte as usize, 8);
        r
    }
}

/// Reader that consumes the bits of a byte sequence most-significant-first.
pub struct BitReader {
    /// The byte sequence being read.
    input: Vec<u8>,
    /// Staging byte holding the not yet consumed bits of the last byte pulled.
    next: u8,
    /// Number of unconsumed bits held in `next`.
    bits: usize,
    /// Number of bytes pulled from the sequence so far.
    cursor: usize,
}

impl BitReader {
    /// The staging byte holds exactly the bits between the read position and
    /// the last byte pulled.
    pub closed spec fn inv(self) -> bool {
        self.bits < 8 && (self.next as nat) < pow2(self.bits as nat) && self.cursor
            <= self.input@.len() && self.bits <= 8 * self.cursor && nat_bits(
            self.next as nat,
            self.bits as nat,
        ) == stream_bits(self.input@).subrange(
            8 * self.cursor - self.bits,
            8 * self.cursor as int,
        )
    }

    /// The underlying byte sequence.
    pub closed spec fn source(self) -> Seq<u8> {
        self.input@
    }

    /// The number of bits consumed so far.
    pub closed spec fn pos(self) -> nat {
        (8 * self.cursor - self.bits) as nat
    }

    /// The number of bytes pulled from the underlying sequence so far.
    pub closed spec fn bytes_pulled(self) -> nat {
        self.cursor as nat
    }

    /// The read position never runs past the end, and the byte count is the
    /// position rounded up to whole bytes: it grows only when a fresh byte is
    /// pulled, never on reads served from the staging byte or on failures.
    pub proof fn lemma_shape(self)
        requires
            self.inv(),
        ensures
            self.pos() <= 8 * self.source().len(),
            self.bytes_pulled() <= self.source().len(),
            self.bytes_pulled() == (self.pos() + 7) / 8,
            self.pos() == 8 * self.source().len() ==> self.bytes_pulled() == self.source().len(),
    {
        let c = self.bytes_pulled() as int;
        let b = (8 * c - self.pos()) as int;
        assert((8 * c + (7 - b)) / 8 == c) by {
            lemma_hoist_over_denominator(7 - b, c, 8);
            lemma_basic_div(7 - b, 8);
            vstd::arithmetic::mul::lemma_mul_is_commutative(c, 8);
        }
    }

    /// Creates a new reader over the given bytes.
    pub fn new(input: Vec<u8>) -> (r: BitReader)
        ensures
            r.inv(),
            r.source() == input@,
            r.pos() == 0,
            r.bytes_pulled() == 0,
    {
        proof {
            lemma_pow2_pos(0);
        }
        let r = BitReader { input, next: 0, bits: 0, cursor: 0 };
        proof {
            assert(nat_bits(0, 0) =~= stream_bits(r.input@).subrange(0, 0));
        }
        r
    }

    /// Returns the number of bytes read from the input.
    pub fn get_count(&self) -> (c: u64)
        ensures
            c == self.bytes_pulled(),
    {
        self.cursor as u64
    }
}

impl ByteCount for BitReader {
    fn get_count(&self) -> (c: u64)
        ensures
            c == self.bytes_pulled(),
    {
        self.cursor as u64
    }
}

impl BitRead for BitReader {
    open spec fn readable(&self) -> bool {
        self.inv()
    }

    open spec fn source_bits(&self) -> Seq<bool> {
        stream_bits(self.source())
    }

    open spec fn consumed(&self) -> nat {
        self.pos()
    }

    fn read_bit(&mut self) -> (r: Result<bool, Error>)
        ensures
            final(self).source() == old(self).source(),
            old(self).pos() < 8 * old(self).source().len() ==> r is Ok && final(self).pos() == old(self).pos() + 1,
            old(self).pos() >= 8 * old(self).source().len() ==> (r matches Err(e) && e is Eof
                && final(self).pos() == old(self).pos() && final(self).bytes_pulled() == old(self).bytes_pulled()),
    {
        if self.bits == 0 {
            if self.cursor >= self.input.len() {
                proof {
                    self.lemma_shape();
                }
                return Err(Error::Eof);
            }
            let loaded = self.input[self.cursor];
            let ghost c = self.cursor as int;
            self.cursor = self.cursor + 1;
            let bit = ((loaded >> 7u8) & 1) == 1;
            self.next = loaded & 0x7f;
            self.bits = 7;
            proof {
                lemma_stream_bits_byte(self.input@, c);
                lemma_u8_bit_extract(loaded, 7);
                lemma_low_bits_mask_values();
                lemma_u8_low_bits_mask_is_mod(loaded, 7);
                lemma2_to64();
                lemma_nat_bits_first(loaded as nat, 8);
                assert(nat_bits(self.next as nat, 7) =~= stream_bits(self.input@).subrange(
                    8 * c + 1,
                    8 * c + 8,
                ));
                assert(stream_bits(old(self).source())[old(self).pos() as int] == nat_bits(
                    loaded as nat,
                    8,
                )[0]);
            }
            Ok(bit)
        } else {
            let ghost b0 = nat_bits(self.next as nat, self.bits as nat);
            self.bits = self.bits - 1;
            let bit = ((self.next >> (self.bits as u8)) & 1) == 1;
            proof {
                lemma_u8_bit_extract(self.next, self.bits as u8);
                lemma_nat_bits_first(self.next as nat, (self.bits + 1) as nat);
                lemma_pow2_pos(self.bits as nat);
                lemma_u8_pow2_no_overflow(self.bits as nat);
                lemma_pow2_strictly_increases(self.bits as nat, 8);
                lemma2_to64();
                lemma_mul_basics(pow2(self.bits as nat) as int);
                lemma_u8_shl_is_mul(1u8, self.bits as u8);
            }
            let mask: u8 = (1u8 << (self.bits as u8)) - 1;
            proof {
                assert(mask == low_bits_mask(self.bits as nat));
                lemma_u8_low_bits_mask_is_mod(self.next, self.bits as nat);
            }
            self.next = self.next & mask;
            proof {
                lemma_mod_division_less_than_divisor(old(self).next as int, pow2(self.bits as nat) as int);
                assert(nat_bits(self.next as nat, self.bits as nat) =~= b0.subrange(
                    1,
                    b0.len() as int,
                ));
                assert(nat_bits(self.next as nat, self.bits as nat) =~= stream_bits(
                    self.input@,
                ).subrange(8 * self.cursor - self.bits, 8 * self.cursor as int));
                assert(stream_bits(old(self).source())[old(self).pos() as int] == b0[0]);
            }
            Ok(bit)
        }
    }

    fn read_bits(&mut self, bits: usize) -> (r: Result<usize, Error>)
        ensures
            final(self).source() == old(self).source(),
            bits > usize::BITS ==> (r matches Err(e) && e is InvalidInput && final(self).pos()
                == old(self).pos() && final(self).bytes_pulled() == old(self).bytes_pulled()),
            (bits <= usize::BITS && old(self).pos() + bits <= 8 * old(self).source().len())
                ==> r is Ok,
            (bits <= usize::BITS && old(self).pos() + bits > 8 * old(self).source().len()) ==> (
            r matches Err(e) && e is Eof && final(self).pos() == 8 * old(self).source().len()
                && final(self).bytes_pulled() == old(self).source().len()),
    {
        if bits > usize::BITS as usize {
            return Err(Error::InvalidInput);
        }
        let ghost start = self.pos();
        let ghost src = stream_bits(self.source());
        let mut k: usize = 0;
        let mut r: usize = 0;
        proof {
            lemma_pow2_pos(0);
            assert(src.subrange(start as int, start as int) =~= Seq::<bool>::empty());
        }
        while k < bits
            invariant
                self.inv(),
                self.source() == old(self).source(),
                k <= bits,
                bits <= usize::BITS,
                start == old(self).pos(),
                src == stream_bits(old(self).source()),
                self.pos() == start + k,
                r as nat == bits_val(src.subrange(start as int, start + k)),
                (r as nat) < pow2(k as nat),
            decreases bits - k,
        {
            match self.read_bit() {
                Ok(b) => {
                    proof {
                        lemma_usize_max_bits();
                        lemma_pow2_adds(k as nat, 1);
                        lemma2_to64();
                        if (k as nat) + 1 < usize::BITS as nat {
                            lemma_pow2_strictly_increases((k + 1) as nat, usize::BITS as nat);
                        }
                        lemma_usize_shl_is_mul(r, 1);
                        assert(src.subrange(start as int, start + k + 1) =~= src.subrange(
                            start as int,
                            start + k,
                        ).push(b));
                        lemma_bits_val_push(src.subrange(start as int, start + k), b);
                    }
                    r = (r << 1usize) + (if b {
                        1
                    } else {
                        0
                    });
                    k = k + 1;
                },
                Err(e) => {
                    proof {
                        self.lemma_shape();
                    }
                    return Err(e);
                },
            }
        }
        proof {
            self.lemma_shape();
        }
        Ok(r)
    }
}

impl ByteRead for BitReader {
    open spec fn byte_readable(&self) -> bool {
        self.inv()
    }

    fn read_byte(&mut self) -> (r: Result<u8, Error>)
        ensures
            final(self).source() == old(self).source(),
            old(self).pos() + 8 <= 8 * old(self).source().len() ==> (r matches Ok(b) && b as nat
                == bits_val(
                stream_bits(old(self).source()).subrange(old(self).pos() as int, old(self).pos() as int + 8),
            ) && final(self).pos() == old(self).pos() + 8),
            (old(self).pos() % 8 == 0 && old(self).pos() + 8 <= 8 * old(self).source().len())
                ==> (r matches Ok(b) && b == old(self).source()[old(self).pos() as int / 8]),
            old(self).pos() + 8 > 8 * old(self).source().len() ==> (r matches Err(e) && e is Eof
                && final(self).pos() == 8 * old(self).source().len() && final(self).bytes_pulled()
                == old(self).source().len()),
    {
        proof {
            lemma_usize_max_bits();
        }
        let v = match self.read_bits(8) {
            Ok(v) => v,
            Err(e) => {
                return Err(e);
            },
        };
        proof {
            let s = stream_bits(old(self).source()).subrange(
                old(self).pos() as int,
                old(self).pos() as int + 8,
            );
            lemma_bits_val_bound(s);
            lemma2_to64();
            if old(self).pos() % 8 == 0 {
                let i = old(self).pos() as int / 8;
                assert(8 * i == old(self).pos()) by {
                    lemma_fundamental_div_mod(old(self).pos() as int, 8);
                }
                lemma_stream_bits_byte(old(self).source(), i);
                assert(s =~= nat_bits(old(self).source()[i] as nat, 8));
                lemma_bits_val_nat_bits(old(self).source()[i] as nat, 8);
            }
        }
        Ok(v as u8)
    }
}

} // verus!
