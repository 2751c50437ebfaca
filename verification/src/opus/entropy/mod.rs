pub mod bits;

use vstd::prelude::*;
use vstd::arithmetic::power2::*;
use vstd::arithmetic::div_mod::*;
use vstd::arithmetic::mul::*;
use self::bits::{
    BigEndianBitReader, LittleEndianBitReader, be_val, le_val, lemma_be_val_bound, lemma_pow2_le,
};

verus! {

// ---------------------------------------------------------------------------
// Floor of the base-two logarithm, with the facts the decoder needs.
// ---------------------------------------------------------------------------

/// Floor of log2; zero for zero.
pub open spec fn lg(n: nat) -> nat
    decreases n,
{
    if n <= 1 {
        0
    } else {
        1 + lg(n / 2)
    }
}

pub proof fn lemma_lg_pow2_bounds(n: nat)
    requires
        n >= 1,
    ensures
        pow2(lg(n)) <= n < pow2(lg(n) + 1),
    decreases n,
{
    lemma2_to64();
    if n > 1 {
        lemma_lg_pow2_bounds(n / 2);
        lemma_pow2_unfold((lg(n / 2) + 1) as nat);
        lemma_pow2_unfold((lg(n / 2) + 2) as nat);
    }
}

pub proof fn lemma_lg_monotone(a: nat, b: nat)
    requires
        a <= b,
    ensures
        lg(a) <= lg(b),
    decreases b,
{
    if a > 1 {
        lemma_lg_monotone(a / 2, b / 2);
    }
}

/// A number pinned between two powers of two has a known logarithm.
pub proof fn lemma_lg_from_bounds(n: nat, k: nat)
    requires
        pow2(k) <= n < pow2(k + 1),
    ensures
        lg(n) == k,
    decreases k,
{
    lemma_pow2_pos(k);
    if k == 0 {
        lemma2_to64();
    } else {
        lemma_pow2_unfold(k);
        lemma_pow2_unfold((k + 1) as nat);
        lemma_lg_from_bounds(n / 2, (k - 1) as nat);
    }
}

pub proof fn lemma_lg_mul256(n: nat)
    requires
        n >= 1,
    ensures
        lg(n * 256) == lg(n) + 8,
{
    assert(lg(2 * n) == lg(n) + 1);
    assert(lg(2 * (2 * n)) == lg(2 * n) + 1);
    assert(lg(2 * (4 * n)) == lg(4 * n) + 1);
    assert(lg(2 * (8 * n)) == lg(8 * n) + 1);
    assert(lg(2 * (16 * n)) == lg(16 * n) + 1);
    assert(lg(2 * (32 * n)) == lg(32 * n) + 1);
    assert(lg(2 * (64 * n)) == lg(64 * n) + 1);
    assert(lg(2 * (128 * n)) == lg(128 * n) + 1);
}

// ---------------------------------------------------------------------------
// The range decoder's state machine, stated over the bit streams.
// ---------------------------------------------------------------------------

/// The decoder state that every symbol operation reads and rewrites:
/// (forward position, coded value, range width, consumed bits).
pub open spec fn spec_norm(bytes: Seq<u8>, fpos: nat, value: nat, range: nat, consumed: nat) -> (
    nat,
    nat,
    nat,
    nat,
)
    decreases (if range > 0x800000 || range == 0 {
        0int
    } else {
        0x1000000int - range
    }),
{
    if range > 0x800000 || range == 0 {
        (fpos, value, range, consumed)
    } else {
        spec_norm(
            bytes,
            (fpos + 8) as nat,
            ((value * 256 + 255 - be_val(bytes, fpos, 8)) % 0x80000000) as nat,
            (range * 256) as nat,
            (consumed + 8) as nat,
        )
    }
}

/// Ceiling on `consumed_bits` under which any single operation is safe from
/// machine overflow.
pub const CONSUMED_LIMIT: usize = 0x1000_0000;

/// Width of the interval slice given to each unit of probability mass.
pub open spec fn spec_scale(range: nat, total: nat) -> nat {
    range / total
}

/// The inverse symbol index the coded value points at: counted from the top
/// of the distribution, clamped at `total`.
pub open spec fn spec_symbol(value: nat, range: nat, total: nat) -> nat {
    let q = value / spec_scale(range, total) + 1;
    (total - (if q < total {
        q
    } else {
        total
    })) as nat
}

/// State change of narrowing the interval to the probability slice
/// `[low, high)` out of `total`, then normalising.
pub open spec fn spec_update(
    bytes: Seq<u8>,
    fpos: nat,
    value: nat,
    range: nat,
    consumed: nat,
    low: nat,
    high: nat,
    total: nat,
) -> (nat, nat, nat, nat) {
    let scale = spec_scale(range, total);
    let size = scale * ((total - high) as nat);
    let value2 = (value - size) as nat;
    let range2 = if low != 0 {
        scale * ((high - low) as nat)
    } else {
        (range - size) as nat
    };
    spec_norm(bytes, fpos, value2, range2, consumed)
}

/// Result and state change of a binary decode with probability `2^-p` for
/// the `true` branch.
pub open spec fn spec_logp(
    bytes: Seq<u8>,
    fpos: nat,
    value: nat,
    range: nat,
    consumed: nat,
    p: nat,
) -> (bool, (nat, nat, nat, nat)) {
    let scale = range / pow2(p);
    if scale > value {
        (true, spec_norm(bytes, fpos, value, scale, consumed))
    } else {
        (false, spec_norm(bytes, fpos, (value - scale) as nat, (range - scale) as nat, consumed))
    }
}

/// Cutting `p` powers of two off a positive number drops its logarithm by
/// exactly `p`.
pub proof fn lemma_lg_div_pow2(n: nat, p: nat)
    requires
        n >= 1,
        p <= lg(n),
    ensures
        lg(n / pow2(p)) == lg(n) - p,
    decreases p,
{
    if p == 0 {
        lemma2_to64();
        assert(n / 1 == n);
    } else {
        assert(lg(n) >= 1);
        assert(n >= 2) by {
            if n < 2 {
                assert(lg(n) == 0);
            }
        }
        lemma_pow2_unfold(p);
        lemma_pow2_pos((p - 1) as nat);
        lemma_div_denominator(n as int, 2, pow2((p - 1) as nat) as int);
        assert(n / 2 >= 1);
        lemma_lg_div_pow2(n / 2, (p - 1) as nat);
    }
}

/// Whole bits still available in a payload of `total` bits, for a decoder
/// that has consumed `used` bits at range width `rng`; zero once over-read.
/// This is exactly what `available()` returns.
pub open spec fn spec_avail(total: nat, used: nat, rng: nat) -> int {
    let t = used - lg(rng) - 1;
    if t <= total {
        total - t
    } else {
        0
    }
}

/// The logarithm of a normalised range is between 23 and 31.
pub proof fn lemma_lg_range(r: nat)
    requires
        0x800000 < r <= 0x80000000,
    ensures
        23 <= lg(r) <= 31,
{
    lemma2_to64();
    lemma_lg_from_bounds(0x800001, 23);
    lemma_lg_monotone(0x800001nat, r);
    lemma_lg_from_bounds(0x80000000, 31);
    lemma_lg_monotone(r, 0x80000000nat);
}

/// `2^p` as a machine word.
pub fn pow2_usize(p: usize) -> (r: usize)
    requires
        p <= 24,
    ensures
        r == pow2(p as nat),
        r >= 1,
{
    proof {
        vstd::bits::lemma_usize_pow2_no_overflow(p as nat);
        vstd::bits::lemma_usize_shl_is_mul(1usize, p);
    }
    1usize << p
}

/// The product of two consecutive numbers is even, so a triangle number
/// divides exactly.
pub proof fn lemma_tri_even(k: nat)
    ensures
        (k * (k + 1)) % 2 == 0,
        2 * (k * (k + 1) / 2) == k * (k + 1),
{
    let m = k / 2;
    lemma_fundamental_div_mod(k as int, 2);
    if k % 2 == 0 {
        assert(k * (k + 1) == (m * (k + 1)) * 2) by (nonlinear_arith)
            requires
                k == 2 * m,
        ;
        lemma_mod_multiples_basic((m * (k + 1)) as int, 2);
    } else {
        assert(k * (k + 1) == (k * (m + 1)) * 2) by (nonlinear_arith)
            requires
                k + 1 == 2 * (m + 1),
        ;
        lemma_mod_multiples_basic((k * (m + 1)) as int, 2);
    }
    lemma_fundamental_div_mod((k * (k + 1)) as int, 2);
}

/// One Newton step of the Q15 square-and-shift refinement of `log2(range)`:
/// doubles the integer estimate and folds in one more fractional bit.
pub open spec fn spec_q15_step(l: nat, r: nat) -> (nat, nat) {
    let r2 = (r * r) / 0x8000;
    if r2 >= 0x10000 {
        ((2 * l + 1) as nat, r2 / 2)
    } else {
        ((2 * l) as nat, r2)
    }
}

/// The fractional bit count: eight times the consumed bits, minus a
/// three-step Q15 refinement of `log2(range)`.
pub open spec fn spec_tell_frac(consumed: nat, range: nat) -> int {
    let l0 = lg(range) + 1;
    let r0 = range / pow2((lg(range) - 15) as nat);
    let s1 = spec_q15_step(l0, r0);
    let s2 = spec_q15_step(s1.0, s1.1);
    let s3 = spec_q15_step(s2.0, s2.1);
    8 * consumed - s3.0
}

/// The expansion loop of the Laplace decode: walks outward from the centre,
/// doubling then decaying the slice width, until the coded point is reached.
/// Returns the accumulated (value, low, symbol).
pub open spec fn spec_laplace_expand(center: nat, value: int, low: nat, symbol: nat, decay: nat) -> (
    int,
    nat,
    nat,
)
    decreases center - low,
{
    if symbol > 1 && center >= low + 2 * symbol {
        let s2 = 2 * symbol;
        spec_laplace_expand(
            center,
            value + 1,
            (low + s2) as nat,
            (((s2 - 2) * decay) / 0x8000 + 1) as nat,
            decay,
        )
    } else {
        (value, low, symbol)
    }
}

/// The full Laplace decode around a located `center`: expansion, the final
/// linear stretch, then the sign. Returns (signed value, low, symbol) for
/// the closing interval narrowing.
pub open spec fn spec_laplace_sym(center: nat, symbol0: nat, decay: nat) -> (int, nat, nat) {
    if center >= symbol0 {
        let s1 = (1 + ((0x8000 - 32 - symbol0) * (0x4000 - decay)) / 0x8000) as nat;
        let e = spec_laplace_expand(center, 1, symbol0, s1, decay);
        let dist = if e.2 <= 1 {
            ((center - e.1) / 2) as nat
        } else {
            0
        };
        let v2 = e.0 + dist;
        let low2 = (e.1 + 2 * dist) as nat;
        if center < low2 + e.2 {
            (-v2, low2, e.2)
        } else {
            (v2, (low2 + e.2) as nat, e.2)
        }
    } else {
        (0int, 0nat, symbol0)
    }
}

/// Range decoder for the entropy-coded format used by Opus/CELT: a shrinking
/// interval `(coded_value, current_range)` refined symbol by symbol from the
/// forward bit stream, with raw bits drawn from the reverse stream.
pub struct RangeCodingDecoder<'a> {
    // Reads the forward bitstream that carries the entropy-coded symbols.
    forward_reader: BigEndianBitReader<'a>,
    // Reads the reverse bitstream that carries the raw bits.
    reverse_reader: LittleEndianBitReader<'a>,
    // Total number of input bits.
    bitstream_length: usize,
    // Width of the current interval.
    current_range: usize,
    // Position inside the current interval.
    coded_value: usize,
    // Bits consumed from the forward stream, for `tell` and `tell_frac`.
    consumed_bits: usize,
}

impl<'a> RangeCodingDecoder<'a> {
    /// The buffer both streams read.
    pub closed spec fn stream(&self) -> Seq<u8> {
        self.forward_reader.stream()
    }

    /// Bits handed out so far by the forward stream.
    pub closed spec fn fpos(&self) -> nat {
        self.forward_reader.pos()
    }

    /// Bits handed out so far by the reverse stream.
    pub closed spec fn rpos(&self) -> nat {
        self.reverse_reader.pos()
    }

    /// The current interval width.
    pub closed spec fn rng(&self) -> nat {
        self.current_range as nat
    }

    /// The current coded value.
    pub closed spec fn val(&self) -> nat {
        self.coded_value as nat
    }

    /// Conceptual count of consumed forward bits.
    pub closed spec fn used(&self) -> nat {
        self.consumed_bits as nat
    }

    /// Length of the payload in bits.
    pub closed spec fn total_bits(&self) -> nat {
        self.bitstream_length as nat
    }

    /// The mutable decoder state as one tuple, in the order `spec_norm` uses.
    pub open spec fn state(&self) -> (nat, nat, nat, nat) {
        (self.fpos(), self.val(), self.rng(), self.used())
    }

    /// Number of whole bits the decoder has committed to, by the convention
    /// of the format: consumed bits minus the bits still free in `range`.
    pub open spec fn spec_tell(&self) -> int {
        self.used() - lg(self.rng()) - 1
    }

    pub closed spec fn wf(&self) -> bool {
        &&& self.forward_reader.wf()
        &&& self.reverse_reader.wf()
        &&& self.forward_reader.stream() == self.reverse_reader.stream()
        &&& self.bitstream_length == 8 * self.stream().len()
        &&& 64 * self.stream().len() <= usize::MAX
        &&& 0x800000 < self.current_range <= 0x80000000
        &&& self.coded_value < self.current_range
        &&& self.consumed_bits >= lg(self.rng()) + 2
    }

    /// Room left before `consumed_bits` could reach machine limits; every
    /// realistic stream stays far below it.
    pub open spec fn has_room(&self) -> bool {
        self.used() <= CONSUMED_LIMIT
    }

    /// Restores the normalisation invariant `range > 2^23`, pulling forward
    /// bytes into `value` as needed.
    fn ensure_valid_range(&mut self)
        requires
            old(self).forward_reader.wf(),
            old(self).reverse_reader.wf(),
            old(self).forward_reader.stream() == old(self).reverse_reader.stream(),
            old(self).bitstream_length == 8 * old(self).stream().len(),
            64 * old(self).stream().len() <= usize::MAX,
            1 <= old(self).rng() <= 0x80000000,
            old(self).val() < old(self).rng(),
            old(self).used() <= CONSUMED_LIMIT,
            old(self).used() >= lg(old(self).rng()) + 2,
        ensures
            final(self).wf(),
            final(self).stream() == old(self).stream(),
            final(self).rpos() == old(self).rpos(),
            final(self).total_bits() == old(self).total_bits(),
            final(self).state() == spec_norm(
                old(self).stream(),
                old(self).fpos(),
                old(self).val(),
                old(self).rng(),
                old(self).used(),
            ),
            old(self).used() <= final(self).used() <= old(self).used() + 24,
            final(self).used() - lg(final(self).rng()) == old(self).used() - lg(old(self).rng()),
    {
        let ghost bytes = self.stream();
        let ghost f0 = self.fpos();
        let ghost v0 = self.val();
        let ghost r0 = self.rng();
        let ghost c0 = self.used();
        let ghost rr0 = self.reverse_reader;
        proof {
            lemma2_to64();
        }
        let mut k_exec: Ghost<nat> = Ghost(0nat);
        while self.current_range <= 0x800000
            invariant
                self.forward_reader.wf(),
                self.reverse_reader == rr0,
                self.reverse_reader.wf(),
                self.forward_reader.stream() == bytes,
                self.reverse_reader.stream() == bytes,
                self.bitstream_length == 8 * bytes.len(),
                64 * bytes.len() <= usize::MAX,
                1 <= self.current_range <= 0x80000000,
                self.coded_value < self.current_range,
                self.coded_value < 0x80000000,
                k_exec@ <= 3,
                self.consumed_bits == c0 + 8 * k_exec@,
                self.fpos() == f0 + 8 * k_exec@,
                c0 <= CONSUMED_LIMIT,
                self.rng() >= pow2(8 * k_exec@),
                self.consumed_bits - lg(self.rng()) == c0 - lg(r0),
                spec_norm(bytes, self.fpos(), self.val(), self.rng(), self.used()) == spec_norm(
                    bytes,
                    f0,
                    v0,
                    r0,
                    c0,
                ),
            decreases 4int - k_exec@,
        {
            let ghost fpre = self.fpos();
            let ghost vpre = self.val();
            let ghost rpre = self.rng();
            let ghost cpre = self.used();
            let b = self.forward_reader.get_bits_32(8);
            proof {
                lemma_be_val_bound(bytes, fpre, 8);
                lemma2_to64();
                assert(b < 256);
            }
            let bx = 255 - (b as usize);
            self.coded_value = (self.coded_value * 256 + bx) % 0x8000_0000;
            self.current_range = self.current_range * 256;
            self.consumed_bits = self.consumed_bits + 8;
            proof {
                k_exec@ = k_exec@ + 1;
                lemma_pow2_adds(8 * (k_exec@ - 1) as nat, 8);
                lemma2_to64();
                assert(pow2(8) == 256);
                assert(self.rng() == rpre * 256);
                assert(rpre >= pow2((8 * (k_exec@ - 1)) as nat));
                assert(self.rng() >= pow2((8 * (k_exec@ - 1)) as nat) * 256) by (nonlinear_arith)
                    requires
                        self.rng() == rpre * 256,
                        rpre >= pow2((8 * (k_exec@ - 1)) as nat),
                ;
                if k_exec@ == 4 {
                    lemma_pow2_le(24, 8 * (k_exec@ - 1) as nat);
                    assert(pow2(24) == 0x1000000);
                    assert(false);
                }
                lemma_lg_mul256(rpre);
                assert(self.val() == (vpre * 256 + 255 - be_val(bytes, fpre, 8)) % 0x80000000);
            }
        }
        proof {
            assert(spec_norm(bytes, self.fpos(), self.val(), self.rng(), self.used()) == self.state());
            lemma_lg_monotone(0x800001, self.rng());
            lemma_lg_pow2_bounds(self.rng());
            assert(lg(0x800001nat) == 23) by {
                lemma2_to64();
                lemma_lg_from_bounds(0x800001nat, 23);
            }
        }
    }

    pub fn new(bytes: &'a [u8]) -> (r: Self)
        requires
            64 * bytes@.len() <= usize::MAX,
        ensures
            r.wf(),
            r.stream() == bytes@,
            r.total_bits() == 8 * bytes@.len(),
            r.rpos() == 0,
            r.state() == spec_norm(
                bytes@,
                7,
                (127 - be_val(bytes@, 0, 7)) as nat,
                128,
                9,
            ),
            r.spec_tell() == 1,
            r.used() <= 33,
    {
        let mut forward_reader = BigEndianBitReader::new(bytes);

        // Seven bits seed the coded value; `range` starts at 128.
        let first = forward_reader.get_bits_32(7);
        proof {
            lemma_be_val_bound(bytes@, 0, 7);
            lemma2_to64();
        }
        let coded_value = 127 - (first as usize);

        let mut this = Self {
            reverse_reader: LittleEndianBitReader::new(bytes),
            consumed_bits: 9,
            bitstream_length: bytes.len() * 8,
            current_range: 128,
            coded_value,
            forward_reader,
        };

        proof {
            lemma_lg_from_bounds(128, 7);
            lemma2_to64();
        }
        this.ensure_valid_range();
        proof {
            lemma_lg_pow2_bounds(this.rng());
        }
        this
    }

    /// Total number of input bits.
    pub fn len(&self) -> (r: usize)
        requires
            self.wf(),
        ensures
            r == self.total_bits(),
    {
        self.bitstream_length
    }

    /// Floor of log2 of a value known to be positive.
    fn floor_log2(x: usize) -> (r: usize)
        requires
            x >= 1,
        ensures
            r == lg(x as nat),
            r <= 64,
    {
        let mut v = x;
        let mut r: usize = 0;
        while v > 1
            invariant
                v >= 1,
                lg(x as nat) == r + lg(v as nat),
                r <= 64,
            decreases v,
        {
            proof {
                assert(lg(v as nat) == 1 + lg((v / 2) as nat));
                if r == 64 {
                    lemma_lg_pow2_bounds(x as nat);
                    lemma_lg_pow2_bounds(v as nat);
                    lemma_pow2_le(64, lg(x as nat));
                    lemma2_to64_rest();
                    assert(false);
                }
            }
            v = v / 2;
            r = r + 1;
        }
        r
    }

    /// Number of whole bits consumed so far.
    pub fn tell(&self) -> (r: usize)
        requires
            self.wf(),
        ensures
            r == self.spec_tell(),
            r >= 1,
    {
        self.consumed_bits - Self::floor_log2(self.current_range) - 1
    }

    /// Locates the probability slice the coded value points at.
    fn get_scale_symbol(&self, total: usize) -> (r: (usize, usize))
        requires
            self.wf(),
            1 <= total <= 0x800000,
        ensures
            r.0 == spec_scale(self.rng(), total as nat),
            r.1 == spec_symbol(self.val(), self.rng(), total as nat),
            r.0 >= 1,
            r.1 < total,
    {
        let range_scale = self.current_range / total;
        proof {
            lemma_div_is_ordered(total as int, self.current_range as int, total as int);
            lemma_div_by_self(total as int);
        }
        let q = self.coded_value / range_scale + 1;
        let m = if q < total {
            q
        } else {
            total
        };
        (range_scale, total - m)
    }

    /// Narrows the interval to the slice `[low, high)` out of `total` and
    /// normalises.  The coded value must already point inside that slice.
    fn update_range_and_value(&mut self, scale: usize, low: usize, high: usize, total: usize)
        requires
            old(self).wf(),
            old(self).has_room(),
            1 <= total <= 0x800000,
            scale == spec_scale(old(self).rng(), total as nat),
            low < high <= total,
            low <= spec_symbol(old(self).val(), old(self).rng(), total as nat) < high,
        ensures
            final(self).wf(),
            final(self).stream() == old(self).stream(),
            final(self).rpos() == old(self).rpos(),
            final(self).total_bits() == old(self).total_bits(),
            final(self).state() == spec_update(
                old(self).stream(),
                old(self).fpos(),
                old(self).val(),
                old(self).rng(),
                old(self).used(),
                low as nat,
                high as nat,
                total as nat,
            ),
            old(self).used() <= final(self).used() <= old(self).used() + 24,
            old(self).spec_tell() <= final(self).spec_tell(),
    {
        let ghost value = self.val();
        let ghost range = self.rng();
        let ghost q = value / (scale as nat);
        proof {
            lemma_fundamental_div_mod(range as int, total as int);
            lemma_fundamental_div_mod(value as int, scale as int);
            // scale * total <= range, so every slice width fits the range.
            assert(scale * (total - high) <= scale * total) by (nonlinear_arith)
                requires
                    high <= total,
                    scale >= 0,
            ;
            assert(scale * (total - low) <= scale * total) by (nonlinear_arith)
                requires
                    low <= total,
                    scale >= 0,
            ;
            assert((scale as int) * (total as int) <= range) by {
                lemma_fundamental_div_mod(range as int, total as int);
                lemma_mul_is_commutative(total as int, (range as int) / (total as int));
            }
            // The located symbol pins the coded value inside the slice.
            let sym = spec_symbol(value, range, total as nat);
            if q + 1 < total {
                assert(sym == total - q - 1);
                assert(q >= total - high);
                assert(q <= total - 1 - low);
                assert(value >= q * scale >= (total - high) * scale) by (nonlinear_arith)
                    requires
                        value == q * scale + value % (scale as nat),
                        (value % (scale as nat)) >= 0,
                        q >= total - high,
                        scale >= 1,
                ;
                assert(value < (q + 1) * scale) by (nonlinear_arith)
                    requires
                        value == q * scale + (value % (scale as nat)),
                        (value % (scale as nat)) < scale,
                ;
                if low >= 1 {
                    assert(q + 1 <= total - low);
                    assert((q + 1) * scale <= (total - low) * scale) by (nonlinear_arith)
                        requires
                            q + 1 <= total - low,
                            scale >= 0,
                    ;
                    assert((total - low) * scale - (total - high) * scale == (high - low) * scale)
                        by (nonlinear_arith)
                        requires
                            low < high <= total,
                    ;
                }
            } else {
                // The clamped case: the value lies beyond every slice start.
                assert(sym == 0);
                assert(low == 0);
                assert(q >= total - 1);
                assert(value >= q * scale >= (total - 1) * scale >= (total - high) * scale)
                    by (nonlinear_arith)
                    requires
                        value == q * scale + value % (scale as nat),
                        (value % (scale as nat)) >= 0,
                        q >= total - 1,
                        high >= 1,
                        total >= high,
                        scale >= 1,
                ;
            }
            lemma_mul_is_commutative(scale as int, (total - high) as int);
            lemma_mul_is_commutative(scale as int, (high - low) as int);
            lemma_mul_is_commutative(scale as int, (total - low) as int);
        }
        let size = scale * (total - high);
        self.coded_value = self.coded_value - size;
        self.current_range = if low != 0 {
            scale * (high - low)
        } else {
            self.current_range - size
        };
        proof {
            lemma_lg_monotone(self.rng(), range);
        }
        self.ensure_valid_range();
    }

    /// Binary decode: `true` with probability `2^-p`.
    pub fn logp(&mut self, logp: usize) -> (r: bool)
        requires
            old(self).wf(),
            old(self).has_room(),
            1 <= logp <= 15,
        ensures
            final(self).wf(),
            final(self).stream() == old(self).stream(),
            final(self).rpos() == old(self).rpos(),
            final(self).total_bits() == old(self).total_bits(),
            ({
                let (res, st) = spec_logp(
                    old(self).stream(),
                    old(self).fpos(),
                    old(self).val(),
                    old(self).rng(),
                    old(self).used(),
                    logp as nat,
                );
                r == res && final(self).state() == st
            }),
            old(self).used() <= final(self).used() <= old(self).used() + 24,
            r ==> final(self).spec_tell() == old(self).spec_tell() + logp,
            !r ==> old(self).spec_tell() <= final(self).spec_tell() <= old(self).spec_tell() + 1,
    {
        let ghost range = self.rng();
        let ghost value = self.val();
        let m = pow2_usize(logp);
        let range_scale = self.current_range / m;
        proof {
            lemma_lg_pow2_bounds(range);
            lemma2_to64();
            lemma_lg_from_bounds(0x800001, 23);
            lemma_lg_monotone(0x800001nat, range);
            lemma_pow2_le(23, lg(range));
            lemma_lg_div_pow2(range, logp as nat);
            lemma_pow2_pos(logp as nat);
            lemma_div_is_ordered(pow2(23) as int, range as int, m as int);
            lemma_pow2_adds((logp - 1) as nat, 1);
            // scale is at least 2^8, so both branches keep a positive range.
            assert(pow2(23nat) / pow2(logp as nat) >= 1) by {
                lemma_pow2_adds(logp as nat, (23 - logp) as nat);
                lemma_pow2_pos((23 - logp) as nat);
                lemma_div_multiples_vanish(pow2((23 - logp) as nat) as int, pow2(logp as nat) as int);
                lemma_pow2_pos((23 - logp) as nat);
            }
        }
        let result = if range_scale > self.coded_value {
            self.current_range = range_scale;
            true
        } else {
            proof {
                // With p >= 1 the slice is at most half the range.
                lemma_div_is_ordered_by_denominator(range as int, 2, m as int);
                lemma_lg_monotone((range / 2) as nat, (range - range / pow2(logp as nat)) as nat);
                lemma_lg_monotone((range - range / pow2(logp as nat)) as nat, range);
                assert(lg((range / 2) as nat) == lg(range) - 1) by {
                    lemma_lg_div_pow2(range, 1);
                    lemma2_to64();
                }
            }
            self.current_range = self.current_range - range_scale;
            self.coded_value = self.coded_value - range_scale;
            false
        };
        proof {
            lemma_lg_monotone(self.rng(), range);
        }
        self.ensure_valid_range();
        result
    }

    /// Inverse-CDF decode over a monotone distribution: returns the first
    /// index whose cumulative count exceeds the located symbol.
    pub fn icdf(&mut self, icdf: &ICDFContext) -> (r: usize)
        requires
            old(self).wf(),
            old(self).has_room(),
            icdf.valid(),
        ensures
            final(self).wf(),
            final(self).stream() == old(self).stream(),
            final(self).rpos() == old(self).rpos(),
            final(self).total_bits() == old(self).total_bits(),
            r < icdf.dist@.len(),
            icdf.dist@[r as int] > spec_symbol(old(self).val(), old(self).rng(), icdf.total as nat),
            forall|u: int|
                0 <= u < r ==> icdf.dist@[u] <= spec_symbol(
                    old(self).val(),
                    old(self).rng(),
                    icdf.total as nat,
                ),
            final(self).state() == spec_update(
                old(self).stream(),
                old(self).fpos(),
                old(self).val(),
                old(self).rng(),
                old(self).used(),
                (if r > 0 {
                    icdf.dist@[r - 1]
                } else {
                    0
                }) as nat,
                icdf.dist@[r as int] as nat,
                icdf.total as nat,
            ),
            old(self).used() <= final(self).used() <= old(self).used() + 24,
            old(self).spec_tell() <= final(self).spec_tell(),
    {
        let (range_scale, symbol_index) = self.get_scale_symbol(icdf.total);
        let ghost len = icdf.dist@.len() as int;
        let dlen = icdf.dist.len();
        let mut v: usize = 0;
        proof {
            assert(icdf.dist@[len - 1] == icdf.total);
        }
        while icdf.dist[v] <= symbol_index
            invariant
                v < icdf.dist@.len(),
                dlen == icdf.dist@.len(),
                icdf.valid(),
                symbol_index < icdf.total,
                forall|u: int| 0 <= u < v ==> icdf.dist@[u] <= symbol_index,
            decreases icdf.dist@.len() - v,
        {
            proof {
                if v + 1 >= icdf.dist@.len() {
                    assert(v == icdf.dist@.len() - 1);
                    assert(icdf.dist@[v as int] == icdf.total);
                    assert(false);
                }
            }
            v = v + 1;
        }
        let low = if v > 0 {
            icdf.dist[v - 1]
        } else {
            0
        };
        let high = icdf.dist[v];
        proof {
            assert(icdf.dist@[v as int] <= icdf.dist@[len - 1]);
        }
        self.update_range_and_value(range_scale, low, high, icdf.total);
        v
    }

    /// One Q15 refinement step shared by the three `tell_frac` iterations.
    fn q15_step(l: usize, rq: usize) -> (r: (usize, usize))
        requires
            0x8000 <= rq < 0x10000,
            l <= 300,
        ensures
            (r.0 as nat, r.1 as nat) == spec_q15_step(l as nat, rq as nat),
            0x8000 <= r.1 < 0x10000,
            2 * l <= r.0 <= 2 * l + 1,
    {
        proof {
            assert(0x40000000 <= rq * rq < 0x100000000) by (nonlinear_arith)
                requires
                    0x8000 <= rq < 0x10000,
            ;
        }
        let r2 = (rq * rq) / 0x8000;
        if r2 >= 0x10000 {
            (2 * l + 1, r2 / 2)
        } else {
            (2 * l, r2)
        }
    }

    /// Number of eighth-bits consumed so far: `8 * tell()` refined by three
    /// Q15 Newton steps of `log2(range)`, bit-exact with the reference
    /// formulation.
    pub fn tell_frac(&self) -> (r: usize)
        requires
            self.wf(),
            self.has_room(),
        ensures
            r == spec_tell_frac(self.used(), self.rng()),
            8 * self.spec_tell() - 7 <= r <= 8 * self.spec_tell(),
    {
        let lgr = Self::floor_log2(self.current_range);
        proof {
            lemma_lg_pow2_bounds(self.rng());
            lemma2_to64();
            lemma_lg_from_bounds(0x800001, 23);
            lemma_lg_monotone(0x800001nat, self.rng());
            lemma_lg_from_bounds(0x80000000, 31);
            lemma_lg_monotone(self.rng(), 0x80000000nat);
            // the scaled range lands in [2^15, 2^16)
            lemma_pow2_adds((lgr - 15) as nat, 15);
            lemma_pow2_adds((lgr - 15) as nat, 16);
            lemma_pow2_pos((lgr - 15) as nat);
            lemma_pow2_pos(15);
            lemma_div_is_ordered(pow2(lgr as nat) as int, self.rng() as int, pow2(
                (lgr - 15) as nat,
            ) as int);
            lemma_div_by_multiple(pow2(15) as int, pow2((lgr - 15) as nat) as int);
            lemma_mul_is_commutative(pow2(15) as int, pow2((lgr - 15) as nat) as int);
            lemma_div_is_ordered(
                self.rng() as int,
                (pow2((lgr - 15) as nat) * pow2(16) - 1) as int,
                pow2((lgr - 15) as nat) as int,
            );
            lemma_fundamental_div_mod_converse(
                (pow2((lgr - 15) as nat) * pow2(16) - 1) as int,
                pow2((lgr - 15) as nat) as int,
                (pow2(16) - 1) as int,
                (pow2((lgr - 15) as nat) - 1) as int,
            );
            assert((pow2(16) - 1) * pow2((lgr - 15) as nat) + (pow2((lgr - 15) as nat) - 1) == pow2(
                (lgr - 15) as nat,
            ) * pow2(16) - 1) by (nonlinear_arith);
        }
        let l0: usize = lgr + 1;
        let m = pow2_usize(lgr - 15);
        let r0: usize = self.current_range / m;
        let s1 = Self::q15_step(l0, r0);
        let s2 = Self::q15_step(s1.0, s1.1);
        let s3 = Self::q15_step(s2.0, s2.1);
        self.consumed_bits * 8 - s3.0
    }

    /// Decodes an integer uniformly distributed on `[0, len)`.  Beyond eight
    /// coded bits the tail is drawn as raw bits from the reverse stream.
    pub fn uniform(&mut self, len: usize) -> (r: usize)
        requires
            old(self).wf(),
            old(self).used() + 24 <= CONSUMED_LIMIT,
            2 <= len <= 0x7FFF_FFFF,
        ensures
            final(self).wf(),
            final(self).stream() == old(self).stream(),
            final(self).total_bits() == old(self).total_bits(),
            old(self).used() <= final(self).used() <= old(self).used() + 56,
            ({
                let ftb = lg((len - 1) as nat) + 1;
                let sh = (ftb - 8) as nat;
                let total = if ftb > 8 {
                    (((len - 1) as nat) / pow2(sh) + 1) as nat
                } else {
                    len as nat
                };
                let sym = spec_symbol(old(self).val(), old(self).rng(), total);
                let st = spec_update(
                    old(self).stream(),
                    old(self).fpos(),
                    old(self).val(),
                    old(self).rng(),
                    old(self).used(),
                    sym,
                    (sym + 1) as nat,
                    total,
                );
                if ftb > 8 {
                    let t = sym * pow2(sh) + le_val(old(self).stream(), old(self).rpos(), sh);
                    &&& final(self).fpos() == st.0
                    &&& final(self).val() == st.1
                    &&& final(self).rng() == st.2
                    &&& final(self).used() == st.3 + sh
                    &&& final(self).rpos() == old(self).rpos() + sh
                    &&& r == (if t < len {
                        t as int
                    } else {
                        (len - 1) as int
                    })
                    &&& r < len
                } else {
                    &&& final(self).state() == st
                    &&& final(self).rpos() == old(self).rpos()
                    &&& r == sym
                    &&& r < len
                }
            }),
    {
        let ghost bytes = self.stream();
        let ghost rp0 = self.rpos();
        let ftb = Self::floor_log2(len - 1) + 1;
        proof {
            lemma2_to64();
            lemma_lg_pow2_bounds((len - 1) as nat);
            lemma_lg_from_bounds(0x7FFFFFFF, 30);
            lemma_lg_monotone((len - 1) as nat, 0x7FFFFFFFnat);
        }
        if ftb > 8 {
            let sh = ftb - 8;
            let m = pow2_usize(sh);
            let total = (len - 1) / m + 1;
            proof {
                // the head distribution never exceeds nine coded bits
                lemma_pow2_adds((sh) as nat, 8);
                lemma_pow2_pos(sh as nat);
                lemma_div_is_ordered((len - 1) as int, (pow2(sh as nat) * pow2(8) - 1) as int, m as int);
                lemma_fundamental_div_mod_converse(
                    (pow2(sh as nat) * pow2(8) - 1) as int,
                    pow2(sh as nat) as int,
                    (pow2(8) - 1) as int,
                    (pow2(sh as nat) - 1) as int,
                );
                assert((pow2(8) - 1) * pow2(sh as nat) + (pow2(sh as nat) - 1) == pow2(sh as nat)
                    * pow2(8) - 1) by (nonlinear_arith);
                assert(len - 1 < pow2((ftb) as nat));
            }
            let (range_scale, sym) = self.get_scale_symbol(total);
            self.update_range_and_value(range_scale, sym, sym + 1, total);
            let raw = self.rawbits(sh);
            proof {
                bits::lemma_le_val_bound(bytes, rp0, sh as nat);
                // the decoded head stays under the clipped distribution top
                assert(sym * m + raw < total * m) by (nonlinear_arith)
                    requires
                        sym + 1 <= total,
                        raw < m,
                        m >= 1,
                ;
                assert((((len - 1) as int) / (m as int)) * (m as int) <= len - 1) by {
                    lemma_fundamental_div_mod((len - 1) as int, m as int);
                    lemma_mul_is_commutative(m as int, ((len - 1) as int) / (m as int));
                }
                assert(total * m <= (len - 1) + m) by (nonlinear_arith)
                    requires
                        total == ((len - 1) as int) / (m as int) + 1,
                        m >= 1,
                        (((len - 1) as int) / (m as int)) * (m as int) <= len - 1,
                ;
                lemma_pow2_le(sh as nat, 24);
            }
            let t = sym * m + raw;
            // The recombined value can overrun a non-power-of-two range:
            // clip it to the admissible top, as the reference does.
            if t < len {
                t
            } else {
                len - 1
            }
        } else {
            let (range_scale, sym) = self.get_scale_symbol(len);
            proof {
                assert(len <= 0x100) by {
                    lemma_lg_pow2_bounds((len - 1) as nat);
                    lemma_pow2_le(lg((len - 1) as nat) + 1, 8);
                    lemma2_to64();
                }
            }
            self.update_range_and_value(range_scale, sym, sym + 1, len);
            sym
        }
    }

    /// Decodes a two-sided geometric (Laplace) variable centred at zero.
    pub fn laplace(&mut self, symbol: usize, decay: isize) -> (r: isize)
        requires
            old(self).wf(),
            old(self).used() + 24 <= CONSUMED_LIMIT,
            symbol <= 32736,
            0 <= decay <= 16384,
        ensures
            final(self).wf(),
            final(self).stream() == old(self).stream(),
            final(self).rpos() == old(self).rpos(),
            final(self).total_bits() == old(self).total_bits(),
            old(self).used() <= final(self).used() <= old(self).used() + 24,
            -0x8000 <= r <= 0x8000,
            ({
                let center = spec_symbol(old(self).val(), old(self).rng(), 0x8000);
                let t = spec_laplace_sym(center, symbol as nat, decay as nat);
                let high = if t.1 + t.2 < 0x8000 {
                    (t.1 + t.2) as nat
                } else {
                    0x8000nat
                };
                r == t.0 && final(self).state() == spec_update(
                    old(self).stream(),
                    old(self).fpos(),
                    old(self).val(),
                    old(self).rng(),
                    old(self).used(),
                    t.1,
                    high,
                    0x8000,
                )
            }),
    {
        let (range_scale, center) = self.get_scale_symbol(0x8000);
        let ghost decay_n = decay as nat;
        let d: usize = decay as usize;
        proof {
            assert(d == decay);
            assert(d <= 0x4000);
            assert((0x8000 - 32 - symbol) * (0x4000 - d) <= 0x8000 * 0x4000) by (nonlinear_arith)
                requires
                    symbol <= 32736,
                    d <= 0x4000,
            ;
            lemma_div_is_ordered(
                ((0x8000 - 32 - symbol) * (0x4000 - d)) as int,
                0x8000int * 0x4000int,
                0x8000,
            );
        }
        let (value, low, symbol_f) = if center >= symbol {
            let mut value: isize = 1;
            let mut low: usize = symbol;
            let mut sym: usize = 1 + ((0x8000 - 32 - symbol) * (0x4000 - d)) / 0x8000;
            let ghost s1 = sym as nat;
            while sym > 1 && center >= low + 2 * sym
                invariant
                    1 <= sym <= 0x8000,
                    low <= center < 0x8000,
                    1 <= value,
                    low >= symbol + 4 * (value - 1),
                    d == decay,
                    d <= 0x4000,
                    decay_n == d as nat,
                    spec_laplace_expand(center as nat, value as int, low as nat, sym as nat, decay_n)
                        == spec_laplace_expand(center as nat, 1, symbol as nat, s1, decay_n),
                decreases center - low,
            {
                let ghost vpre = value as int;
                let ghost lpre = low as nat;
                let ghost spre = sym as nat;
                value = value + 1;
                let s2 = 2 * sym;
                low = low + s2;
                proof {
                    assert(((s2 - 2) * d) <= ((s2 - 2) * 0x4000)) by (nonlinear_arith)
                        requires
                            d <= 0x4000,
                            s2 >= 2,
                    ;
                    lemma_div_is_ordered(((s2 - 2) * d) as int, ((s2 - 2) * 0x4000) as int, 0x8000);
                    assert(((s2 - 2) * 0x4000) / 0x8000 + 1 <= sym) by (nonlinear_arith)
                        requires
                            sym >= 2,
                            s2 == 2 * sym,
                    ;
                }
                sym = ((s2 - 2) * d) / 0x8000 + 1;
                proof {
                    assert(spec_laplace_expand(center as nat, vpre, lpre, spre, decay_n)
                        == spec_laplace_expand(
                        center as nat,
                        value as int,
                        low as nat,
                        sym as nat,
                        decay_n,
                    ));
                }
            }
            proof {
                assert(1 <= value <= 0x2001);
            }
            if sym <= 1 {
                let dist = (center - low) / 2;
                proof {
                    assert(dist <= 0x4000);
                }
                value = value + (dist as isize);
                low = low + 2 * dist;
            }
            proof {
                assert(1 <= value <= 0x6001);
            }
            if center < low + sym {
                value = -value;
            } else {
                low = low + sym;
            }
            (value, low, sym)
        } else {
            (0isize, 0usize, symbol)
        };
        let high = if low + symbol_f < 0x8000 {
            low + symbol_f
        } else {
            0x8000
        };
        self.update_range_and_value(range_scale, low, high, 0x8000);
        value
    }

    /// Decodes a CELT pulse count: triple probability mass up to `k0`, unit
    /// mass above it.
    pub fn step(&mut self, k0: usize) -> (r: usize)
        requires
            old(self).wf(),
            old(self).used() + 24 <= CONSUMED_LIMIT,
            4 * k0 + 3 <= 0x800000,
        ensures
            final(self).wf(),
            final(self).stream() == old(self).stream(),
            final(self).rpos() == old(self).rpos(),
            final(self).total_bits() == old(self).total_bits(),
            old(self).used() <= final(self).used() <= old(self).used() + 24,
            ({
                let total = (4 * k0 + 3) as nat;
                let sym = spec_symbol(old(self).val(), old(self).rng(), total);
                let k = if sym < 3 * (k0 + 1) {
                    sym / 3
                } else {
                    (sym - 2 * (k0 + 1)) as nat
                };
                let low = if k <= k0 {
                    3 * k
                } else {
                    (3 * (k0 + 1) + (k - 1 - k0)) as nat
                };
                let high = if k <= k0 {
                    3 * k + 3
                } else {
                    (3 * (k0 + 1) + (k - k0)) as nat
                };
                r == k && final(self).state() == spec_update(
                    old(self).stream(),
                    old(self).fpos(),
                    old(self).val(),
                    old(self).rng(),
                    old(self).used(),
                    low,
                    high,
                    total,
                )
            }),
    {
        let k1 = (k0 + 1) * 3;
        let total = k1 + k0;
        let (range_scale, symbol) = self.get_scale_symbol(total);
        let k = if symbol < k1 {
            symbol / 3
        } else {
            symbol - (k0 + 1) * 2
        };
        proof {
            if symbol < k1 {
                lemma_fundamental_div_mod(symbol as int, 3);
            }
        }
        if k <= k0 {
            self.update_range_and_value(range_scale, 3 * k, 3 * (k + 1), total);
        } else {
            self.update_range_and_value(
                range_scale,
                3 * (k0 + 1) + (k - 1 - k0),
                3 * (k0 + 1) + (k - k0),
                total,
            );
        }
        k
    }

    /// Decodes under a symmetric triangular distribution on `[0, qn]`,
    /// realised as the cumulative quadratic and inverted with an integer
    /// square root.
    pub fn triangular(&mut self, qn: usize) -> (r: usize)
        requires
            old(self).wf(),
            old(self).used() + 24 <= CONSUMED_LIMIT,
            1 <= qn,
            (qn / 2 + 1) * (qn / 2 + 1) <= 0x800000,
        ensures
            final(self).wf(),
            final(self).stream() == old(self).stream(),
            final(self).rpos() == old(self).rpos(),
            final(self).total_bits() == old(self).total_bits(),
            old(self).used() <= final(self).used() <= old(self).used() + 24,
            r <= qn,
            ({
                let total = ((qn / 2 + 1) * (qn / 2 + 1)) as nat;
                let center = spec_symbol(old(self).val(), old(self).rng(), total);
                if center < total / 2 {
                    // the lower triangle: r is the row whose cumulative
                    // triangle number brackets the centre
                    &&& r * (r + 1) / 2 <= center < (r + 1) * (r + 2) / 2
                    &&& final(self).state() == spec_update(
                        old(self).stream(),
                        old(self).fpos(),
                        old(self).val(),
                        old(self).rng(),
                        old(self).used(),
                        (r * (r + 1) / 2) as nat,
                        (r * (r + 1) / 2 + r + 1) as nat,
                        total,
                    )
                } else {
                    // the upper triangle, inverted from the far corner
                    let j = (qn + 1 - r) as nat;
                    &&& r <= qn
                    &&& j >= 1
                    &&& j * (j - 1) / 2 <= total - center - 1 < j * (j + 1) / 2
                    &&& final(self).state() == spec_update(
                        old(self).stream(),
                        old(self).fpos(),
                        old(self).val(),
                        old(self).rng(),
                        old(self).used(),
                        (total - j * (j + 1) / 2) as nat,
                        (total - j * (j + 1) / 2 + j) as nat,
                        total,
                    )
                }
            }),
    {
        let half = qn / 2;
        let total = (half + 1) * (half + 1);
        proof {
            assert(1 <= total && half <= 2895) by (nonlinear_arith)
                requires
                    total == (half + 1) * (half + 1),
                    total <= 0x800000,
            ;
            lemma_fundamental_div_mod(qn as int, 2);
            assert(2 * half <= qn <= 2 * half + 1);
        }
        let (range_scale, center) = self.get_scale_symbol(total);
        let (k, low, symbol) = if center < total / 2 {
            let s = isqrt_usize(8 * center + 1);
            proof {
                assert(s >= 1) by (nonlinear_arith)
                    requires
                        s * s <= 8 * center + 1,
                        8 * center + 1 < (s + 1) * (s + 1),
                ;
            }
            let k = (s - 1) / 2;
            proof {
                lemma_fundamental_div_mod((s - 1) as int, 2);
                assert(2 * k + 1 <= s && s <= 2 * k + 2);
                lemma_tri_even(k as nat);
                lemma_tri_even((k + 1) as nat);
                lemma_fundamental_div_mod(total as int, 2);
                // lower bracket: (2k+1)^2 <= 8*center + 1
                assert((2 * k + 1) * (2 * k + 1) <= 8 * center + 1) by (nonlinear_arith)
                    requires
                        2 * k + 1 <= s,
                        s * s <= 8 * center + 1,
                ;
                assert((2 * k + 1) * (2 * k + 1) == 4 * (k * (k + 1)) + 1) by (nonlinear_arith);
                assert(k * (k + 1) <= 2 * center);
                // upper bracket: 8*center + 1 < (2k+3)^2
                assert(8 * center + 1 < (2 * k + 3) * (2 * k + 3)) by (nonlinear_arith)
                    requires
                        8 * center + 1 < (s + 1) * (s + 1),
                        s <= 2 * k + 2,
                ;
                assert((2 * k + 3) * (2 * k + 3) == 4 * ((k + 1) * (k + 2)) + 1) by (
                nonlinear_arith);
                assert(2 * center < (k + 1) * (k + 2));
                // the row stays inside the square
                assert(k <= half) by (nonlinear_arith)
                    requires
                        k * (k + 1) <= 2 * center,
                        2 * center < total,
                        total == (half + 1) * (half + 1),
                ;
                assert((k + 1) * (k + 2) <= 2 * total) by (nonlinear_arith)
                    requires
                        k <= half,
                        total == (half + 1) * (half + 1),
                ;
                // one row further is exactly one symbol wider
                assert(k * (k + 1) + 2 * (k + 1) == (k + 1) * (k + 2)) by (nonlinear_arith);
            }
            (k, k * (k + 1) / 2, k + 1)
        } else {
            let cp = total - center - 1;
            let s = isqrt_usize(8 * cp + 1);
            proof {
                assert(s >= 1) by (nonlinear_arith)
                    requires
                        s * s <= 8 * cp + 1,
                        8 * cp + 1 < (s + 1) * (s + 1),
                ;
                lemma_fundamental_div_mod(total as int, 2);
                lemma_fundamental_div_mod(qn as int, 2);
                assert(2 * half <= qn <= 2 * half + 1);
                assert(8 * cp + 1 < 4 * total);
                assert(4 * total == (2 * half + 2) * (2 * half + 2)) by (nonlinear_arith)
                    requires
                        total == (half + 1) * (half + 1),
                ;
                assert(s <= 2 * half + 1) by (nonlinear_arith)
                    requires
                        s * s <= 8 * cp + 1,
                        8 * cp + 1 < (2 * half + 2) * (2 * half + 2),
                        s >= 0,
                ;
            }
            let k = (2 * (qn + 1) - s) / 2;
            let ghost j = (qn + 1 - k) as nat;
            proof {
                lemma_fundamental_div_mod((2 * (qn + 1) - s) as int, 2);
                assert(2 * j - 1 <= s && s <= 2 * j);
                assert(j >= 1);
                lemma_tri_even(j);
                lemma_tri_even((j - 1) as nat);
                // lower bracket: (2j-1)^2 <= 8*cp + 1
                assert((2 * j - 1) * (2 * j - 1) <= 8 * cp + 1) by (nonlinear_arith)
                    requires
                        2 * j - 1 <= s,
                        s * s <= 8 * cp + 1,
                        j >= 1,
                ;
                assert((2 * j - 1) * (2 * j - 1) == 4 * (j * (j - 1)) + 1) by (nonlinear_arith)
                    requires
                        j >= 1,
                ;
                assert(j * (j - 1) <= 2 * cp);
                assert(((j - 1) as nat) * (((j - 1) as nat) + 1) == j * (j - 1)) by (
                nonlinear_arith)
                    requires
                        j >= 1,
                ;
                // upper bracket: 8*cp + 1 < (2j+1)^2
                assert(8 * cp + 1 < (2 * j + 1) * (2 * j + 1)) by (nonlinear_arith)
                    requires
                        8 * cp + 1 < (s + 1) * (s + 1),
                        s <= 2 * j,
                ;
                assert((2 * j + 1) * (2 * j + 1) == 4 * (j * (j + 1)) + 1) by (nonlinear_arith);
                assert(2 * cp < j * (j + 1));
                // the row stays inside the square
                assert(j <= half + 1);
                assert(j * (j + 1) <= 2 * total) by (nonlinear_arith)
                    requires
                        j <= half + 1,
                        total == (half + 1) * (half + 1),
                ;
                assert((qn + 1 - k) * (qn + 2 - k) == j * (j + 1));
                // one row further is exactly one symbol wider
                assert(j * (j + 1) == j * (j - 1) + 2 * j) by (nonlinear_arith)
                    requires
                        j >= 1,
                ;
                assert(j * (j + 1) >= 2 * j) by (nonlinear_arith)
                    requires
                        j >= 1,
                ;
            }
            (k, total - (qn + 1 - k) * (qn + 2 - k) / 2, qn + 1 - k)
        };
        self.update_range_and_value(range_scale, low, low + symbol, total);
        k
    }

    /// Reads raw bits from the reverse stream; the interval is untouched,
    /// only the bit accounting moves.
    pub fn rawbits(&mut self, len: usize) -> (r: usize)
        requires
            old(self).wf(),
            old(self).has_room(),
            len <= 32,
        ensures
            final(self).wf(),
            final(self).stream() == old(self).stream(),
            final(self).fpos() == old(self).fpos(),
            final(self).rng() == old(self).rng(),
            final(self).val() == old(self).val(),
            final(self).total_bits() == old(self).total_bits(),
            final(self).rpos() == old(self).rpos() + len,
            final(self).used() == old(self).used() + len,
            r == le_val(old(self).stream(), old(self).rpos(), len as nat),
    {
        self.consumed_bits = self.consumed_bits + len;
        let b = self.reverse_reader.get_bits_32(len);
        proof {
            bits::lemma_le_val_bound(self.stream(), old(self).rpos(), len as nat);
            lemma_pow2_le(len as nat, 32);
            lemma2_to64();
        }
        b as usize
    }

    /// Drains the remaining payload bits: afterwards `tell()` reports the
    /// whole payload as consumed.
    pub fn to_end(&mut self)
        requires
            old(self).wf(),
            old(self).has_room(),
        ensures
            final(self).wf(),
            final(self).stream() == old(self).stream(),
            final(self).fpos() == old(self).fpos(),
            final(self).rpos() == old(self).rpos(),
            final(self).rng() == old(self).rng(),
            final(self).val() == old(self).val(),
            final(self).total_bits() == old(self).total_bits(),
            final(self).spec_tell() == if old(self).spec_tell() <= old(self).total_bits() {
                old(self).total_bits() as int
            } else {
                old(self).spec_tell()
            },
    {
        let a = self.available();
        self.consumed_bits = self.consumed_bits + a;
    }

    /// Bits of the payload not yet committed to; zero once the stream is
    /// over-read.
    pub fn available(&self) -> (r: usize)
        requires
            self.wf(),
        ensures
            r == if self.spec_tell() <= self.total_bits() {
                self.total_bits() - self.spec_tell()
            } else {
                0
            },
    {
        let t = self.tell();
        if t <= self.bitstream_length {
            self.bitstream_length - t
        } else {
            0
        }
    }

    /// Eighth-bits of the payload not yet committed to; zero once the
    /// stream is over-read.
    pub fn available_frac(&self) -> (r: usize)
        requires
            self.wf(),
            self.has_room(),
        ensures
            r == if spec_tell_frac(self.used(), self.rng()) <= 8 * self.total_bits() {
                8 * self.total_bits() - spec_tell_frac(self.used(), self.rng())
            } else {
                0
            },
    {
        let tf = self.tell_frac();
        let total8 = self.bitstream_length * 8;
        if tf <= total8 {
            total8 - tf
        } else {
            0
        }
    }
}

/// Relies on integer_sqrt's `IntegerSquareRoot::integer_sqrt` for unsigned
/// integers: the floor of the square root, per its documentation and the
/// digit-by-digit algorithm it implements.
#[verifier::external_body]
fn isqrt_usize(n: usize) -> (r: usize)
    ensures
        r * r <= n,
        n < (r + 1) * (r + 1),
{
    integer_sqrt::IntegerSquareRoot::integer_sqrt(&n)
}

/// A binary decode guarded by the bit budget stays inside the payload: when
/// at least `p` bits are still available before `logp(p)`, the whole-bit
/// count afterwards is at most the payload length.  The two `tell`
/// relations required here are exactly what `logp` ensures of its result.
pub proof fn lemma_guarded_logp_stays_inside<'a>(
    pre: &RangeCodingDecoder<'a>,
    post: &RangeCodingDecoder<'a>,
    p: nat,
    r: bool,
)
    requires
        pre.wf(),
        post.wf(),
        1 <= p,
        pre.spec_tell() + p <= pre.total_bits(),
        r ==> post.spec_tell() == pre.spec_tell() + p,
        !r ==> post.spec_tell() <= pre.spec_tell() + 1,
    ensures
        post.spec_tell() <= pre.total_bits(),
{
}

/// The bounds a well-formed decoder guarantees, for callers that cannot see
/// inside `wf`.
pub proof fn lemma_wf_bounds<'a>(rd: &RangeCodingDecoder<'a>)
    requires
        rd.wf(),
    ensures
        0x800000 < rd.rng() <= 0x80000000,
        rd.used() >= lg(rd.rng()) + 2,
        23 <= lg(rd.rng()) <= 31,
        rd.total_bits() == 8 * rd.stream().len(),
    {
    lemma_lg_range(rd.rng());
}

/// An inverse cumulative distribution: `dist` climbs to `total`, and slice
/// `i` of the probability mass is `[dist[i-1], dist[i])`.
#[derive(Debug)]
pub struct ICDFContext {
    pub total: usize,
    pub dist: Vec<usize>,
}

impl ICDFContext {
    /// A distribution the decoder can draw from: nonempty, monotone, ending
    /// exactly at `total`, with `total` small enough to divide the range.
    pub open spec fn valid(&self) -> bool {
        &&& self.dist@.len() >= 1
        &&& 1 <= self.total <= 0x800000
        &&& (forall|i: int, j: int|
            0 <= i <= j < self.dist@.len() ==> self.dist@[i] <= self.dist@[j])
        &&& self.dist@[self.dist@.len() - 1] == self.total
    }
}

} // verus!
