use vstd::prelude::*;
use vstd::arithmetic::power2::*;
use vstd::arithmetic::div_mod::*;
use vstd::bits::*;

verus! {

// ---------------------------------------------------------------------------
// The two bit streams carried by one frame buffer.
//
// The forward stream hands the bytes out left to right, most significant bit
// first.  The reverse stream starts at the final byte and hands out the low
// bits of each byte first, walking toward the front.  Both streams read as an
// endless run of zero bits once the buffer is spent.
// ---------------------------------------------------------------------------

/// Byte `i` of the buffer, zero past its end.
pub open spec fn byte_at(bytes: Seq<u8>, i: nat) -> nat {
    if i < bytes.len() {
        bytes[i as int] as nat
    } else {
        0
    }
}

/// Bit `i` of the forward stream: bytes left to right, most significant bit
/// of each byte first.
pub open spec fn be_bit(bytes: Seq<u8>, i: nat) -> nat {
    byte_at(bytes, i / 8) / pow2((7 - i % 8) as nat) % 2
}

/// The value of the `n` forward-stream bits starting at `pos`, first bit most
/// significant.
pub open spec fn be_val(bytes: Seq<u8>, pos: nat, n: nat) -> nat
    decreases n,
{
    if n == 0 {
        0
    } else {
        be_val(bytes, pos, (n - 1) as nat) * 2 + be_bit(bytes, (pos + n - 1) as nat)
    }
}

/// Byte `i` of the reverse stream: the buffer read from the tail inward.
pub open spec fn le_byte_at(bytes: Seq<u8>, i: nat) -> nat {
    if i < bytes.len() {
        bytes[bytes.len() - 1 - i] as nat
    } else {
        0
    }
}

/// Bit `i` of the reverse stream: bytes from the tail inward, least
/// significant bit of each byte first.
pub open spec fn le_bit(bytes: Seq<u8>, i: nat) -> nat {
    le_byte_at(bytes, i / 8) / pow2(i % 8) % 2
}

/// The value of the `n` reverse-stream bits starting at `pos`, first bit
/// least significant.
pub open spec fn le_val(bytes: Seq<u8>, pos: nat, n: nat) -> nat
    decreases n,
{
    if n == 0 {
        0
    } else {
        le_bit(bytes, pos) + 2 * le_val(bytes, (pos + 1) as nat, (n - 1) as nat)
    }
}

// ---------------------------------------------------------------------------
// Facts about the stream values.
// ---------------------------------------------------------------------------

pub proof fn lemma_be_val_bound(bytes: Seq<u8>, pos: nat, n: nat)
    ensures
        be_val(bytes, pos, n) < pow2(n),
    decreases n,
{
    if n == 0 {
        lemma_pow2_pos(0);
        assert(pow2(0) == 1) by { lemma2_to64(); }
    } else {
        lemma_be_val_bound(bytes, pos, (n - 1) as nat);
        lemma_pow2_unfold(n);
    }
}

pub proof fn lemma_le_val_bound(bytes: Seq<u8>, pos: nat, n: nat)
    ensures
        le_val(bytes, pos, n) < pow2(n),
    decreases n,
{
    if n == 0 {
        assert(pow2(0) == 1) by { lemma2_to64(); }
    } else {
        lemma_le_val_bound(bytes, (pos + 1) as nat, (n - 1) as nat);
        lemma_pow2_unfold(n);
    }
}

/// Splitting a forward read in two: the first part carries the high bits.
pub proof fn lemma_be_val_concat(bytes: Seq<u8>, pos: nat, a: nat, b: nat)
    ensures
        be_val(bytes, pos, a + b) == be_val(bytes, pos, a) * pow2(b) + be_val(
            bytes,
            (pos + a) as nat,
            b,
        ),
    decreases b,
{
    if b == 0 {
        assert(pow2(0) == 1) by { lemma2_to64(); }
    } else {
        lemma_be_val_concat(bytes, pos, a, (b - 1) as nat);
        lemma_pow2_unfold(b);
        let va = be_val(bytes, pos, a);
        let vb1 = be_val(bytes, (pos + a) as nat, (b - 1) as nat);
        let bit = be_bit(bytes, (pos + a + b - 1) as nat);
        assert(be_val(bytes, pos, a + b) == be_val(bytes, pos, (a + b - 1) as nat) * 2 + bit);
        assert(be_val(bytes, pos, (a + b - 1) as nat) == va * pow2((b - 1) as nat) + vb1);
        assert((va * pow2((b - 1) as nat) + vb1) * 2 == va * (pow2((b - 1) as nat) * 2) + vb1 * 2)
            by (nonlinear_arith);
        assert(be_val(bytes, (pos + a) as nat, b) == vb1 * 2 + bit);
    }
}

/// Splitting a reverse read in two: the first part carries the low bits.
pub proof fn lemma_le_val_concat(bytes: Seq<u8>, pos: nat, a: nat, b: nat)
    ensures
        le_val(bytes, pos, a + b) == le_val(bytes, pos, a) + pow2(a) * le_val(
            bytes,
            (pos + a) as nat,
            b,
        ),
    decreases a,
{
    if a == 0 {
        assert(pow2(0) == 1) by { lemma2_to64(); }
    } else {
        lemma_le_val_concat(bytes, (pos + 1) as nat, (a - 1) as nat, b);
        lemma_pow2_unfold(a);
        let vb = le_val(bytes, (pos + a) as nat, b);
        let v1 = le_val(bytes, (pos + 1) as nat, (a - 1) as nat);
        assert(le_val(bytes, pos, a + b) == le_bit(bytes, pos) + 2 * le_val(
            bytes,
            (pos + 1) as nat,
            (a + b - 1) as nat,
        ));
        assert(le_val(bytes, (pos + 1) as nat, (a - 1) as nat + b) == v1 + pow2((a - 1) as nat)
            * vb);
        assert(2 * (v1 + pow2((a - 1) as nat) * vb) == 2 * v1 + (2 * pow2((a - 1) as nat)) * vb)
            by (nonlinear_arith);
    }
}

/// Forward bits past the end of the buffer are zero.
pub proof fn lemma_be_val_zero(bytes: Seq<u8>, pos: nat, n: nat)
    requires
        pos >= 8 * bytes.len(),
    ensures
        be_val(bytes, pos, n) == 0,
    decreases n,
{
    if n > 0 {
        lemma_be_val_zero(bytes, pos, (n - 1) as nat);
        let i = (pos + n - 1) as nat;
        assert(i / 8 >= bytes.len()) by {
            lemma_div_is_ordered(8 * bytes.len() as int, i as int, 8);
            lemma_div_by_multiple(bytes.len() as int, 8);
        }
        assert(byte_at(bytes, i / 8) == 0);
        lemma_pow2_pos((7 - i % 8) as nat);
    }
}

/// Reverse bits past the capacity of the buffer are zero.
pub proof fn lemma_le_val_zero(bytes: Seq<u8>, pos: nat, n: nat)
    requires
        pos >= 8 * bytes.len(),
    ensures
        le_val(bytes, pos, n) == 0,
    decreases n,
{
    if n > 0 {
        lemma_le_val_zero(bytes, (pos + 1) as nat, (n - 1) as nat);
        assert(pos / 8 >= bytes.len()) by {
            lemma_div_is_ordered(8 * bytes.len() as int, pos as int, 8);
            lemma_div_by_multiple(bytes.len() as int, 8);
        }
        assert(le_byte_at(bytes, pos / 8) == 0);
        lemma_pow2_pos(pos % 8);
    }
}

/// Eight aligned forward bits are exactly one byte of the buffer.
pub proof fn lemma_be_val_byte(bytes: Seq<u8>, i: nat)
    ensures
        be_val(bytes, 8 * i, 8) == byte_at(bytes, i),
{
    let p = 8 * i;
    let b = byte_at(bytes, i);
    assert forall|k: nat| k < 8 implies #[trigger] be_bit(bytes, (p + k) as nat) == b / pow2(
        (7 - k) as nat,
    ) % 2 by {
        assert((p + k) / 8 == i) by {
            lemma_fundamental_div_mod_converse((p + k) as int, 8, i as int, k as int);
        }
        assert((p + k) % 8 == k) by {
            lemma_fundamental_div_mod_converse((p + k) as int, 8, i as int, k as int);
        }
    }
    lemma2_to64();
    assert(be_val(bytes, p, 8) == ((((((((b / 128 % 2) * 2 + b / 64 % 2) * 2 + b / 32 % 2) * 2 + b
        / 16 % 2) * 2 + b / 8 % 2) * 2 + b / 4 % 2) * 2 + b / 2 % 2) * 2 + b / 1 % 2)) by {
        reveal_with_fuel(be_val, 9);
    }
    assert(b < 256);
    assert(((((((((b / 128 % 2) * 2 + b / 64 % 2) * 2 + b / 32 % 2) * 2 + b / 16 % 2) * 2 + b / 8
        % 2) * 2 + b / 4 % 2) * 2 + b / 2 % 2) * 2 + b / 1 % 2) == b) by (nonlinear_arith)
        requires
            b < 256,
    ;
}

/// Eight aligned reverse bits are exactly one byte of the buffer, counted
/// from the tail.
pub proof fn lemma_le_val_byte(bytes: Seq<u8>, i: nat)
    ensures
        le_val(bytes, 8 * i, 8) == le_byte_at(bytes, i),
{
    let p = 8 * i;
    let b = le_byte_at(bytes, i);
    assert forall|k: nat| k < 8 implies #[trigger] le_bit(bytes, (p + k) as nat) == b / pow2(k)
        % 2 by {
        assert((p + k) / 8 == i && (p + k) % 8 == k) by {
            lemma_fundamental_div_mod_converse((p + k) as int, 8, i as int, k as int);
        }
    }
    lemma2_to64();
    assert(le_val(bytes, p, 8) == b / 1 % 2 + 2 * (b / 2 % 2 + 2 * (b / 4 % 2 + 2 * (b / 8 % 2 + 2
        * (b / 16 % 2 + 2 * (b / 32 % 2 + 2 * (b / 64 % 2 + 2 * (b / 128 % 2 + 2 * 0)))))))) by {
        reveal_with_fuel(le_val, 9);
    }
    assert(b < 256);
    assert(b / 1 % 2 + 2 * (b / 2 % 2 + 2 * (b / 4 % 2 + 2 * (b / 8 % 2 + 2 * (b / 16 % 2 + 2 * (b
        / 32 % 2 + 2 * (b / 64 % 2 + 2 * (b / 128 % 2 + 2 * 0))))))) == b) by (nonlinear_arith)
        requires
            b < 256,
    ;
}

/// A forward read split at `k`: the first `k` bits are the high part.
pub proof fn lemma_be_val_split(bytes: Seq<u8>, pos: nat, n: nat, k: nat)
    requires
        k <= n,
    ensures
        be_val(bytes, pos, n) / pow2((n - k) as nat) == be_val(bytes, pos, k),
        be_val(bytes, pos, n) % pow2((n - k) as nat) == be_val(
            bytes,
            (pos + k) as nat,
            (n - k) as nat,
        ),
{
    lemma_be_val_concat(bytes, pos, k, (n - k) as nat);
    lemma_be_val_bound(bytes, (pos + k) as nat, (n - k) as nat);
    lemma_pow2_pos((n - k) as nat);
    lemma_fundamental_div_mod_converse(
        be_val(bytes, pos, n) as int,
        pow2((n - k) as nat) as int,
        be_val(bytes, pos, k) as int,
        be_val(bytes, (pos + k) as nat, (n - k) as nat) as int,
    );
}

/// A reverse read split at `k`: the first `k` bits are the low part.
pub proof fn lemma_le_val_split(bytes: Seq<u8>, pos: nat, n: nat, k: nat)
    requires
        k <= n,
    ensures
        le_val(bytes, pos, n) % pow2(k) == le_val(bytes, pos, k),
        le_val(bytes, pos, n) / pow2(k) == le_val(bytes, (pos + k) as nat, (n - k) as nat),
{
    lemma_le_val_concat(bytes, pos, k, (n - k) as nat);
    lemma_le_val_bound(bytes, pos, k);
    lemma_pow2_pos(k);
    lemma_fundamental_div_mod_converse(
        le_val(bytes, pos, n) as int,
        pow2(k) as int,
        le_val(bytes, (pos + k) as nat, (n - k) as nat) as int,
        le_val(bytes, pos, k) as int,
    );
}

/// Powers of two do not shrink as the exponent grows.
pub proof fn lemma_pow2_le(a: nat, b: nat)
    requires
        a <= b,
    ensures
        pow2(a) <= pow2(b),
{
    if a < b {
        lemma_pow2_strictly_increases(a, b);
    }
}

/// `2^sh` as a machine word.
fn pow2_u64(sh: u64) -> (r: u64)
    requires
        sh < 64,
    ensures
        r as nat == pow2(sh as nat),
        r >= 1,
{
    proof {
        lemma_u64_pow2_no_overflow(sh as nat);
        lemma_u64_shl_is_mul(1u64, sh);
    }
    1u64 << sh
}

// ---------------------------------------------------------------------------
// The executable readers.
// ---------------------------------------------------------------------------

/// A big-endian reader: hands out the forward bit stream of the buffer.
///
/// Reads past the end of the buffer silently return zero bits; a truncated
/// stream is not an error at this layer.
pub struct BigEndianBitReader<'a> {
    bytes: &'a [u8],
    index: usize,
    cache: u64,
    left: usize,
    pos: Ghost<nat>,
}

impl<'a> BigEndianBitReader<'a> {
    /// The buffer both cursors walk.
    pub closed spec fn stream(&self) -> Seq<u8> {
        self.bytes@
    }

    /// Number of forward-stream bits handed out so far.
    pub closed spec fn pos(&self) -> nat {
        self.pos@
    }

    pub closed spec fn wf(&self) -> bool {
        &&& self.left <= 64
        &&& self.index <= self.bytes@.len() + 8
        &&& 8 * self.bytes@.len() <= usize::MAX
        &&& self.cache as nat == be_val(self.bytes@, self.pos@, self.left as nat)
        &&& (self.pos@ + self.left == 8 * self.index || (self.index >= self.bytes@.len()
            && self.pos@ + self.left >= 8 * self.bytes@.len()))
    }

    pub fn new(bytes: &'a [u8]) -> (r: Self)
        requires
            8 * bytes@.len() <= usize::MAX,
        ensures
            r.wf(),
            r.stream() == bytes@,
            r.pos() == 0,
    {
        let mut this = Self { bytes, index: 0, cache: 0, left: 0, pos: Ghost(0nat) };
        if this.readable() {
            this.cache = this.read(8);
            this.index = 8;
            this.left = 64;
        }
        this
    }

    /// Returns the next `n` bits of the forward stream, first bit most
    /// significant; zero bits once the buffer is spent.
    pub fn get_bits_32(&mut self, n: usize) -> (r: u32)
        requires
            old(self).wf(),
            n <= 32,
        ensures
            final(self).wf(),
            final(self).stream() == old(self).stream(),
            final(self).pos() == old(self).pos() + n,
            r as nat == be_val(old(self).stream(), old(self).pos(), n as nat),
    {
        if n == 0 {
            return 0;
        }
        let ghost bytes = self.bytes@;
        let ghost pos = self.pos@;
        if self.left < n {
            if self.index < self.bytes.len() {
                let w = self.read(4);
                proof {
                    lemma_be_val_concat(bytes, pos, self.left as nat, 32);
                    lemma_be_val_bound(bytes, pos, self.left as nat);
                    lemma_be_val_bound(bytes, (pos + self.left) as nat, 32);
                    lemma_pow2_strictly_increases(self.left as nat, 32);
                    lemma2_to64();
                }
                self.cache = self.cache * 0x1_0000_0000u64 + w;
                self.index = self.index + 4;
                self.left = self.left + 32;
            } else {
                // The buffer is spent: the rest of the stream is zero bits.
                let sh = (n - self.left) as u64;
                let m = pow2_u64(sh);
                proof {
                    lemma_be_val_concat(bytes, pos, self.left as nat, sh as nat);
                    lemma_be_val_zero(bytes, (pos + self.left) as nat, sh as nat);
                    lemma_be_val_bound(bytes, pos, self.left as nat);
                    lemma_pow2_adds(self.left as nat, sh as nat);
                    lemma_pow2_le(n as nat, 32);
                    lemma2_to64();
                    assert((self.cache as nat) * (m as nat) < pow2(n as nat)) by (nonlinear_arith)
                        requires
                            (self.cache as nat) < pow2(self.left as nat),
                            m as nat == pow2(sh as nat),
                            m as nat >= 1,
                            pow2(self.left as nat) * pow2(sh as nat) == pow2(n as nat),
                    ;
                }
                let v64 = self.cache * m;
                self.cache = 0;
                self.left = 0;
                proof {
                    self.pos@ = (pos + n) as nat;
                }
                return v64 as u32;
            }
        }
        let sh = (self.left - n) as u64;
        let m = pow2_u64(sh);
        proof {
            lemma_be_val_split(bytes, pos, self.left as nat, n as nat);
            lemma_be_val_bound(bytes, pos, n as nat);
            lemma_pow2_le(n as nat, 32);
            lemma2_to64();
        }
        let v = self.cache / m;
        self.cache = self.cache % m;
        self.left = self.left - n;
        proof {
            self.pos@ = (pos + n) as nat;
        }
        v as u32
    }

    /// Whether unread buffer bytes remain.
    fn readable(&self) -> (r: bool)
        ensures
            r == (self.index < self.bytes@.len()),
    {
        self.index < self.bytes.len()
    }

    /// Composes the next `count` buffer bytes big-endian, zero-padded at the
    /// low end past the buffer.
    fn read(&self, count: usize) -> (r: u64)
        requires
            self.index < self.bytes@.len(),
            1 <= count <= 8,
            8 * self.bytes@.len() <= usize::MAX,
        ensures
            r as nat == be_val(self.bytes@, (8 * self.index) as nat, (8 * count) as nat),
    {
        let ghost bytes = self.bytes@;
        let avail = self.bytes.len() - self.index;
        let take = if avail < count {
            avail
        } else {
            count
        };
        let mut value: u64 = 0;
        let mut j: usize = 0;
        proof {
            lemma2_to64();
        }
        while j < take
            invariant
                j <= take,
                1 <= take <= count,
                count <= 8,
                take <= bytes.len() - self.index,
                8 * bytes.len() <= usize::MAX,
                bytes == self.bytes@,
                value as nat == be_val(bytes, (8 * self.index) as nat, (8 * j) as nat),
                (value as nat) < pow2((8 * j) as nat),
            decreases take - j,
        {
            let b = self.bytes[self.index + j];
            proof {
                lemma_be_val_concat(bytes, (8 * self.index) as nat, (8 * j) as nat, 8);
                lemma_be_val_byte(bytes, (self.index + j) as nat);
                assert(8 * self.index + 8 * j == 8 * (self.index + j));
                lemma_pow2_adds((8 * j) as nat, 8);
                lemma_pow2_le((8 * j) as nat, 56);
                lemma2_to64();
                lemma2_to64_rest();
                assert((value as nat) * 256 + 255 < pow2((8 * j) as nat) * 256) by (nonlinear_arith)
                    requires
                        (value as nat) < pow2((8 * j) as nat),
                ;
            }
            value = value * 256 + (b as u64);
            j = j + 1;
        }
        if take == count {
            value
        } else {
            // Fewer than `count` bytes remained: pad with zero bits.
            let sh = (8 * (count - take)) as u64;
            let m = pow2_u64(sh);
            proof {
                lemma_be_val_concat(bytes, (8 * self.index) as nat, (8 * take) as nat, sh as nat);
                lemma_be_val_zero(bytes, (8 * self.index + 8 * take) as nat, sh as nat);
                lemma_pow2_adds((8 * take) as nat, sh as nat);
                lemma_pow2_le((8 * count) as nat, 64);
                lemma2_to64();
                lemma2_to64_rest();
                assert((value as nat) * (m as nat) < pow2((8 * count) as nat)) by (nonlinear_arith)
                    requires
                        (value as nat) < pow2((8 * take) as nat),
                        m as nat == pow2(sh as nat),
                        m as nat >= 1,
                        pow2((8 * take) as nat) * pow2(sh as nat) == pow2((8 * count) as nat),
                ;
            }
            value * m
        }
    }
}

/// A little-endian reader: hands out the reverse bit stream of the buffer,
/// starting at the final byte and walking toward the front, low bits of each
/// byte first.
///
/// Reads past the capacity of the buffer silently return zero bits.
pub struct LittleEndianBitReader<'a> {
    bytes: &'a [u8],
    index: usize,
    cache: u64,
    left: usize,
    pos: Ghost<nat>,
}

impl<'a> LittleEndianBitReader<'a> {
    /// The buffer both cursors walk.
    pub closed spec fn stream(&self) -> Seq<u8> {
        self.bytes@
    }

    /// Number of reverse-stream bits handed out so far.
    pub closed spec fn pos(&self) -> nat {
        self.pos@
    }

    pub closed spec fn wf(&self) -> bool {
        &&& self.left <= 64
        &&& self.index <= self.bytes@.len() + 8
        &&& 8 * self.bytes@.len() <= usize::MAX
        &&& self.cache as nat == le_val(self.bytes@, self.pos@, self.left as nat)
        &&& (self.pos@ + self.left == 8 * self.index || (self.index > self.bytes@.len()
            && self.pos@ + self.left >= 8 * self.bytes@.len()))
    }

    pub fn new(bytes: &'a [u8]) -> (r: Self)
        requires
            8 * bytes@.len() <= usize::MAX,
        ensures
            r.wf(),
            r.stream() == bytes@,
            r.pos() == 0,
    {
        let mut this = Self { bytes, index: 0, cache: 0, left: 0, pos: Ghost(0nat) };
        if this.readable() {
            this.cache = this.read(8);
            this.index = 8;
            this.left = 64;
        }
        this
    }

    /// Returns the next `n` bits of the reverse stream, first bit least
    /// significant; zero bits once the capacity is spent.
    pub fn get_bits_32(&mut self, n: usize) -> (r: u32)
        requires
            old(self).wf(),
            n <= 32,
        ensures
            final(self).wf(),
            final(self).stream() == old(self).stream(),
            final(self).pos() == old(self).pos() + n,
            r as nat == le_val(old(self).stream(), old(self).pos(), n as nat),
    {
        if n == 0 {
            return 0;
        }
        let ghost bytes = self.bytes@;
        let ghost pos = self.pos@;
        if self.left < n {
            if self.index <= self.bytes.len() {
                let w = self.read(4);
                let m = pow2_u64(self.left as u64);
                proof {
                    lemma_le_val_concat(bytes, pos, self.left as nat, 32);
                    lemma_le_val_bound(bytes, pos, self.left as nat);
                    lemma_le_val_bound(bytes, (pos + self.left) as nat, 32);
                    lemma_le_val_bound(bytes, pos, (self.left + 32) as nat);
                    lemma_pow2_le(self.left as nat, 31);
                    lemma_pow2_le((self.left + 32) as nat, 63);
                    lemma2_to64();
                    lemma2_to64_rest();
                    lemma_pow2_adds(self.left as nat, 32);
                    assert((w as nat) * (m as nat) <= pow2((self.left + 32) as nat)) by (
                    nonlinear_arith)
                        requires
                            (w as nat) < pow2(32),
                            m as nat == pow2(self.left as nat),
                            m as nat >= 1,
                            pow2(self.left as nat) * pow2(32) == pow2((self.left + 32) as nat),
                    ;
                }
                proof {
                    assert((self.cache as nat) + (w as nat) * (m as nat) == le_val(
                        bytes,
                        pos,
                        (self.left + 32) as nat,
                    )) by (nonlinear_arith)
                        requires
                            self.cache as nat == le_val(bytes, pos, self.left as nat),
                            w as nat == le_val(bytes, (pos + self.left) as nat, 32),
                            m as nat == pow2(self.left as nat),
                            le_val(bytes, pos, (self.left + 32) as nat) == le_val(
                                bytes,
                                pos,
                                self.left as nat,
                            ) + pow2(self.left as nat) * le_val(bytes, (pos + self.left) as nat, 32),
                    ;
                }
                self.cache = self.cache + w * m;
                self.index = self.index + 4;
                self.left = self.left + 32;
            } else {
                // The capacity is spent: the rest of the stream is zero bits.
                proof {
                    lemma_le_val_concat(bytes, pos, self.left as nat, (n - self.left) as nat);
                    lemma_le_val_zero(bytes, (pos + self.left) as nat, (n - self.left) as nat);
                    lemma_le_val_bound(bytes, pos, self.left as nat);
                    lemma_pow2_le(self.left as nat, 32);
                    lemma2_to64();
                }
                let v = self.cache as u32;
                self.cache = 0;
                self.left = 0;
                proof {
                    self.pos@ = (pos + n) as nat;
                }
                return v;
            }
        }
        let m = pow2_u64(n as u64);
        proof {
            lemma_le_val_split(bytes, pos, self.left as nat, n as nat);
            lemma_le_val_bound(bytes, pos, n as nat);
            lemma_pow2_le(n as nat, 32);
            lemma2_to64();
        }
        let v = (self.cache % m) as u32;
        self.cache = self.cache / m;
        self.left = self.left - n;
        proof {
            self.pos@ = (pos + n) as nat;
        }
        v
    }

    /// Whether the read cursor is still inside the buffer's capacity.
    fn readable(&self) -> (r: bool)
        ensures
            r == (self.index <= self.bytes@.len()),
    {
        self.index <= self.bytes.len()
    }

    /// Composes the `count` buffer bytes that precede the tail cursor,
    /// big-endian, zero-padded at the high end past the front of the buffer.
    fn read(&self, count: usize) -> (r: u64)
        requires
            self.index <= self.bytes@.len(),
            count <= 8,
            8 * self.bytes@.len() <= usize::MAX,
        ensures
            r as nat == le_val(self.bytes@, (8 * self.index) as nat, (8 * count) as nat),
    {
        let ghost bytes = self.bytes@;
        let end = self.bytes.len() - self.index;
        let start = if end >= count {
            end - count
        } else {
            0
        };
        let ghost take = (end - start) as nat;
        let mut value: u64 = 0;
        let mut j: usize = start;
        proof {
            lemma2_to64();
        }
        while j < end
            invariant
                start <= j <= end,
                end <= bytes.len(),
                end - start <= count,
                count <= 8,
                end == bytes.len() - self.index,
                8 * bytes.len() <= usize::MAX,
                bytes == self.bytes@,
                value as nat == le_val(bytes, (8 * (bytes.len() - j)) as nat, (8 * (j - start)) as nat),
                (value as nat) < pow2((8 * (j - start)) as nat),
            decreases end - j,
        {
            let b = self.bytes[j];
            proof {
                let i = (bytes.len() - j - 1) as nat;
                lemma_le_val_concat(bytes, 8 * i, 8, (8 * (j - start)) as nat);
                lemma_le_val_byte(bytes, i);
                assert(le_byte_at(bytes, i) == bytes[j as int]);
                lemma_pow2_adds(8, (8 * (j - start)) as nat);
                lemma_pow2_le((8 * (j - start)) as nat, 56);
                lemma2_to64();
                lemma2_to64_rest();
                assert(pow2(8) * (value as nat) + 255 < pow2(8) * pow2((8 * (j - start)) as nat))
                    by (nonlinear_arith)
                    requires
                        (value as nat) < pow2((8 * (j - start)) as nat),
                        pow2(8) == 256,
                ;
            }
            value = value * 256 + (b as u64);
            j = j + 1;
        }
        proof {
            if take < count {
                lemma_le_val_concat(bytes, (8 * self.index) as nat, 8 * take, (8 * (count as nat
                    - take)) as nat);
                lemma_le_val_zero(bytes, (8 * self.index + 8 * take) as nat, (8 * (count as nat
                    - take)) as nat);
                lemma_pow2_pos(8 * take);
            }
        }
        value
    }
}

} // verus!
