use vstd::prelude::*;

verus! {

/// Bit `i` of `x`.
pub open spec fn bit_of(x: u32, i: int) -> bool {
    ((x >> (i as u32)) & 1u32) == 1u32
}

/// The low `n` bits of `x`, least significant first.
pub open spec fn low_bits(x: u32, n: nat) -> Seq<bool> {
    Seq::new(n, |i: int| bit_of(x, i))
}

/// The low `n` bits of `x`, most significant first (how Huffman codes are listed).
pub open spec fn msb_bits(x: u32, n: nat) -> Seq<bool> {
    Seq::new(n, |i: int| bit_of(x, n - 1 - i))
}

/// `n` zero bits.
pub open spec fn zero_bits(n: nat) -> Seq<bool> {
    Seq::new(n, |i: int| false)
}

/// The bits of a byte string, each byte least significant bit first.
pub open spec fn bytes_bits(s: Seq<u8>) -> Seq<bool>
    decreases s.len(),
{
    if s.len() == 0 {
        Seq::empty()
    } else {
        bytes_bits(s.drop_last()) + low_bits(s.last() as u32, 8)
    }
}

/// Number of zero bits that pad `count` bits up to a byte boundary.
pub open spec fn pad_len(count: nat) -> nat {
    if count % 8 == 0 {
        0
    } else {
        (8 - count % 8) as nat
    }
}

pub proof fn lemma_bytes_bits_push(s: Seq<u8>, b: u8)
    ensures
        bytes_bits(s.push(b)) == bytes_bits(s) + low_bits(b as u32, 8),
{
    assert(s.push(b).drop_last() =~= s);
}

pub proof fn lemma_bytes_bits_len(s: Seq<u8>)
    ensures
        bytes_bits(s).len() == 8 * s.len(),
    decreases s.len(),
{
    if s.len() > 0 {
        lemma_bytes_bits_len(s.drop_last());
    }
}

pub proof fn lemma_bytes_bits_append(a: Seq<u8>, b: Seq<u8>)
    ensures
        bytes_bits(a + b) == bytes_bits(a) + bytes_bits(b),
    decreases b.len(),
{
    if b.len() == 0 {
        assert(a + b =~= a);
        assert(bytes_bits(a) + bytes_bits(b) =~= bytes_bits(a));
    } else {
        assert((a + b).drop_last() =~= a + b.drop_last());
        lemma_bytes_bits_append(a, b.drop_last());
        assert(bytes_bits(a + b) =~= bytes_bits(a) + bytes_bits(b));
    }
}

/// Splicing `b` (of width `n`) above the `c` low bits of `x`.
proof fn lemma_or_shift(x: u32, b: u32, c: u32, n: u32)
    requires
        c < 8,
        n <= 16,
        x < (1u32 << c),
        b < (1u32 << n),
    ensures
        (x | (b << c)) < (1u32 << (c + n)),
        low_bits(x | (b << c), (c + n) as nat) =~= low_bits(x, c as nat) + low_bits(b, n as nat),
{
    let y = x | (b << c);
    assert(y < (1u32 << (c + n))) by (bit_vector)
        requires
            c < 8,
            n <= 16,
            x < (1u32 << c),
            b < (1u32 << n),
            y == x | (b << c),
    ;
    assert forall|i: int| 0 <= i < c + n implies #[trigger] bit_of(y, i) == (if i < c {
        bit_of(x, i)
    } else {
        bit_of(b, i - c)
    }) by {
        let k = i as u32;
        if i < c {
            assert(((y >> k) & 1u32) == ((x >> k) & 1u32)) by (bit_vector)
                requires
                    c < 8,
                    n <= 16,
                    x < (1u32 << c),
                    y == x | (b << c),
                    k < c,
            ;
        } else {
            let j = (i - c) as u32;
            assert(((y >> k) & 1u32) == ((b >> j) & 1u32)) by (bit_vector)
                requires
                    c < 8,
                    n <= 16,
                    x < (1u32 << c),
                    b < (1u32 << n),
                    y == x | (b << c),
                    k == j + c,
                    k < c + n,
            ;
        }
    }
}

/// Taking the low byte off a bit buffer.
proof fn lemma_take_byte(y: u32, k: u32)
    requires
        8 <= k <= 24,
        y < (1u32 << k),
    ensures
        (y >> 8u32) < (1u32 << (k - 8) as u32),
        low_bits(y, k as nat) =~= low_bits((y as u8) as u32, 8) + low_bits(y >> 8u32, (k - 8) as nat),
{
    let z = y >> 8u32;
    assert(z < (1u32 << (k - 8) as u32)) by (bit_vector)
        requires
            8 <= k <= 24,
            y < (1u32 << k),
            z == y >> 8u32,
    ;
    assert forall|i: int| 0 <= i < k implies #[trigger] bit_of(y, i) == (if i < 8 {
        bit_of((y as u8) as u32, i)
    } else {
        bit_of(z, i - 8)
    }) by {
        let m = i as u32;
        if i < 8 {
            let t = (y as u8) as u32;
            assert(((y >> m) & 1u32) == ((t >> m) & 1u32)) by (bit_vector)
                requires
                    m < 8,
                    t == (y as u8) as u32,
            ;
        } else {
            let j = (i - 8) as u32;
            assert(((y >> m) & 1u32) == ((z >> j) & 1u32)) by (bit_vector)
                requires
                    z == y >> 8u32,
                    m == j + 8,
                    m < 32,
            ;
        }
    }
}

/// The partial byte with `c` live bits, padded with zero bits.
proof fn lemma_partial_byte(x: u32, c: u32)
    requires
        c < 8,
        x < (1u32 << c),
    ensures
        low_bits((x as u8) as u32, 8) =~= low_bits(x, c as nat) + zero_bits((8 - c) as nat),
{
    assert forall|i: int| 0 <= i < 8 implies #[trigger] bit_of((x as u8) as u32, i) == (if i < c {
        bit_of(x, i)
    } else {
        false
    }) by {
        let m = i as u32;
        let t = (x as u8) as u32;
        if i < c {
            assert(((t >> m) & 1u32) == ((x >> m) & 1u32)) by (bit_vector)
                requires
                    m < 8,
                    t == (x as u8) as u32,
            ;
        } else {
            assert(((t >> m) & 1u32) == 0u32) by (bit_vector)
                requires
                    c < 8,
                    c <= m < 8,
                    x < (1u32 << c),
                    t == (x as u8) as u32,
            ;
        }
    }
}

/// Reversal of the low `i` bits of `v`, built one bit at a time from the lowest up.
pub open spec fn rev_acc(v: u32, i: nat) -> u32
    decreases i,
{
    if i == 0 {
        0
    } else {
        ((rev_acc(v, (i - 1) as nat) << 1u32) | ((v >> ((i - 1) as u32)) & 1u32)) as u32
    }
}

pub proof fn lemma_rev_acc(v: u32, n: nat)
    requires
        n <= 16,
    ensures
        rev_acc(v, n) < (1u32 << (n as u32)),
        low_bits(rev_acc(v, n), n) =~= msb_bits(v, n),
    decreases n,
{
    if n == 0 {
        assert(0u32 < (1u32 << 0u32)) by (bit_vector);
        assert(low_bits(rev_acc(v, n), n) =~= msb_bits(v, n));
    } else {
        let m = (n - 1) as nat;
        lemma_rev_acc(v, m);
        let r = rev_acc(v, m);
        let b = (v >> (m as u32)) & 1u32;
        let y = rev_acc(v, n);
        let mm = m as u32;
        let nn = n as u32;
        assert(y == (r << 1u32) | b);
        assert(y < (1u32 << nn)) by (bit_vector)
            requires
                r < (1u32 << mm),
                mm < 16,
                nn == mm + 1,
                b == (v >> mm) & 1u32,
                y == (r << 1u32) | b,
        ;
        assert forall|i: int| 0 <= i < n implies #[trigger] bit_of(y, i) == bit_of(v, n - 1 - i) by {
            let k = i as u32;
            if i == 0 {
                assert(((y >> k) & 1u32) == ((v >> mm) & 1u32)) by (bit_vector)
                    requires
                        k == 0,
                        b == (v >> mm) & 1u32,
                        y == (r << 1u32) | b,
                ;
            } else {
                let j = (i - 1) as u32;
                assert(low_bits(r, m)[i - 1] == msb_bits(v, m)[i - 1]);
                assert(bit_of(r, i - 1) == bit_of(v, m - 1 - (i - 1)));
                assert(((y >> k) & 1u32) == ((r >> j) & 1u32)) by (bit_vector)
                    requires
                        k == j + 1,
                        k < 16,
                        b == (v >> mm) & 1u32,
                        y == (r << 1u32) | b,
                ;
            }
        }
    }
}

/// One more step of shifting right.
pub proof fn lemma_shr_step(v: u32, x: u32, i: u32)
    requires
        x == v >> i,
        i < 31,
    ensures
        x >> 1u32 == v >> ((i + 1) as u32),
{
    assert(x >> 1u32 == v >> ((i + 1) as u32)) by (bit_vector)
        requires
            x == v >> i,
            i < 31,
    ;
}

/// Shifting one left by `e` is `2^e`.
pub proof fn lemma_one_shl(e: u32)
    requires
        e <= 16,
    ensures
        (1u32 << e) as int == vstd::arithmetic::power2::pow2(e as nat),
{
    vstd::arithmetic::power2::lemma2_to64();
    vstd::bits::lemma_u32_shl_is_mul(1, e);
}

/// Reverse the low `n` bits of `v`.
pub fn reverse_bits(v: u32, n: u32) -> (r: u32)
    requires
        n <= 16,
    ensures
        r < (1u32 << n),
        low_bits(r, n as nat) == msb_bits(v, n as nat),
{
    let mut v_cur = v;
    let mut r = 0u32;
    assert(v == v >> 0u32) by (bit_vector);
    for i in 0..n
        invariant
            n <= 16,
            r == rev_acc(v, i as nat),
            v_cur == v >> i,
    {
        r = (r << 1) | (v_cur & 1);
        proof {
            lemma_shr_step(v, v_cur, i);
        }
        v_cur = v_cur >> 1;
    }
    proof {
        lemma_rev_acc(v, n as nat);
    }
    r
}

/// The bits a run of `write_bits` calls appends: for each `(value, n)`, the low `n` bits of
/// the value, least significant first, one call after another.
pub open spec fn writes_bits(ws: Seq<(u32, u32)>) -> Seq<bool>
    decreases ws.len(),
{
    if ws.len() == 0 {
        Seq::empty()
    } else {
        writes_bits(ws.drop_last()) + low_bits(ws.last().0, ws.last().1 as nat)
    }
}

/// Number of bits a run of writes appends.
pub open spec fn writes_len(ws: Seq<(u32, u32)>) -> nat
    decreases ws.len(),
{
    if ws.len() == 0 {
        0
    } else {
        writes_len(ws.drop_last()) + ws.last().1 as nat
    }
}

proof fn lemma_writes_len(ws: Seq<(u32, u32)>)
    ensures
        writes_bits(ws).len() == writes_len(ws),
    decreases ws.len(),
{
    if ws.len() > 0 {
        lemma_writes_len(ws.drop_last());
    }
}

proof fn lemma_bytes_bits_index(s: Seq<u8>, t: int)
    requires
        0 <= t < 8 * s.len(),
    ensures
        bytes_bits(s).len() == 8 * s.len(),
        bytes_bits(s)[t] == bit_of(s[t / 8] as u32, t % 8),
    decreases s.len(),
{
    lemma_bytes_bits_len(s);
    let p = s.drop_last();
    lemma_bytes_bits_len(p);
    if t < 8 * p.len() {
        lemma_bytes_bits_index(p, t);
        assert(bytes_bits(s)[t] == bytes_bits(p)[t]);
    } else {
        assert(t / 8 == s.len() - 1);
        assert(bytes_bits(s)[t] == low_bits(s.last() as u32, 8)[t - 8 * p.len()]);
    }
}

/// What `finish` hands out after `BitWriter::new` and a run of `write_bits` calls: when the
/// bytes' bits are the writes' bits followed by the padding zeros (as `write_bits` and
/// `finish` ensure), there are (N + 7) / 8 bytes for N bits written, and bit `t % 8` of byte
/// `t / 8` is bit `t` of the run, or 0 past its end.
pub proof fn lemma_finish_writes(out: Seq<u8>, ws: Seq<(u32, u32)>)
    requires
        bytes_bits(out) == writes_bits(ws) + zero_bits(pad_len(writes_len(ws))),
    ensures
        out.len() == (writes_len(ws) + 7) / 8,
        forall|t: int| 0 <= t < 8 * out.len() ==> bit_of(#[trigger] out[t / 8] as u32, t % 8)
            == (t < writes_len(ws) && writes_bits(ws)[t]),
{
    lemma_writes_len(ws);
    lemma_bytes_bits_len(out);
    let n = writes_len(ws);
    assert(8 * out.len() == n + pad_len(n));
    assert forall|t: int| 0 <= t < 8 * out.len() implies bit_of(#[trigger] out[t / 8] as u32, t % 8)
        == (t < writes_len(ws) && writes_bits(ws)[t]) by {
        lemma_bytes_bits_index(out, t);
    }
}

/// LSB-first bit writer used by DEFLATE.
pub struct BitWriter {
    pub buf: Vec<u8>,
    bit_buf: u32,
    bit_count: u32,
}

impl BitWriter {
    /// Fewer than eight bits wait in the buffer, and nothing above them.
    pub closed spec fn wf(&self) -> bool {
        &&& self.bit_count < 8
        &&& self.bit_buf < (1u32 << self.bit_count)
    }

    /// Every bit written so far, in stream order.
    pub closed spec fn bits(&self) -> Seq<bool> {
        bytes_bits(self.buf@) + low_bits(self.bit_buf, self.bit_count as nat)
    }

    /// The bytes completed so far.
    pub closed spec fn bytes(&self) -> Seq<u8> {
        self.buf@
    }

    /// Number of bits waiting for a full byte.
    pub closed spec fn pending(&self) -> nat {
        self.bit_count as nat
    }

    pub proof fn lemma_bits_len(&self)
        ensures
            self.bits().len() == 8 * self.bytes().len() + self.pending(),
    {
        lemma_bytes_bits_len(self.buf@);
    }

    pub fn new() -> (w: Self)
        ensures
            w.wf(),
            w.bits() == Seq::<bool>::empty(),
            w.bytes() == Seq::<u8>::empty(),
            w.pending() == 0,
    {
        let w = BitWriter { buf: Vec::new(), bit_buf: 0, bit_count: 0 };
        assert(0u32 < (1u32 << 0u32)) by (bit_vector);
        assert(w.bits() =~= Seq::<bool>::empty());
        w
    }

    /// Append the low `n` bits of `bits`, least significant first.
    pub fn write_bits(&mut self, bits: u32, n: u32)
        requires
            old(self).wf(),
            n <= 16,
            bits < (1u32 << n),
        ensures
            final(self).wf(),
            final(self).bits() == old(self).bits() + low_bits(bits, n as nat),
            final(self).pending() == (old(self).pending() + n) % 8,
            final(self).bytes().len() == old(self).bytes().len() + (old(self).pending() + n) / 8,
    {
        proof {
            lemma_or_shift(self.bit_buf, bits, self.bit_count, n);
            assert(bytes_bits(self.buf@) + low_bits(self.bit_buf, self.bit_count as nat) + low_bits(
                bits,
                n as nat,
            ) =~= bytes_bits(self.buf@) + (low_bits(self.bit_buf, self.bit_count as nat)
                + low_bits(bits, n as nat)));
        }
        self.bit_buf = self.bit_buf | (bits << self.bit_count);
        self.bit_count = self.bit_count + n;
        let ghost target = old(self).bits() + low_bits(bits, n as nat);
        let ghost len0 = old(self).buf@.len();
        let ghost total = old(self).bit_count + n;
        while self.bit_count >= 8
            invariant
                self.bit_count <= 24,
                self.bit_buf < (1u32 << self.bit_count),
                bytes_bits(self.buf@) + low_bits(self.bit_buf, self.bit_count as nat) == target,
                self.buf@.len() * 8 + self.bit_count == len0 * 8 + total,
            decreases self.bit_count,
        {
            proof {
                lemma_take_byte(self.bit_buf, self.bit_count);
                lemma_bytes_bits_push(self.buf@, self.bit_buf as u8);
                assert(bytes_bits(self.buf@) + low_bits(self.bit_buf, self.bit_count as nat)
                    =~= bytes_bits(self.buf@.push(self.bit_buf as u8)) + low_bits(
                    self.bit_buf >> 8u32,
                    (self.bit_count - 8) as nat,
                ));
            }
            self.buf.push(self.bit_buf as u8);
            self.bit_buf = self.bit_buf >> 8;
            self.bit_count = self.bit_count - 8;
        }
    }

    /// Append a Huffman code of `n` bits; codes are sent most significant bit first.
    pub fn write_huffman(&mut self, code: u32, n: u32)
        requires
            old(self).wf(),
            n <= 16,
        ensures
            final(self).wf(),
            final(self).bits() == old(self).bits() + msb_bits(code, n as nat),
            final(self).pending() == (old(self).pending() + n) % 8,
            final(self).bytes().len() == old(self).bytes().len() + (old(self).pending() + n) / 8,
    {
        let r = reverse_bits(code, n);
        self.write_bits(r, n);
    }

    /// Pad with zero bits to the next byte boundary.
    pub fn align_byte(&mut self)
        requires
            old(self).wf(),
        ensures
            final(self).wf(),
            final(self).pending() == 0,
            final(self).bits() == old(self).bits() + zero_bits(pad_len(old(self).pending())),
            final(self).bytes().len() == old(self).bytes().len() + (if old(self).pending() > 0 {
                1int
            } else {
                0int
            }),
    {
        if self.bit_count > 0 {
            proof {
                lemma_partial_byte(self.bit_buf, self.bit_count);
                lemma_bytes_bits_push(self.buf@, self.bit_buf as u8);
                assert(bytes_bits(self.buf@.push(self.bit_buf as u8)) + low_bits(0u32, 0) =~= old(
                    self,
                ).bits() + zero_bits(pad_len(old(self).pending())));
            }
            self.buf.push(self.bit_buf as u8);
            self.bit_buf = 0;
            self.bit_count = 0;
            assert(0u32 < (1u32 << 0u32)) by (bit_vector);
        } else {
            assert(old(self).bits() + zero_bits(0) =~= old(self).bits());
            assert(self.bits() =~= old(self).bits());
        }
    }

    /// Pad to a byte boundary and hand out the bytes.
    pub fn finish(self) -> (out: Vec<u8>)
        requires
            self.wf(),
        ensures
            bytes_bits(out@) == self.bits() + zero_bits(pad_len(self.pending())),
            out@.len() == self.bytes().len() + (if self.pending() > 0 {
                1int
            } else {
                0int
            }),
    {
        let mut w = self;
        w.align_byte();
        proof {
            assert(w.bits() =~= bytes_bits(w.buf@));
        }
        w.buf
    }
}

} // verus!
