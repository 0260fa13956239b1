//! JPEG byte writer: markers, raw bytes and an MSB-first entropy-coded bit stream with
//! 0xFF byte stuffing.

use vstd::prelude::*;
use crate::deflate::bits::{bit_of, msb_bits, pad_len};
use super::tables::{HuffSpec, huff_wf, huff_code, pow2_16};

verus! {

/// The byte whose bits, most significant first, are the first eight of `b`.
pub open spec fn byte_of(b: Seq<bool>) -> u8 {
    ((if b[0] { 128int } else { 0 }) + (if b[1] { 64int } else { 0 }) + (if b[2] { 32int } else { 0 })
        + (if b[3] { 16int } else { 0 }) + (if b[4] { 8int } else { 0 }) + (if b[5] { 4int } else { 0 })
        + (if b[6] { 2int } else { 0 }) + (if b[7] { 1int } else { 0 })) as u8
}

/// Whole bytes of a bit string, eight bits each, most significant first; a partial last
/// byte is left out.
pub open spec fn pack(bits: Seq<bool>) -> Seq<u8>
    decreases bits.len(),
{
    if bits.len() < 8 {
        Seq::empty()
    } else {
        seq![byte_of(bits.take(8))] + pack(bits.skip(8))
    }
}

/// Entropy-coded bytes as they go to the file: each 0xFF followed by a stuffed 0x00.
pub open spec fn stuff(bytes: Seq<u8>) -> Seq<u8>
    decreases bytes.len(),
{
    if bytes.len() == 0 {
        Seq::empty()
    } else {
        stuff(bytes.drop_last()) + (if bytes.last() == 0xFF { seq![0xFFu8, 0x00u8] } else { seq![bytes.last()] })
    }
}

/// `n` one bits.
pub open spec fn ones(n: nat) -> Seq<bool> {
    Seq::new(n, |i: int| true)
}

/// A bit string padded with one bits to a whole number of bytes.
pub open spec fn pad_ones(bits: Seq<bool>) -> Seq<bool> {
    bits + ones(pad_len(bits.len()))
}

/// The low `n` bits of `amp`.
pub open spec fn amp_bits(amp: u16, n: u8) -> u32 {
    (amp as u32) & (((1u32 << (n as u32)) - 1) as u32)
}

/// A Huffman table as (code counts, symbols).
pub open spec fn table_of(spec: &HuffSpec) -> (Seq<u8>, Seq<u8>) {
    (spec.bits@, spec.vals@)
}

/// Bits of the canonical Huffman code of `symbol` in table `t`.
pub open spec fn huff_bits(t: (Seq<u8>, Seq<u8>), symbol: u8) -> Seq<bool> {
    let (code, len) = huff_code(t.0, t.1, symbol);
    msb_bits(code, len as nat)
}

pub proof fn lemma_stuff_append(a: Seq<u8>, b: Seq<u8>)
    ensures
        stuff(a + b) == stuff(a) + stuff(b),
    decreases b.len(),
{
    if b.len() == 0 {
        assert(a + b =~= a);
        assert(stuff(a) + stuff(b) =~= stuff(a));
    } else {
        lemma_stuff_append(a, b.drop_last());
        assert((a + b).drop_last() =~= a + b.drop_last());
        assert(stuff(a) + stuff(b) =~= stuff(a) + stuff(b.drop_last()) + (if b.last() == 0xFF { seq![0xFFu8, 0x00u8] } else { seq![b.last()] }));
    }
}

pub proof fn lemma_pack_append(a: Seq<bool>, b: Seq<bool>)
    requires
        a.len() % 8 == 0,
    ensures
        pack(a + b) == pack(a) + pack(b),
    decreases a.len(),
{
    if a.len() == 0 {
        assert(a + b =~= b);
        assert(pack(a) + pack(b) =~= pack(b));
    } else {
        lemma_pack_append(a.skip(8), b);
        assert((a + b).take(8) =~= a.take(8));
        assert((a + b).skip(8) =~= a.skip(8) + b);
        assert(pack(a) + pack(b) =~= seq![byte_of(a.take(8))] + (pack(a.skip(8)) + pack(b)));
    }
}

proof fn lemma_byte_bits(v: u32)
    requires
        v < 256,
    ensures
        byte_of(msb_bits(v, 8)) == v,
        pack(msb_bits(v, 8)) == seq![v as u8],
{
    assert(v == ((v >> 7u32) & 1u32) * 128 + ((v >> 6u32) & 1u32) * 64 + ((v >> 5u32) & 1u32) * 32
        + ((v >> 4u32) & 1u32) * 16 + ((v >> 3u32) & 1u32) * 8 + ((v >> 2u32) & 1u32) * 4
        + ((v >> 1u32) & 1u32) * 2 + ((v >> 0u32) & 1u32)
        && ((v >> 7u32) & 1u32) <= 1 && ((v >> 6u32) & 1u32) <= 1 && ((v >> 5u32) & 1u32) <= 1
        && ((v >> 4u32) & 1u32) <= 1 && ((v >> 3u32) & 1u32) <= 1 && ((v >> 2u32) & 1u32) <= 1
        && ((v >> 1u32) & 1u32) <= 1 && ((v >> 0u32) & 1u32) <= 1) by (bit_vector)
        requires
            v < 256,
    ;
    let b = msb_bits(v, 8);
    assert(b[0] == bit_of(v, 7));
    assert(b[1] == bit_of(v, 6));
    assert(b[2] == bit_of(v, 5));
    assert(b[3] == bit_of(v, 4));
    assert(b[4] == bit_of(v, 3));
    assert(b[5] == bit_of(v, 2));
    assert(b[6] == bit_of(v, 1));
    assert(b[7] == bit_of(v, 0));
    assert(b.take(8) =~= b);
    assert(byte_of(b) == v);
    assert(b.skip(8) =~= Seq::<bool>::empty());
    assert(pack(Seq::<bool>::empty()) =~= Seq::<u8>::empty());
    assert(pack(b) =~= seq![byte_of(b.take(8))] + pack(b.skip(8)));
}

proof fn lemma_bv_concat(b: u32, x: u32, n: u32, c: u32, j: u32)
    requires
        c + n <= 31,
        b < (1u32 << c),
        x < (1u32 << n),
        j < c + n,
    ensures
        (((b << n) | x) >> j) & 1u32 == (if j < n { (x >> j) & 1u32 } else { (b >> ((j - n) as u32)) & 1u32 }),
        (b << n) | x < (1u32 << ((c + n) as u32)),
{
    assert((((b << n) | x) >> j) & 1u32 == (if j < n { (x >> j) & 1u32 } else { (b >> ((j - n) as u32)) & 1u32 })
        && (b << n) | x < (1u32 << ((c + n) as u32))) by (bit_vector)
        requires
            c + n <= 31,
            b < (1u32 << c),
            x < (1u32 << n),
            j < c + n,
    ;
}

proof fn lemma_msb_concat(b: u32, x: u32, n: u32, c: u32)
    requires
        c + n <= 31,
        b < (1u32 << c),
        x < (1u32 << n),
    ensures
        msb_bits((b << n) | x, (c + n) as nat) == msb_bits(b, c as nat) + msb_bits(x, n as nat),
        (b << n) | x < (1u32 << ((c + n) as u32)),
{
    let y = (b << n) | x;
    if c + n == 0 {
        assert(b == 0 && x == 0 && y == 0 && 0u32 < (1u32 << 0u32)) by (bit_vector)
            requires
                c == 0,
                n == 0,
                b < (1u32 << c),
                x < (1u32 << n),
                y == (b << n) | x,
        ;
    } else {
        lemma_bv_concat(b, x, n, c, 0);
    }
    assert forall|i: int| 0 <= i < c + n implies #[trigger] msb_bits(y, (c + n) as nat)[i] == (msb_bits(b, c as nat) + msb_bits(x, n as nat))[i] by {
        let j = (c + n - 1 - i) as u32;
        lemma_bv_concat(b, x, n, c, j);
    }
    assert(msb_bits(y, (c + n) as nat) =~= msb_bits(b, c as nat) + msb_bits(x, n as nat));
}

proof fn lemma_bv_split(x: u32, c: u32, j: u32)
    requires
        8 <= c <= 31,
        x < (1u32 << c),
        j < c,
    ensures
        x >> ((c - 8) as u32) < 256,
        x & (((1u32 << ((c - 8) as u32)) - 1) as u32) < (1u32 << ((c - 8) as u32)),
        j >= c - 8 ==> ((x >> ((c - 8) as u32)) >> ((j - (c - 8)) as u32)) & 1u32 == (x >> j) & 1u32,
        j < c - 8 ==> ((x & (((1u32 << ((c - 8) as u32)) - 1) as u32)) >> j) & 1u32 == (x >> j) & 1u32,
{
    assert(x >> ((c - 8) as u32) < 256
        && x & (((1u32 << ((c - 8) as u32)) - 1) as u32) < (1u32 << ((c - 8) as u32))
        && (j >= c - 8 ==> ((x >> ((c - 8) as u32)) >> ((j - (c - 8)) as u32)) & 1u32 == (x >> j) & 1u32)
        && (j < c - 8 ==> ((x & (((1u32 << ((c - 8) as u32)) - 1) as u32)) >> j) & 1u32 == (x >> j) & 1u32)) by (bit_vector)
        requires
            8 <= c <= 31,
            x < (1u32 << c),
            j < c,
    ;
}

proof fn lemma_msb_split(x: u32, c: u32)
    requires
        8 <= c <= 31,
        x < (1u32 << c),
    ensures
        msb_bits(x, c as nat) == msb_bits(x >> ((c - 8) as u32), 8) + msb_bits(x & (((1u32 << ((c - 8) as u32)) - 1) as u32), (c - 8) as nat),
        x >> ((c - 8) as u32) < 256,
        x & (((1u32 << ((c - 8) as u32)) - 1) as u32) < (1u32 << ((c - 8) as u32)),
{
    let hi = x >> ((c - 8) as u32);
    let lo = x & (((1u32 << ((c - 8) as u32)) - 1) as u32);
    lemma_bv_split(x, c, 0);
    assert forall|i: int| 0 <= i < c implies #[trigger] msb_bits(x, c as nat)[i] == (msb_bits(hi, 8) + msb_bits(lo, (c - 8) as nat))[i] by {
        let j = (c - 1 - i) as u32;
        lemma_bv_split(x, c, j);
    }
    assert(msb_bits(x, c as nat) =~= msb_bits(hi, 8) + msb_bits(lo, (c - 8) as nat));
}

/// Writes JPEG segments and the entropy-coded scan.
pub struct JpegWriter {
    buf: Vec<u8>,
    bit_buf: u32,
    bit_count: u32,
    head: Ghost<Seq<u8>>,
    seg: Ghost<Seq<bool>>,
}

impl JpegWriter {
    /// Bytes written before the current run of entropy-coded bits.
    pub closed spec fn head(&self) -> Seq<u8> {
        self.head@
    }

    /// Entropy-coded bits written since the last marker or flush.
    pub closed spec fn bits(&self) -> Seq<bool> {
        self.seg@
    }

    /// What the file holds once the pending bits are flushed.
    pub open spec fn output(&self) -> Seq<u8> {
        self.head() + stuff(pack(pad_ones(self.bits())))
    }

    pub closed spec fn wf(&self) -> bool {
        &&& self.bit_count < 8
        &&& self.bit_buf < (1u32 << self.bit_count)
        &&& self.seg@.len() % 8 == self.bit_count
        &&& self.buf@ == self.head@ + stuff(pack(self.seg@))
        &&& msb_bits(self.bit_buf, self.bit_count as nat) == self.seg@.skip(self.seg@.len() - self.bit_count)
    }

    /// An empty writer.
    pub fn new() -> (w: Self)
        ensures
            w.wf(),
            w.head() == Seq::<u8>::empty(),
            w.bits() == Seq::<bool>::empty(),
    {
        let w = JpegWriter { buf: Vec::new(), bit_buf: 0, bit_count: 0, head: Ghost(Seq::empty()), seg: Ghost(Seq::empty()) };
        assert(0u32 < (1u32 << 0u32)) by (bit_vector);
        proof {
            assert(pack(Seq::<bool>::empty()) =~= Seq::<u8>::empty());
            assert(w.buf@ =~= w.head@ + stuff(pack(w.seg@)));
            assert(msb_bits(0, 0) =~= w.seg@.skip(0));
        }
        w
    }

    /// Append the low `n` bits of `bits`, most significant first.
    fn write_bits(&mut self, bits: u32, n: u8)
        requires
            old(self).wf(),
            n <= 16,
            bits < (1u32 << (n as u32)),
        ensures
            final(self).wf(),
            final(self).head() == old(self).head(),
            final(self).bits() == old(self).bits() + msb_bits(bits, n as nat),
    {
        let ghost total = self.seg@ + msb_bits(bits, n as nat);
        let ghost head = self.head@;
        proof {
            lemma_msb_concat(self.bit_buf, bits, n as u32, self.bit_count);
            assert(total.skip(total.len() - (self.bit_count + n)) =~= self.seg@.skip(self.seg@.len() - self.bit_count) + msb_bits(bits, n as nat));
            assert(total.take(total.len() - (self.bit_count + n)) =~= self.seg@.take(self.seg@.len() - self.bit_count));
            lemma_pack_tail(self.seg@);
        }
        self.bit_buf = (self.bit_buf << (n as u32)) | bits;
        self.bit_count = self.bit_count + n as u32;
        self.seg = Ghost(total);
        while self.bit_count >= 8
            invariant
                self.bit_count <= 23,
                self.bit_buf < (1u32 << self.bit_count),
                self.head@ == head,
                self.seg@ == total,
                (total.len() - self.bit_count) % 8 == 0,
                self.bit_count <= total.len(),
                self.buf@ == head + stuff(pack(total.take(total.len() - self.bit_count))),
                msb_bits(self.bit_buf, self.bit_count as nat) == total.skip(total.len() - self.bit_count),
            decreases self.bit_count,
        {
            let ghost c = self.bit_count;
            let ghost done = total.take(total.len() - c);
            proof {
                lemma_msb_split(self.bit_buf, c);
            }
            self.bit_count = self.bit_count - 8;
            let byte = (self.bit_buf >> self.bit_count) as u8;
            let ghost old_buf = self.buf@;
            self.buf.push(byte);
            if byte == 0xFF {
                self.buf.push(0x00);
            }
            self.bit_buf = self.bit_buf & ((1u32 << self.bit_count) - 1);
            proof {
                let hi = msb_bits(byte as u32, 8);
                let win = total.skip(total.len() - c);
                assert(win == hi + msb_bits(self.bit_buf, self.bit_count as nat));
                assert(msb_bits(self.bit_buf, self.bit_count as nat) =~= win.skip(8));
                assert(win.skip(8) =~= total.skip(total.len() - self.bit_count));
                assert(total.take(total.len() - self.bit_count) =~= done + hi) by {
                    assert forall|i: int| 0 <= i < 8 implies total[total.len() - c + i] == hi[i] by {
                        assert(total.skip(total.len() - c)[i] == total[total.len() - c + i]);
                    }
                }
                lemma_byte_bits(byte as u32);
                lemma_pack_append(done, hi);
                lemma_stuff_append(pack(done), seq![byte]);
                assert(stuff(Seq::<u8>::empty()) =~= Seq::<u8>::empty());
                assert(stuff(seq![byte]) =~= (if byte == 0xFF { seq![0xFFu8, 0x00u8] } else { seq![byte] })) by {
                    assert(seq![byte].drop_last() =~= Seq::<u8>::empty());
                }
                assert(self.buf@ =~= old_buf + stuff(seq![byte]));
            }
        }
        proof {
            assert(self.buf@ == self.head@ + stuff(pack(self.seg@))) by {
                lemma_pack_tail(total);
            }
        }
    }

    /// Emit a marker (`0xFF`, `code`), flushing pending bits first.
    pub fn marker(&mut self, code: u8)
        requires
            old(self).wf(),
        ensures
            final(self).wf(),
            final(self).head() == old(self).output() + seq![0xFFu8, code],
            final(self).bits() == Seq::<bool>::empty(),
    {
        self.flush_bits();
        let ghost h = self.head@;
        self.buf.push(0xFF);
        self.buf.push(code);
        self.head = Ghost(h + seq![0xFFu8, code]);
        proof {
            assert(pack(Seq::<bool>::empty()) =~= Seq::<u8>::empty());
            assert(self.buf@ =~= self.head@ + stuff(pack(self.seg@)));
        }
    }

    /// Emit one raw byte (only between whole bytes of the bit stream).
    pub fn u8(&mut self, v: u8)
        requires
            old(self).wf(),
            old(self).bits().len() % 8 == 0,
        ensures
            final(self).wf(),
            final(self).head() == old(self).output() + seq![v],
            final(self).bits() == Seq::<bool>::empty(),
    {
        proof {
            self.lemma_output_whole();
        }
        self.buf.push(v);
        self.head = Ghost(self.head@ + stuff(pack(self.seg@)) + seq![v]);
        self.seg = Ghost(Seq::empty());
        proof {
            assert(pack(Seq::<bool>::empty()) =~= Seq::<u8>::empty());
            assert(self.buf@ =~= self.head@ + stuff(pack(self.seg@)));
            assert(msb_bits(self.bit_buf, 0) =~= self.seg@.skip(0));
        }
    }

    /// Emit a big-endian 16-bit value (only between whole bytes of the bit stream).
    pub fn u16(&mut self, v: u16)
        requires
            old(self).wf(),
            old(self).bits().len() % 8 == 0,
        ensures
            final(self).wf(),
            final(self).head() == old(self).output() + seq![(v / 256) as u8, (v % 256) as u8],
            final(self).bits() == Seq::<bool>::empty(),
    {
        let ghost before = self.output();
        self.u8((v / 256) as u8);
        self.u8((v % 256) as u8);
        proof {
            assert(pad_ones(Seq::<bool>::empty()) =~= Seq::<bool>::empty());
            assert(pack(Seq::<bool>::empty()) =~= Seq::<u8>::empty());
            assert(stuff(Seq::<u8>::empty()) =~= Seq::<u8>::empty());
            assert(self.head() =~= before + seq![(v / 256) as u8, (v % 256) as u8]);
        }
    }

    /// Emit raw bytes (only between whole bytes of the bit stream).
    pub fn bytes(&mut self, b: &[u8])
        requires
            old(self).wf(),
            old(self).bits().len() % 8 == 0,
        ensures
            final(self).wf(),
            final(self).head() == old(self).output() + b@,
            final(self).bits() == Seq::<bool>::empty(),
    {
        let ghost before = self.output();
        proof {
            self.lemma_output_whole();
            assert(pad_ones(Seq::<bool>::empty()) =~= Seq::<bool>::empty());
            assert(pack(Seq::<bool>::empty()) =~= Seq::<u8>::empty());
        }
        self.head = Ghost(self.head@ + stuff(pack(self.seg@)));
        self.seg = Ghost(Seq::empty());
        proof {
            assert(self.buf@ =~= self.head@ + stuff(pack(self.seg@)));
            assert(msb_bits(self.bit_buf, 0) =~= self.seg@.skip(0));
        }
        let mut i: usize = 0;
        while i < b.len()
            invariant
                self.wf(),
                self.bits() == Seq::<bool>::empty(),
                i <= b.len(),
                self.head() == before + b@.take(i as int),
            decreases b.len() - i,
        {
            self.u8(b[i]);
            i = i + 1;
            proof {
                assert(self.head() =~= before + b@.take(i as int));
            }
        }
        proof {
            assert(b@.take(i as int) =~= b@);
        }
    }

    /// Emit the canonical code of `symbol`.
    pub fn huffman(&mut self, spec: &HuffSpec, symbol: u8)
        requires
            old(self).wf(),
            huff_wf(spec.bits@, spec.vals@),
        ensures
            final(self).wf(),
            final(self).head() == old(self).head(),
            final(self).bits() == old(self).bits() + huff_bits(table_of(spec), symbol),
    {
        let (code, len) = spec.code(symbol);
        proof {
            lemma_pow2_shl(len as u32);
        }
        self.write_bits(code, len);
    }

    /// Emit the low `bits` bits of `amp`.
    pub fn write_amp(&mut self, amp: u16, bits: u8)
        requires
            old(self).wf(),
            bits <= 16,
        ensures
            final(self).wf(),
            final(self).head() == old(self).head(),
            final(self).bits() == old(self).bits() + msb_bits(amp_bits(amp, bits), bits as nat),
    {
        proof {
            let b = bits as u32;
            let a = amp as u32;
            assert((1u32 << b) >= 1 && a & (((1u32 << b) - 1) as u32) < (1u32 << b)) by (bit_vector)
                requires
                    b <= 16,
            ;
        }
        let v = (amp as u32) & ((1u32 << (bits as u32)) - 1);
        self.write_bits(v, bits);
    }

    /// Pad the bit stream with one bits to a whole byte and close it.
    pub fn flush_bits(&mut self)
        requires
            old(self).wf(),
        ensures
            final(self).wf(),
            final(self).head() == old(self).output(),
            final(self).bits() == Seq::<bool>::empty(),
    {
        let ghost seg0 = self.seg@;
        if self.bit_count > 0 {
            let pad = 8 - self.bit_count as u8;
            proof {
                let p = pad as u32;
                assert((((1u32 << p) - 1) as u32) < (1u32 << p)) by (bit_vector)
                    requires
                        1 <= p <= 8,
                ;
                lemma_ones_bits(p);
            }
            self.write_bits((1u32 << (pad as u32)) - 1, pad);
            proof {
                assert(pad_len(seg0.len()) == pad);
                assert(self.seg@ =~= pad_ones(seg0));
            }
        } else {
            proof {
                assert(pad_ones(seg0) =~= seg0);
            }
        }
        let ghost whole = self.seg@;
        proof {
            self.lemma_output_whole();
        }
        self.bit_buf = 0;
        self.bit_count = 0;
        self.head = Ghost(self.head@ + stuff(pack(self.seg@)));
        self.seg = Ghost(Seq::empty());
        assert(0u32 < (1u32 << 0u32)) by (bit_vector);
        proof {
            assert(pack(Seq::<bool>::empty()) =~= Seq::<u8>::empty());
            assert(self.buf@ =~= self.head@ + stuff(pack(self.seg@)));
            assert(msb_bits(0, 0) =~= self.seg@.skip(0));
        }
    }

    /// The bytes written so far; bits short of a whole byte are not included.
    pub fn into_inner(self) -> (out: Vec<u8>)
        requires
            self.wf(),
        ensures
            out@ == self.head() + stuff(pack(self.bits())),
    {
        self.buf
    }

    /// With no pending bits, the output is what was written.
    pub proof fn lemma_flushed(&self)
        requires
            self.bits() == Seq::<bool>::empty(),
        ensures
            self.output() == self.head(),
    {
        assert(pad_ones(Seq::<bool>::empty()) =~= Seq::<bool>::empty());
        assert(pack(Seq::<bool>::empty()) =~= Seq::<u8>::empty());
        assert(stuff(Seq::<u8>::empty()) =~= Seq::<u8>::empty());
        assert(self.output() =~= self.head());
    }

    proof fn lemma_output_whole(&self)
        requires
            self.wf(),
            self.bits().len() % 8 == 0,
        ensures
            self.bit_count == 0,
            pad_ones(self.bits()) == self.bits(),
            self.buf@ == self.output(),
    {
        assert(pad_ones(self.seg@) =~= self.seg@);
    }
}

proof fn lemma_pack_tail(s: Seq<bool>)
    ensures
        pack(s) == pack(s.take(s.len() - s.len() % 8)),
    decreases s.len(),
{
    if s.len() >= 8 {
        lemma_pack_tail(s.skip(8));
        assert(s.take(s.len() - s.len() % 8).take(8) =~= s.take(8));
        assert(s.take(s.len() - s.len() % 8).skip(8) =~= s.skip(8).take(s.skip(8).len() - s.skip(8).len() % 8));
    } else {
        assert(s.take(s.len() - s.len() % 8) =~= Seq::<bool>::empty());
    }
}

proof fn lemma_pow2_shl(n: u32)
    requires
        n <= 16,
    ensures
        pow2_16(n as int) == (1u32 << n),
    decreases n,
{
    if n == 0 {
        assert(1u32 << 0u32 == 1u32) by (bit_vector);
    } else {
        lemma_pow2_shl((n - 1) as u32);
        assert((1u32 << n) == 2 * (1u32 << ((n - 1) as u32))) by (bit_vector)
            requires
                1 <= n <= 16,
        ;
    }
}

proof fn lemma_ones_bits(p: u32)
    requires
        1 <= p <= 8,
    ensures
        msb_bits(((1u32 << p) - 1) as u32, p as nat) == ones(p as nat),
{
    assert forall|i: int| 0 <= i < p implies #[trigger] msb_bits(((1u32 << p) - 1) as u32, p as nat)[i] == ones(p as nat)[i] by {
        let j = (p - 1 - i) as u32;
        assert(((((1u32 << p) - 1) as u32) >> j) & 1u32 == 1u32) by (bit_vector)
            requires
                1 <= p <= 8,
                j < p,
        ;
    }
    assert(msb_bits(((1u32 << p) - 1) as u32, p as nat) =~= ones(p as nat));
}

} // verus!
