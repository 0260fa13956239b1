//! Baseline (SOF0) JPEG assembly: headers, quantisation and Huffman coding of DCT
//! blocks, and the integer sampling steps around the transform.

use vstd::prelude::*;
use crate::deflate::bits::msb_bits;
use super::tables::{HuffSpec, huff_wf, ZIGZAG, LUMA_QUANT, CHROMA_QUANT};
use super::writer::{JpegWriter, huff_bits, amp_bits, stuff, pack, pad_ones, table_of};
use super::quant::{scale_table, scaled_entry, clamp_quality};

verus! {

/// Chroma subsampling of the scan.
#[derive(Clone, Copy, Debug, PartialEq, Eq, Structural)]
pub enum Chroma {
    /// Full chroma: better for UI and text.
    Sample444,
    /// 4:2:0: smaller; fine for photos and slides.
    Sample420,
}

/// Number of bits in the binary form of `a`.
pub open spec fn bit_len(a: nat) -> nat
    decreases a,
{
    if a == 0 { 0 } else { 1 + bit_len(a / 2) }
}

/// `2^n`.
pub open spec fn pow2(n: nat) -> nat
    decreases n,
{
    if n == 0 { 1 } else { 2 * pow2((n - 1) as nat) }
}

/// Magnitude category (bit count) of a coefficient.
pub open spec fn category(v: int) -> nat {
    bit_len(if v < 0 { (-v) as nat } else { v as nat })
}

/// Amplitude bits of a coefficient: the value itself when positive, its ones' complement
/// within the category when negative.
pub open spec fn amplitude(v: int) -> int {
    if v > 0 { v } else if v == 0 { 0 } else { pow2(category(v)) - 1 + v }
}

/// Division rounded to nearest, halves away from zero.
pub open spec fn div_round_spec(v: int, q: int) -> int {
    if v >= 0 { (v + q / 2) / q } else { -((-v + q / 2) / q) }
}

/// Coefficient `i` of a block after quantisation.
pub open spec fn quantized(coeff: Seq<i32>, quant: Seq<u8>, i: int) -> int {
    div_round_spec(coeff[i] as int, if quant[i] < 1 { 1 } else { quant[i] as int })
}

/// Bits of a coefficient's amplitude.
pub open spec fn amp_seq(v: int) -> Seq<bool> {
    msb_bits(amp_bits(amplitude(v) as u16, category(v) as u8), category(v))
}

/// DC difference: category code, then amplitude bits when the category is not 0.
pub open spec fn dc_bits(dc: (Seq<u8>, Seq<u8>), diff: int) -> Seq<bool> {
    huff_bits(dc, category(diff) as u8) + (if category(diff) > 0 { amp_seq(diff) } else { Seq::empty() })
}

/// AC coefficients from zigzag position `pos` on, with `run` zeros pending: a ZRL code
/// after every sixteen zeros, (run, size) codes for non-zero values, and EOB when zeros
/// remain at the end.
pub open spec fn ac_bits(ac: (Seq<u8>, Seq<u8>), coeff: Seq<i32>, quant: Seq<u8>, pos: int, run: nat) -> Seq<bool>
    decreases 64 - pos,
{
    if pos >= 64 {
        if run > 0 { huff_bits(ac, 0x00) } else { Seq::empty() }
    } else {
        let v = quantized(coeff, quant, ZIGZAG@[pos] as int);
        if v == 0 {
            if run + 1 == 16 {
                huff_bits(ac, 0xF0) + ac_bits(ac, coeff, quant, pos + 1, 0)
            } else {
                ac_bits(ac, coeff, quant, pos + 1, run + 1)
            }
        } else {
            huff_bits(ac, (run * 16 + category(v)) as u8) + amp_seq(v) + ac_bits(ac, coeff, quant, pos + 1, 0)
        }
    }
}

/// Entropy-coded bits of one block given the previous DC of its component.
pub open spec fn block_bits(coeff: Seq<i32>, quant: Seq<u8>, prev_dc: int, dc: (Seq<u8>, Seq<u8>), ac: (Seq<u8>, Seq<u8>)) -> Seq<bool> {
    dc_bits(dc, quantized(coeff, quant, 0) - prev_dc) + ac_bits(ac, coeff, quant, 1, 0)
}

/// Coefficients small enough for baseline coding.
pub open spec fn coeff_ok(coeff: Seq<i32>) -> bool {
    coeff.len() == 64 && forall|i: int| 0 <= i < 64 ==> -16383 <= #[trigger] coeff[i] <= 16383
}

fn bit_length(a: u32) -> (n: u8)
    requires
        a < 65536,
    ensures
        n == bit_len(a as nat),
        n <= 16,
        a < pow2(n as nat),
{
    let mut x = a;
    let mut n: u8 = 0;
    proof {
        lemma_bit_len_bound(a as nat);
        assert(pow2(0) == 1);
    }
    while x > 0
        invariant
            n + bit_len(x as nat) == bit_len(a as nat),
            bit_len(a as nat) <= 16,
            a < (x as nat + 1) * pow2(n as nat),
            x <= a,
        decreases x,
    {
        proof {
            let xx = x as nat;
            let p = pow2(n as nat);
            assert((xx + 1) * p <= (xx / 2 + 1) * (2 * p)) by (nonlinear_arith)
                requires
                    p >= 0,
            ;
        }
        x = x / 2;
        n = n + 1;
    }
    proof {
        assert(x == 0);
        assert((0nat + 1) * pow2(n as nat) == pow2(n as nat)) by (nonlinear_arith);
    }
    n
}

proof fn lemma_pow2_pos(n: nat)
    ensures
        pow2(n) >= 1,
    decreases n,
{
    if n > 0 {
        lemma_pow2_pos((n - 1) as nat);
    }
}

proof fn lemma_bit_len_bound(a: nat)
    requires
        a < 65536,
    ensures
        bit_len(a) <= 16,
        a > 0 ==> bit_len(a) >= 1,
{
    lemma_bit_len_mono(a, 65535);
    reveal_with_fuel(bit_len, 18);
    assert(bit_len(65535) == 16);
}

proof fn lemma_bit_len_mono(a: nat, b: nat)
    requires
        a <= b,
    ensures
        bit_len(a) <= bit_len(b),
    decreases b,
{
    if a > 0 {
        lemma_bit_len_mono(a / 2, b / 2);
    }
}

/// Magnitude category and amplitude bits of a coefficient.
pub fn coefficient_category(v: i32) -> (r: (u8, u16))
    requires
        -32768 < v < 32768,
    ensures
        r.0 == category(v as int),
        r.1 == amplitude(v as int),
        r.0 <= 16,
{
    if v == 0 {
        return (0, 0);
    }
    let abs: u32 = if v < 0 { (-v) as u32 } else { v as u32 };
    let bits = bit_length(abs);
    let amp: u16 = if v > 0 {
        abs as u16
    } else {
        proof {
            lemma_bit_len_mono(abs as nat, 32767);
            reveal_with_fuel(bit_len, 17);
            assert(bit_len(32767) == 15);
            lemma_pow2_small(bits as nat);
        }
        let p: u16 = pow2_u16(bits);
        (p - 1) - abs as u16
    };
    (bits, amp)
}

proof fn lemma_pow2_small(n: nat)
    requires
        n <= 15,
    ensures
        1 <= pow2(n) <= 32768,
    decreases 15 - n,
{
    if n < 15 {
        lemma_pow2_small(n + 1);
    } else {
        reveal_with_fuel(pow2, 16);
    }
}

fn pow2_u16(n: u8) -> (p: u16)
    requires
        n <= 15,
    ensures
        p == pow2(n as nat),
{
    let mut p: u16 = 1;
    let mut i: u8 = 0;
    while i < n
        invariant
            i <= n <= 15,
            p == pow2(i as nat),
        decreases n - i,
    {
        proof {
            lemma_pow2_small((i + 1) as nat);
        }
        p = p * 2;
        i = i + 1;
    }
    p
}

/// Divide rounding to nearest, halves away from zero.
pub fn div_round(v: i32, q: i32) -> (r: i32)
    requires
        q >= 1,
        -0x4000_0000 <= v <= 0x4000_0000,
        q <= 0x4000_0000,
    ensures
        r == div_round_spec(v as int, q as int),
{
    if v >= 0 {
        (v + q / 2) / q
    } else {
        -((-v + q / 2) / q)
    }
}

fn encode_dc(w: &mut JpegWriter, diff: i32, spec: &HuffSpec)
    requires
        old(w).wf(),
        huff_wf(spec.bits@, spec.vals@),
        -32768 < diff < 32768,
    ensures
        final(w).wf(),
        final(w).head() == old(w).head(),
        final(w).bits() == old(w).bits() + dc_bits(table_of(spec), diff as int),
{
    let (bits, amp) = coefficient_category(diff);
    w.huffman(spec, bits);
    if bits > 0 {
        w.write_amp(amp, bits);
    }
    proof {
        if bits == 0 {
            assert(w.bits() =~= old(w).bits() + dc_bits(table_of(spec), diff as int));
        } else {
            assert(w.bits() =~= old(w).bits() + dc_bits(table_of(spec), diff as int));
        }
    }
}

fn encode_ac(w: &mut JpegWriter, run: u8, val: i32, spec: &HuffSpec)
    requires
        old(w).wf(),
        huff_wf(spec.bits@, spec.vals@),
        run < 16,
        -32768 < val < 32768,
        val != 0,
        category(val as int) <= 15,
    ensures
        final(w).wf(),
        final(w).head() == old(w).head(),
        final(w).bits() == old(w).bits() + huff_bits(table_of(spec), (run * 16 + category(val as int)) as u8) + amp_seq(val as int),
{
    let (bits, amp) = coefficient_category(val);
    let sym = run * 16 + bits;
    w.huffman(spec, sym);
    w.write_amp(amp, bits);
}

fn quantize(coeff: &[i32; 64], quant: &[u8; 64]) -> (q: Vec<i32>)
    requires
        coeff_ok(coeff@),
    ensures
        q@.len() == 64,
        forall|i: int| 0 <= i < 64 ==> #[trigger] q@[i] == quantized(coeff@, quant@, i),
        forall|i: int| 0 <= i < 64 ==> -16383 <= #[trigger] q@[i] <= 16383,
{
    let mut q: Vec<i32> = Vec::new();
    let mut i: usize = 0;
    while i < 64
        invariant
            i <= 64,
            coeff_ok(coeff@),
            q@.len() == i,
            forall|j: int| 0 <= j < i ==> #[trigger] q@[j] == quantized(coeff@, quant@, j),
            forall|j: int| 0 <= j < i ==> -16383 <= #[trigger] q@[j] <= 16383,
        decreases 64 - i,
    {
        let d: i32 = if quant[i] < 1 { 1 } else { quant[i] as i32 };
        let v = div_round(coeff[i], d);
        proof {
            let c = coeff@[i as int] as int;
            let dd = d as int;
            if c >= 0 {
                assert((c + dd / 2) / dd <= c) by (nonlinear_arith)
                    requires
                        c >= 0,
                        dd >= 1,
                ;
            } else {
                assert((-c + dd / 2) / dd <= -c) by (nonlinear_arith)
                    requires
                        c < 0,
                        dd >= 1,
                ;
            }
        }
        q.push(v);
        i = i + 1;
    }
    q
}

proof fn lemma_category_small(v: int)
    requires
        -16383 <= v <= 16383,
    ensures
        category(v) <= 15,
{
    let a: nat = if v < 0 { (-v) as nat } else { v as nat };
    lemma_bit_len_mono(a, 16384);
    reveal_with_fuel(bit_len, 17);
}

/// Quantise one block of DCT coefficients and append its entropy-coded bits; returns the
/// block's quantised DC for the next block of the same component.
#[verifier::spinoff_prover]
#[verifier::rlimit(30)]
pub fn encode_block(
    w: &mut JpegWriter,
    coeff: &[i32; 64],
    quant: &[u8; 64],
    prev_dc: i32,
    dc: &HuffSpec,
    ac: &HuffSpec,
) -> (dc_val: i32)
    requires
        old(w).wf(),
        huff_wf(dc.bits@, dc.vals@),
        huff_wf(ac.bits@, ac.vals@),
        coeff_ok(coeff@),
        -16383 <= prev_dc <= 16383,
    ensures
        final(w).wf(),
        final(w).head() == old(w).head(),
        final(w).bits() == old(w).bits() + block_bits(coeff@, quant@, prev_dc as int, table_of(dc), table_of(ac)),
        dc_val == quantized(coeff@, quant@, 0),
        -16383 <= dc_val <= 16383,
{
    let q = quantize(coeff, quant);
    let dc_val = q[0];
    let diff = dc_val - prev_dc;
    encode_dc(w, diff, dc);
    let ghost after_dc = w.bits();
    let mut run: u8 = 0;
    let mut pos: usize = 1;
    while pos < 64
        invariant
            1 <= pos <= 64,
            run < 16,
            w.wf(),
            w.head() == old(w).head(),
            huff_wf(ac.bits@, ac.vals@),
            q@.len() == 64,
            forall|i: int| 0 <= i < 64 ==> #[trigger] q@[i] == quantized(coeff@, quant@, i),
            forall|i: int| 0 <= i < 64 ==> -16383 <= #[trigger] q@[i] <= 16383,
            w.bits() + ac_bits(table_of(ac), coeff@, quant@, pos as int, run as nat) == after_dc + ac_bits(table_of(ac), coeff@, quant@, 1, 0),
        decreases 64 - pos,
    {
        let z = ZIGZAG[pos] as usize;
        proof {
            assert(ZIGZAG@[pos as int] < 64) by {
                assert(ZIGZAG@ =~= seq![
                    0u8, 1, 8, 16, 9, 2, 3, 10, 17, 24, 32, 25, 18, 11, 4, 5,
                    12, 19, 26, 33, 40, 48, 41, 34, 27, 20, 13, 6, 7, 14, 21, 28,
                    35, 42, 49, 56, 57, 50, 43, 36, 29, 22, 15, 23, 30, 37, 44, 51,
                    58, 59, 52, 45, 38, 31, 39, 46, 53, 60, 61, 54, 47, 55, 62, 63]);
            }
        }
        let v = q[z];
        let ghost before = w.bits();
        if v == 0 {
            run = run + 1;
            if run == 16 {
                w.huffman(ac, 0xF0);
                run = 0;
                proof {
                    assert(w.bits() + ac_bits(table_of(ac), coeff@, quant@, pos + 1, 0) =~= before + (huff_bits(table_of(ac), 0xF0) + ac_bits(table_of(ac), coeff@, quant@, pos + 1, 0)));
                }
            }
        } else {
            proof {
                lemma_category_small(v as int);
            }
            encode_ac(w, run, v, ac);
            proof {
                assert(w.bits() + ac_bits(table_of(ac), coeff@, quant@, pos + 1, 0) =~= before + (huff_bits(table_of(ac), (run * 16 + category(v as int)) as u8) + amp_seq(v as int) + ac_bits(table_of(ac), coeff@, quant@, pos + 1, 0)));
            }
            run = 0;
        }
        pos = pos + 1;
    }
    let ghost before_end = w.bits();
    if run > 0 {
        w.huffman(ac, 0x00);
    }
    proof {
        if run == 0 {
            assert(w.bits() =~= before_end + ac_bits(table_of(ac), coeff@, quant@, 64, 0));
        }
        assert(w.bits() =~= old(w).bits() + block_bits(coeff@, quant@, prev_dc as int, table_of(dc), table_of(ac)));
    }
    dc_val
}

/// A 16-bit value, big-endian.
pub open spec fn be16(v: u16) -> Seq<u8> {
    seq![(v / 256) as u8, (v % 256) as u8]
}

/// A DQT segment: table `id`, entries in zigzag order.
pub open spec fn dqt_bytes(id: u8, table: Seq<u8>) -> Seq<u8> {
    seq![0xFFu8, 0xDB, 0, 67, id] + Seq::new(64, |k: int| table[ZIGZAG@[k] as int])
}

/// The SOF0 segment: 8-bit samples, three components, luma sampled 1x1 or 2x2.
pub open spec fn sof0_bytes(width: u32, height: u32, chroma: Chroma) -> Seq<u8> {
    let y_samp: u8 = match chroma {
        Chroma::Sample444 => 0x11,
        Chroma::Sample420 => 0x22,
    };
    seq![0xFFu8, 0xC0, 0, 17, 8] + be16(height as u16) + be16(width as u16)
        + seq![3u8, 1, y_samp, 0, 2, 0x11, 1, 3, 0x11, 1]
}

/// A DHT segment for table class/id `class_id`.
pub open spec fn dht_bytes(class_id: u8, t: (Seq<u8>, Seq<u8>)) -> Seq<u8> {
    seq![0xFFu8, 0xC4] + be16((1 + t.0.len() + t.1.len() + 2) as u16) + seq![class_id] + t.0 + t.1
}

/// The SOS header for the three interleaved components.
pub open spec fn sos_bytes() -> Seq<u8> {
    seq![0xFFu8, 0xDA, 0, 12, 3, 1, 0x00, 2, 0x11, 3, 0x11, 0, 63, 0]
}

fn write_dqt(w: &mut JpegWriter, id: u8, table: &[u8; 64])
    requires
        old(w).wf(),
    ensures
        final(w).wf(),
        final(w).head() == old(w).output() + dqt_bytes(id, table@),
        final(w).bits() == Seq::<bool>::empty(),
{
    let ghost start = w.output();
    w.marker(0xDB);
    w.u16(67);
    w.u8(id);
    let ghost zz = ZIGZAG@;
    proof {
        w.lemma_flushed();
        assert(w.head() =~= start + seq![0xFFu8, 0xDB, 0, 67, id]);
        assert(ZIGZAG@ =~= seq![
            0u8, 1, 8, 16, 9, 2, 3, 10, 17, 24, 32, 25, 18, 11, 4, 5,
            12, 19, 26, 33, 40, 48, 41, 34, 27, 20, 13, 6, 7, 14, 21, 28,
            35, 42, 49, 56, 57, 50, 43, 36, 29, 22, 15, 23, 30, 37, 44, 51,
            58, 59, 52, 45, 38, 31, 39, 46, 53, 60, 61, 54, 47, 55, 62, 63]);
    }
    let mut k: usize = 0;
    while k < 64
        invariant
            k <= 64,
            w.wf(),
            w.bits() == Seq::<bool>::empty(),
            zz == ZIGZAG@,
            forall|j: int| 0 <= j < 64 ==> #[trigger] zz[j] < 64,
            w.head() == start + seq![0xFFu8, 0xDB, 0, 67, id] + Seq::new(k as nat, |j: int| table@[zz[j] as int]),
        decreases 64 - k,
    {
        let z = ZIGZAG[k] as usize;
        proof {
            w.lemma_flushed();
        }
        w.u8(table[z]);
        k = k + 1;
        proof {
            assert(w.head() =~= start + seq![0xFFu8, 0xDB, 0, 67, id] + Seq::new(k as nat, |j: int| table@[zz[j] as int]));
        }
    }
    proof {
        assert(w.head() =~= start + dqt_bytes(id, table@));
    }
}

fn write_sof0(w: &mut JpegWriter, width: u32, height: u32, chroma: Chroma)
    requires
        old(w).wf(),
    ensures
        final(w).wf(),
        final(w).head() == old(w).output() + sof0_bytes(width, height, chroma),
        final(w).bits() == Seq::<bool>::empty(),
{
    let ghost start = w.output();
    w.marker(0xC0);
    proof { w.lemma_flushed(); }
    w.u16(17);
    proof { w.lemma_flushed(); }
    w.u8(8);
    proof { w.lemma_flushed(); }
    w.u16(height as u16);
    proof { w.lemma_flushed(); }
    w.u16(width as u16);
    proof { w.lemma_flushed(); }
    w.u8(3);
    let y_samp: u8 = match chroma {
        Chroma::Sample444 => 0x11,
        Chroma::Sample420 => 0x22,
    };
    proof { w.lemma_flushed(); }
    w.u8(1);
    proof { w.lemma_flushed(); }
    w.u8(y_samp);
    proof { w.lemma_flushed(); }
    w.u8(0);
    proof { w.lemma_flushed(); }
    w.u8(2);
    proof { w.lemma_flushed(); }
    w.u8(0x11);
    proof { w.lemma_flushed(); }
    w.u8(1);
    proof { w.lemma_flushed(); }
    w.u8(3);
    proof { w.lemma_flushed(); }
    w.u8(0x11);
    proof { w.lemma_flushed(); }
    w.u8(1);
    proof {
        assert(w.head() =~= start + sof0_bytes(width, height, chroma));
    }
}

fn write_dht(w: &mut JpegWriter, class_id: u8, spec: &HuffSpec)
    requires
        old(w).wf(),
        spec.vals@.len() <= 256,
    ensures
        final(w).wf(),
        final(w).head() == old(w).output() + dht_bytes(class_id, table_of(spec)),
        final(w).bits() == Seq::<bool>::empty(),
{
    let ghost start = w.output();
    let mut payload: Vec<u8> = Vec::new();
    payload.push(class_id);
    let mut i: usize = 0;
    while i < 16
        invariant
            i <= 16,
            payload@ == seq![class_id] + spec.bits@.take(i as int),
        decreases 16 - i,
    {
        payload.push(spec.bits[i]);
        i = i + 1;
        proof {
            assert(payload@ =~= seq![class_id] + spec.bits@.take(i as int));
        }
    }
    let mut j: usize = 0;
    while j < spec.vals.len()
        invariant
            j <= spec.vals.len(),
            payload@ == seq![class_id] + spec.bits@ + spec.vals@.take(j as int),
        decreases spec.vals.len() - j,
    {
        proof {
            assert(spec.bits@.take(16) =~= spec.bits@);
        }
        payload.push(spec.vals[j]);
        j = j + 1;
        proof {
            assert(payload@ =~= seq![class_id] + spec.bits@ + spec.vals@.take(j as int));
        }
    }
    proof {
        assert(spec.bits@.take(16) =~= spec.bits@);
        assert(spec.vals@.take(j as int) =~= spec.vals@);
    }
    w.marker(0xC4);
    proof { w.lemma_flushed(); }
    w.u16((payload.len() + 2) as u16);
    proof { w.lemma_flushed(); }
    w.bytes(payload.as_slice());
    proof {
        assert(w.head() =~= start + dht_bytes(class_id, table_of(spec)));
    }
}

fn write_sos(w: &mut JpegWriter)
    requires
        old(w).wf(),
    ensures
        final(w).wf(),
        final(w).head() == old(w).output() + sos_bytes(),
        final(w).bits() == Seq::<bool>::empty(),
{
    let ghost start = w.output();
    w.marker(0xDA);
    proof { w.lemma_flushed(); }
    w.u16(12);
    proof { w.lemma_flushed(); }
    w.u8(3);
    proof { w.lemma_flushed(); }
    w.u8(1);
    proof { w.lemma_flushed(); }
    w.u8(0x00);
    proof { w.lemma_flushed(); }
    w.u8(2);
    proof { w.lemma_flushed(); }
    w.u8(0x11);
    proof { w.lemma_flushed(); }
    w.u8(3);
    proof { w.lemma_flushed(); }
    w.u8(0x11);
    proof { w.lemma_flushed(); }
    w.u8(0);
    proof { w.lemma_flushed(); }
    w.u8(63);
    proof { w.lemma_flushed(); }
    w.u8(0);
    proof {
        assert(w.head() =~= start + sos_bytes());
    }
}

/// Which component (0 = Y, 1 = Cb, 2 = Cr) block `i` of the scan belongs to.
pub open spec fn component_of(chroma: Chroma, i: int) -> int {
    match chroma {
        Chroma::Sample444 => i % 3,
        Chroma::Sample420 => if i % 6 < 4 { 0 } else if i % 6 == 4 { 1 } else { 2 },
    }
}

/// Annex K table scaled for `quality`.
pub open spec fn scaled_table(base: Seq<u8>, quality: u8) -> Seq<u8> {
    Seq::new(64, |i: int| scaled_entry(base[i], quality))
}

/// The four standard Huffman tables: luma DC, luma AC, chroma DC, chroma AC.
pub open spec fn std_table(k: int) -> (Seq<u8>, Seq<u8>) {
    if k == 0 {
        (super::tables::LUMA_DC_BITS@, super::tables::LUMA_DC_VALS@)
    } else if k == 1 {
        (super::tables::LUMA_AC_BITS@, super::tables::LUMA_AC_VALS@)
    } else if k == 2 {
        (super::tables::CHROMA_DC_BITS@, super::tables::CHROMA_DC_VALS@)
    } else {
        (super::tables::CHROMA_AC_BITS@, super::tables::CHROMA_AC_VALS@)
    }
}

/// Scan bits of the first `k` blocks and the last DC of each component.
pub open spec fn scan_state(blocks: Seq<[i32; 64]>, quality: u8, chroma: Chroma, k: nat) -> (Seq<bool>, int, int, int)
    decreases k,
{
    if k == 0 {
        (Seq::empty(), 0, 0, 0)
    } else {
        let (bits, py, pcb, pcr) = scan_state(blocks, quality, chroma, (k - 1) as nat);
        let blk = blocks[k - 1]@;
        let c = component_of(chroma, k - 1);
        if c == 0 {
            let q = scaled_table(LUMA_QUANT@, quality);
            (bits + block_bits(blk, q, py, std_table(0), std_table(1)), quantized(blk, q, 0), pcb, pcr)
        } else {
            let q = scaled_table(CHROMA_QUANT@, quality);
            let prev = if c == 1 { pcb } else { pcr };
            let nb = bits + block_bits(blk, q, prev, std_table(2), std_table(3));
            let d = quantized(blk, q, 0);
            if c == 1 { (nb, py, d, pcr) } else { (nb, py, pcb, d) }
        }
    }
}

/// The JPEG file for these DCT blocks: SOI, both quantisation tables, SOF0, the four
/// Huffman tables, SOS, the entropy-coded scan padded with one bits, EOI.
pub open spec fn jpeg_file(width: u32, height: u32, quality: u8, chroma: Chroma, blocks: Seq<[i32; 64]>) -> Seq<u8> {
    seq![0xFFu8, 0xD8]
        + dqt_bytes(0, scaled_table(LUMA_QUANT@, quality))
        + dqt_bytes(1, scaled_table(CHROMA_QUANT@, quality))
        + sof0_bytes(width, height, chroma)
        + dht_bytes(0x00, std_table(0))
        + dht_bytes(0x10, std_table(1))
        + dht_bytes(0x01, std_table(2))
        + dht_bytes(0x11, std_table(3))
        + sos_bytes()
        + stuff(pack(pad_ones(scan_state(blocks, quality, chroma, blocks.len()).0)))
        + seq![0xFFu8, 0xD9]
}

proof fn lemma_table_clamped(base: Seq<u8>, q1: u8, q2: u8)
    requires
        clamp_quality(q1) == clamp_quality(q2),
    ensures
        scaled_table(base, q1) == scaled_table(base, q2),
{
    assert(scaled_table(base, q1) =~= scaled_table(base, q2));
}

proof fn lemma_scan_clamped(blocks: Seq<[i32; 64]>, q1: u8, q2: u8, chroma: Chroma, k: nat)
    requires
        clamp_quality(q1) == clamp_quality(q2),
    ensures
        scan_state(blocks, q1, chroma, k) == scan_state(blocks, q2, chroma, k),
    decreases k,
{
    lemma_table_clamped(LUMA_QUANT@, q1, q2);
    lemma_table_clamped(CHROMA_QUANT@, q1, q2);
    if k > 0 {
        lemma_scan_clamped(blocks, q1, q2, chroma, (k - 1) as nat);
    }
}

/// Quality is clamped to 1..=100 before use: two qualities that clamp to the same value
/// give the same file, so 0 gives what 1 gives and anything above 100 what 100 gives.
pub proof fn lemma_quality_clamped(width: u32, height: u32, q1: u8, q2: u8, chroma: Chroma, blocks: Seq<[i32; 64]>)
    requires
        clamp_quality(q1) == clamp_quality(q2),
    ensures
        jpeg_file(width, height, q1, chroma, blocks) == jpeg_file(width, height, q2, chroma, blocks),
{
    lemma_table_clamped(LUMA_QUANT@, q1, q2);
    lemma_table_clamped(CHROMA_QUANT@, q1, q2);
    lemma_scan_clamped(blocks, q1, q2, chroma, blocks.len());
}

/// Bytes `at..` of `f` are a DQT segment for table `id` holding `t`, listed in zigzag order.
pub open spec fn dqt_at(f: Seq<u8>, at: int, id: u8, t: Seq<u8>) -> bool {
    &&& 0 <= at && at + 69 <= f.len()
    &&& f[at] == 0xFF && f[at + 1] == 0xDB && f[at + 4] == id
    &&& t.len() == 64
    &&& forall|k: int| 0 <= k < 64 ==> #[trigger] f[at + 5 + k] == t[ZIGZAG@[k] as int]
}

/// Every block of the scan is coded with the quantisation table of its component: `t0` for
/// luma blocks, `t1` for the Cb and Cr blocks.
pub open spec fn scan_quantised_with(blocks: Seq<[i32; 64]>, quality: u8, chroma: Chroma, t0: Seq<u8>, t1: Seq<u8>) -> bool {
    forall|k: int| 0 <= k < blocks.len() ==> {
        let (bits, py, pcb, pcr) = #[trigger] scan_state(blocks, quality, chroma, k as nat);
        let c = component_of(chroma, k);
        scan_state(blocks, quality, chroma, (k + 1) as nat).0 == bits + if c == 0 {
            block_bits(blocks[k]@, t0, py, std_table(0), std_table(1))
        } else {
            block_bits(blocks[k]@, t1, if c == 1 { pcb } else { pcr }, std_table(2), std_table(3))
        }
    }
}

/// A JPEG file declares the tables its scan was quantised with: the frame header assigns
/// table 0 to Y and table 1 to Cb and Cr, the file's DQT segments for tables 0 and 1 hold
/// tables `t0` and `t1`, and every luma block of the scan is coded with `t0` and every chroma
/// block with `t1`; `t0` and `t1` are the Annex K luma and chroma tables scaled for the
/// quality.
pub proof fn lemma_declared_tables(width: u32, height: u32, quality: u8, chroma: Chroma, blocks: Seq<[i32; 64]>)
    ensures
        ({
            let f = jpeg_file(width, height, quality, chroma, blocks);
            let t0 = scaled_table(LUMA_QUANT@, quality);
            let t1 = scaled_table(CHROMA_QUANT@, quality);
            &&& dqt_at(f, 2, 0, t0)
            &&& dqt_at(f, 71, 1, t1)
            &&& f[140] == 0xFF && f[141] == 0xC0
            &&& f[150] == 1 && f[152] == 0
            &&& f[153] == 2 && f[155] == 1
            &&& f[156] == 3 && f[158] == 1
            &&& scan_quantised_with(blocks, quality, chroma, t0, t1)
        }),
{
    let f = jpeg_file(width, height, quality, chroma, blocks);
    let t0 = scaled_table(LUMA_QUANT@, quality);
    let t1 = scaled_table(CHROMA_QUANT@, quality);
    let head = seq![0xFFu8, 0xD8] + dqt_bytes(0, t0) + dqt_bytes(1, t1) + sof0_bytes(width, height, chroma);
    assert(dqt_bytes(0, t0).len() == 69);
    assert(dqt_bytes(1, t1).len() == 69);
    assert(sof0_bytes(width, height, chroma).len() == 19);
    assert(head.len() == 159);
    let rest = dht_bytes(0x00, std_table(0)) + dht_bytes(0x10, std_table(1)) + dht_bytes(0x01, std_table(2))
        + dht_bytes(0x11, std_table(3)) + sos_bytes()
        + stuff(pack(pad_ones(scan_state(blocks, quality, chroma, blocks.len()).0))) + seq![0xFFu8, 0xD9];
    assert(f =~= head + rest);
    assert forall|k: int| 0 <= k < 64 implies #[trigger] f[2 + 5 + k] == t0[ZIGZAG@[k] as int] by {
        assert(f[7 + k] == head[7 + k]);
        assert(head[7 + k] == dqt_bytes(0, t0)[5 + k]);
    }
    assert forall|k: int| 0 <= k < 64 implies #[trigger] f[71 + 5 + k] == t1[ZIGZAG@[k] as int] by {
        assert(f[76 + k] == head[76 + k]);
        assert(head[76 + k] == dqt_bytes(1, t1)[5 + k]);
    }
    assert(f[140] == sof0_bytes(width, height, chroma)[0]);
    assert(f[152] == sof0_bytes(width, height, chroma)[12]);
    assert forall|k: int| 0 <= k < blocks.len() implies {
        let (bits, py, pcb, pcr) = #[trigger] scan_state(blocks, quality, chroma, k as nat);
        let c = component_of(chroma, k);
        scan_state(blocks, quality, chroma, (k + 1) as nat).0 == bits + if c == 0 {
            block_bits(blocks[k]@, t0, py, std_table(0), std_table(1))
        } else {
            block_bits(blocks[k]@, t1, if c == 1 { pcb } else { pcr }, std_table(2), std_table(3))
        }
    } by {
        assert(((k + 1) as nat - 1) as nat == k as nat);
    }
}

/// Header segments from SOI through SOS.
pub open spec fn jpeg_headers(width: u32, height: u32, quality: u8, chroma: Chroma) -> Seq<u8> {
    seq![0xFFu8, 0xD8]
        + dqt_bytes(0, scaled_table(LUMA_QUANT@, quality))
        + dqt_bytes(1, scaled_table(CHROMA_QUANT@, quality))
        + sof0_bytes(width, height, chroma)
        + dht_bytes(0x00, std_table(0))
        + dht_bytes(0x10, std_table(1))
        + dht_bytes(0x01, std_table(2))
        + dht_bytes(0x11, std_table(3))
        + sos_bytes()
}

/// The standard tables, ready for coding.
pub struct Tables {
    pub qy: [u8; 64],
    pub qc: [u8; 64],
    pub luma_dc: HuffSpec,
    pub luma_ac: HuffSpec,
    pub chroma_dc: HuffSpec,
    pub chroma_ac: HuffSpec,
}

/// The tables are the Annex K ones, quantisation scaled for `quality`.
pub open spec fn tables_for(t: &Tables, quality: u8) -> bool {
    &&& t.qy@ == scaled_table(LUMA_QUANT@, quality)
    &&& t.qc@ == scaled_table(CHROMA_QUANT@, quality)
    &&& table_of(&t.luma_dc) == std_table(0)
    &&& table_of(&t.luma_ac) == std_table(1)
    &&& table_of(&t.chroma_dc) == std_table(2)
    &&& table_of(&t.chroma_ac) == std_table(3)
    &&& huff_wf(t.luma_dc.bits@, t.luma_dc.vals@)
    &&& huff_wf(t.luma_ac.bits@, t.luma_ac.vals@)
    &&& huff_wf(t.chroma_dc.bits@, t.chroma_dc.vals@)
    &&& huff_wf(t.chroma_ac.bits@, t.chroma_ac.vals@)
}

fn make_tables(quality: u8) -> (t: Tables)
    ensures
        tables_for(&t, quality),
{
    let qy = scale_table(&LUMA_QUANT, quality);
    let qc = scale_table(&CHROMA_QUANT, quality);
    proof {
        assert(qy@ =~= scaled_table(LUMA_QUANT@, quality));
        assert(qc@ =~= scaled_table(CHROMA_QUANT@, quality));
    }
    Tables {
        qy,
        qc,
        luma_dc: HuffSpec::luma_dc(),
        luma_ac: HuffSpec::luma_ac(),
        chroma_dc: HuffSpec::chroma_dc(),
        chroma_ac: HuffSpec::chroma_ac(),
    }
}

fn write_headers(w: &mut JpegWriter, width: u32, height: u32, quality: u8, chroma: Chroma, t: &Tables)
    requires
        old(w).wf(),
        old(w).head() == Seq::<u8>::empty(),
        old(w).bits() == Seq::<bool>::empty(),
        tables_for(t, quality),
    ensures
        final(w).wf(),
        final(w).head() == jpeg_headers(width, height, quality, chroma),
        final(w).bits() == Seq::<bool>::empty(),
{
    proof {
        w.lemma_flushed();
    }
    w.marker(0xD8);
    write_dqt(w, 0, &t.qy);
    write_dqt(w, 1, &t.qc);
    write_sof0(w, width, height, chroma);
    write_dht(w, 0x00, &t.luma_dc);
    write_dht(w, 0x10, &t.luma_ac);
    write_dht(w, 0x01, &t.chroma_dc);
    write_dht(w, 0x11, &t.chroma_ac);
    proof {
        w.lemma_flushed();
    }
    write_sos(w);
    proof {
        assert(w.head() =~= jpeg_headers(width, height, quality, chroma));
    }
}

fn write_scan(w: &mut JpegWriter, quality: u8, chroma: Chroma, t: &Tables, blocks: &Vec<[i32; 64]>)
    requires
        old(w).wf(),
        old(w).bits() == Seq::<bool>::empty(),
        tables_for(t, quality),
        forall|i: int| 0 <= i < blocks.len() ==> coeff_ok(#[trigger] blocks@[i]@),
    ensures
        final(w).wf(),
        final(w).head() == old(w).head(),
        final(w).bits() == scan_state(blocks@, quality, chroma, blocks.len() as nat).0,
{
    let mut prev_dc_y: i32 = 0;
    let mut prev_dc_cb: i32 = 0;
    let mut prev_dc_cr: i32 = 0;
    let mut i: usize = 0;
    while i < blocks.len()
        invariant
            i <= blocks.len(),
            w.wf(),
            w.head() == old(w).head(),
            forall|j: int| 0 <= j < blocks.len() ==> coeff_ok(#[trigger] blocks@[j]@),
            tables_for(t, quality),
            -16383 <= prev_dc_y <= 16383,
            -16383 <= prev_dc_cb <= 16383,
            -16383 <= prev_dc_cr <= 16383,
            scan_state(blocks@, quality, chroma, i as nat) == (w.bits(), prev_dc_y as int, prev_dc_cb as int, prev_dc_cr as int),
        decreases blocks.len() - i,
    {
        let c: u8 = match chroma {
            Chroma::Sample444 => (i % 3) as u8,
            Chroma::Sample420 => if i % 6 < 4 { 0 } else if i % 6 == 4 { 1 } else { 2 },
        };
        proof {
            assert(c == component_of(chroma, i as int));
        }
        if c == 0 {
            prev_dc_y = encode_block(w, &blocks[i], &t.qy, prev_dc_y, &t.luma_dc, &t.luma_ac);
        } else if c == 1 {
            prev_dc_cb = encode_block(w, &blocks[i], &t.qc, prev_dc_cb, &t.chroma_dc, &t.chroma_ac);
        } else {
            prev_dc_cr = encode_block(w, &blocks[i], &t.qc, prev_dc_cr, &t.chroma_dc, &t.chroma_ac);
        }
        i = i + 1;
    }
}

/// Assemble a baseline JPEG from DCT coefficient blocks given in scan order (4:4:4:
/// Y, Cb, Cr per 8x8 block; 4:2:0: four Y then Cb, Cr per 16x16 macroblock).
pub fn encode_blocks(width: u32, height: u32, quality: u8, chroma: Chroma, blocks: &Vec<[i32; 64]>) -> (out: Vec<u8>)
    requires
        forall|i: int| 0 <= i < blocks.len() ==> coeff_ok(#[trigger] blocks@[i]@),
    ensures
        out@ == jpeg_file(width, height, quality, chroma, blocks@),
{
    let t = make_tables(quality);
    let mut w = JpegWriter::new();
    write_headers(&mut w, width, height, quality, chroma, &t);
    write_scan(&mut w, quality, chroma, &t, blocks);
    w.flush_bits();
    w.marker(0xD9);
    proof {
        assert(pack(Seq::<bool>::empty()) =~= Seq::<u8>::empty());
        assert(stuff(Seq::<u8>::empty()) =~= Seq::<u8>::empty());
    }
    let out = w.into_inner();
    proof {
        assert(out@ =~= jpeg_file(width, height, quality, chroma, blocks@));
    }
    out
}

/// `a` clamped to at most `hi`.
pub open spec fn min_int(a: int, hi: int) -> int {
    if a < hi { a } else { hi }
}

/// Sample (`x`, `y`) of a plane, coordinates clamped to the edge, level-shifted by 128.
pub open spec fn plane_sample(plane: Seq<u8>, width: int, height: int, x: int, y: int) -> i32 {
    (plane[min_int(y, height - 1) * width + min_int(x, width - 1)] - 128) as i32
}

/// The 8x8 block (`bx`, `by`) of a plane, edges replicated.
pub open spec fn block_spec(plane: Seq<u8>, width: int, height: int, bx: int, by: int) -> Seq<i32> {
    Seq::new(64, |i: int| plane_sample(plane, width, height, bx * 8 + i % 8, by * 8 + i / 8))
}

/// Cut the 8x8 block (`bx`, `by`) out of a plane, replicating the last row and column
/// past the edge, and level-shift it by -128.
pub fn sample_block(plane: &[u8], width: u32, height: u32, bx: u32, by: u32) -> (block: [i32; 64])
    requires
        width >= 1,
        height >= 1,
        width as int * height <= plane.len(),
        bx as int * 8 + 8 <= u32::MAX,
        by as int * 8 + 8 <= u32::MAX,
    ensures
        block@ == block_spec(plane@, width as int, height as int, bx as int, by as int),
{
    let mut block = [0i32; 64];
    let mut i: usize = 0;
    while i < 64
        invariant
            i <= 64,
            width >= 1,
            height >= 1,
            width as int * height <= plane.len(),
            bx as int * 8 + 8 <= u32::MAX,
            by as int * 8 + 8 <= u32::MAX,
            forall|j: int| 0 <= j < i ==> block@[j] == #[trigger] block_spec(plane@, width as int, height as int, bx as int, by as int)[j],
        decreases 64 - i,
    {
        let row = (i / 8) as u32;
        let col = (i % 8) as u32;
        let y = by * 8 + row;
        let x = bx * 8 + col;
        let py = if y < height - 1 { y } else { height - 1 };
        let px = if x < width - 1 { x } else { width - 1 };
        proof {
            assert(py as int * width + px < width as int * height) by (nonlinear_arith)
                requires
                    py < height,
                    px < width,
            ;
        }
        let v = plane[py as usize * width as usize + px as usize] as i32;
        block[i] = v - 128;
        i = i + 1;
    }
    proof {
        assert(block@ =~= block_spec(plane@, width as int, height as int, bx as int, by as int));
    }
    block
}

/// `ceil(a / 2)`.
pub open spec fn half_up(a: int) -> int {
    (a + 1) / 2
}

/// 4:2:0 chroma: each sample the mean (rounded down) of a 2x2 square, clamped at the edges.
pub open spec fn subsampled(plane: Seq<u8>, width: int, height: int) -> Seq<u8> {
    let cw = half_up(width);
    Seq::new((cw * half_up(height)) as nat, |o: int| {
        let cx = o % cw;
        let cy = o / cw;
        let x0 = min_int(cx * 2, width - 1);
        let x1 = min_int(cx * 2 + 1, width - 1);
        let y0 = min_int(cy * 2, height - 1);
        let y1 = min_int(cy * 2 + 1, height - 1);
        ((plane[y0 * width + x0] + plane[y0 * width + x1] + plane[y1 * width + x0] + plane[y1 * width + x1]) / 4) as u8
    })
}

/// Average a full-resolution chroma plane down to 4:2:0.
pub fn subsample_420(plane: &[u8], width: u32, height: u32) -> (out: Vec<u8>)
    requires
        width as int * height <= plane.len(),
    ensures
        out@ == subsampled(plane@, width as int, height as int),
{
    let cw = width / 2 + width % 2;
    let ch = height / 2 + height % 2;
    proof {
        assert(cw <= width && ch <= height);
        assert(cw as int * ch <= width as int * height) by (nonlinear_arith)
            requires
                cw <= width,
                ch <= height,
        ;
        assert(width as int * height <= usize::MAX);
    }
    let total: usize = cw as usize * ch as usize;
    let ghost spec = subsampled(plane@, width as int, height as int);
    proof {
        assert(cw == half_up(width as int));
        assert(ch == half_up(height as int));
    }
    let mut out: Vec<u8> = Vec::new();
    let mut o: usize = 0;
    while o < total
        invariant
            o <= total,
            total == cw as int * ch,
            cw == half_up(width as int),
            ch == half_up(height as int),
            width as int * height <= plane.len(),
            spec == subsampled(plane@, width as int, height as int),
            out@.len() == o,
            forall|j: int| 0 <= j < o ==> out@[j] == #[trigger] spec[j],
        decreases total - o,
    {
        proof {
            assert(cw > 0 && ch > 0) by (nonlinear_arith)
                requires
                    o < cw as int * ch,
            ;
            assert(o as int / (cw as int) < ch) by (nonlinear_arith)
                requires
                    o < cw as int * ch,
                    cw > 0,
            ;
        }
        let cx = (o % cw as usize) as u32;
        let cy = (o / cw as usize) as u32;
        let x0 = if cx * 2 < width - 1 { cx * 2 } else { width - 1 };
        let x1 = if cx * 2 + 1 < width - 1 { cx * 2 + 1 } else { width - 1 };
        let y0 = if cy * 2 < height - 1 { cy * 2 } else { height - 1 };
        let y1 = if cy * 2 + 1 < height - 1 { cy * 2 + 1 } else { height - 1 };
        proof {
            assert(y0 as int * width + x0 < width as int * height) by (nonlinear_arith)
                requires y0 < height, x0 < width;
            assert(y0 as int * width + x1 < width as int * height) by (nonlinear_arith)
                requires y0 < height, x1 < width;
            assert(y1 as int * width + x0 < width as int * height) by (nonlinear_arith)
                requires y1 < height, x0 < width;
            assert(y1 as int * width + x1 < width as int * height) by (nonlinear_arith)
                requires y1 < height, x1 < width;
        }
        let w = width as usize;
        let s = plane[y0 as usize * w + x0 as usize] as u16 + plane[y0 as usize * w + x1 as usize] as u16
            + plane[y1 as usize * w + x0 as usize] as u16 + plane[y1 as usize * w + x1 as usize] as u16;
        out.push((s / 4) as u8);
        o = o + 1;
    }
    proof {
        assert(out@ =~= spec);
    }
    out
}

/// `ceil(a / d)`.
pub open spec fn ceil_div(a: int, d: int) -> int {
    (a + d - 1) / d
}

/// Number of blocks in the scan of a `width` x `height` image.
pub open spec fn scan_block_count(width: int, height: int, chroma: Chroma) -> int {
    match chroma {
        Chroma::Sample444 => 3 * (ceil_div(width, 8) * ceil_div(height, 8)),
        Chroma::Sample420 => 6 * (ceil_div(width, 16) * ceil_div(height, 16)),
    }
}

/// Block `i` of the scan, cut from the Y, Cb and Cr planes (Cb and Cr already at 4:2:0
/// size for `Sample420`).
pub open spec fn scan_block(ys: Seq<u8>, cbs: Seq<u8>, crs: Seq<u8>, width: int, height: int, chroma: Chroma, i: int) -> Seq<i32> {
    match chroma {
        Chroma::Sample444 => {
            let bw = ceil_div(width, 8);
            let m = i / 3;
            let r = i % 3;
            let plane = if r == 0 { ys } else if r == 1 { cbs } else { crs };
            block_spec(plane, width, height, m % bw, m / bw)
        },
        Chroma::Sample420 => {
            let mw = ceil_div(width, 16);
            let m = i / 6;
            let r = i % 6;
            if r < 4 {
                block_spec(ys, width, height, (m % mw) * 2 + r % 2, (m / mw) * 2 + r / 2)
            } else {
                block_spec(if r == 4 { cbs } else { crs }, half_up(width), half_up(height), m % mw, m / mw)
            }
        },
    }
}

/// Cut the planes into level-shifted 8x8 blocks in scan order.
pub fn sample_blocks(width: u32, height: u32, chroma: Chroma, ys: &[u8], cbs: &[u8], crs: &[u8]) -> (blocks: Vec<[i32; 64]>)
    requires
        width < 0xFFFF_FFF0,
        height < 0xFFFF_FFF0,
        scan_block_count(width as int, height as int, chroma) <= usize::MAX,
        width as int * height <= ys.len(),
        chroma == Chroma::Sample444 ==> width as int * height <= cbs.len() && width as int * height <= crs.len(),
        chroma == Chroma::Sample420 ==> half_up(width as int) * half_up(height as int) <= cbs.len()
            && half_up(width as int) * half_up(height as int) <= crs.len(),
    ensures
        blocks@.len() == scan_block_count(width as int, height as int, chroma),
        forall|i: int| 0 <= i < blocks@.len() ==> (#[trigger] blocks@[i])@ == scan_block(ys@, cbs@, crs@, width as int, height as int, chroma, i),
{
    let step: u32 = match chroma {
        Chroma::Sample444 => 8,
        Chroma::Sample420 => 16,
    };
    let per: usize = match chroma {
        Chroma::Sample444 => 3,
        Chroma::Sample420 => 6,
    };
    let across = width / step + if width % step == 0 { 0 } else { 1 };
    let down = height / step + if height % step == 0 { 0 } else { 1 };
    proof {
        assert(across == ceil_div(width as int, step as int));
        assert(down == ceil_div(height as int, step as int));
    }
    let total: usize = per * (across as usize * down as usize);
    let mut blocks: Vec<[i32; 64]> = Vec::new();
    let mut i: usize = 0;
    while i < total
        invariant
            i <= total,
            total == scan_block_count(width as int, height as int, chroma),
            step == (if chroma == Chroma::Sample444 { 8u32 } else { 16u32 }),
            per == (if chroma == Chroma::Sample444 { 3usize } else { 6usize }),
            across == ceil_div(width as int, step as int),
            down == ceil_div(height as int, step as int),
            width < 0xFFFF_FFF0,
            height < 0xFFFF_FFF0,
            width as int * height <= ys.len(),
            chroma == Chroma::Sample444 ==> width as int * height <= cbs.len() && width as int * height <= crs.len(),
            chroma == Chroma::Sample420 ==> half_up(width as int) * half_up(height as int) <= cbs.len()
                && half_up(width as int) * half_up(height as int) <= crs.len(),
            blocks@.len() == i,
            forall|j: int| 0 <= j < i ==> (#[trigger] blocks@[j])@ == scan_block(ys@, cbs@, crs@, width as int, height as int, chroma, j),
        decreases total - i,
    {
        let m = i / per;
        let r = i % per;
        proof {
            assert(across > 0 && down > 0 && m < across as int * down) by (nonlinear_arith)
                requires
                    i < per as int * (across as int * down),
                    m == i as int / (per as int),
                    per >= 1,
            ;
            assert(m as int / (across as int) < down) by (nonlinear_arith)
                requires
                    m < across as int * down,
                    across > 0,
            ;
            assert(width >= 1 && height >= 1);
        }
        let mx = (m % across as usize) as u32;
        let my = (m / across as usize) as u32;
        let block = match chroma {
            Chroma::Sample444 => {
                proof {
                    assert(mx as int * 8 + 8 <= width + 8);
                    assert(my as int * 8 + 8 <= height + 8);
                }
                if r == 0 {
                    sample_block(ys, width, height, mx, my)
                } else if r == 1 {
                    sample_block(cbs, width, height, mx, my)
                } else {
                    sample_block(crs, width, height, mx, my)
                }
            },
            Chroma::Sample420 => {
                if r < 4 {
                    let bx = mx * 2 + (r % 2) as u32;
                    let by = my * 2 + (r / 2) as u32;
                    proof {
                        assert(bx as int * 8 + 8 <= width + 16);
                        assert(by as int * 8 + 8 <= height + 16);
                    }
                    sample_block(ys, width, height, bx, by)
                } else {
                    let cw = width / 2 + width % 2;
                    let ch = height / 2 + height % 2;
                    proof {
                        assert(cw == half_up(width as int));
                        assert(ch == half_up(height as int));
                    }
                    if r == 4 {
                        sample_block(cbs, cw, ch, mx, my)
                    } else {
                        sample_block(crs, cw, ch, mx, my)
                    }
                }
            },
        };
        blocks.push(block);
        i = i + 1;
    }
    blocks
}

} // verus!
