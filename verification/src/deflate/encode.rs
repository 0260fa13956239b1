//! One final DEFLATE block with dynamic Huffman codes, wrapped in zlib framing.

use vstd::prelude::*;
use vstd::arithmetic::power2::{pow2, lemma2_to64};
use super::adler::{adler32, adler32_spec};
use super::bits::{BitWriter, low_bits, msb_bits, bytes_bits, zero_bits, pad_len, rev_acc, lemma_rev_acc, lemma_one_shl};
use super::huffman::{
    build_lengths, encode_code_lengths, HuffTable, CODE_LENGTH_ORDER, canonical_code, kraft_sum,
    rle_expand, rle_entry_ok, sum_u32,
};
use super::lz77::{
    distance_base, distance_code, distance_extra, length_base, length_code, length_extra, parse,
    Token, parses, chosen_parse, token_ok, length_symbol, distance_symbol, length_base_spec, length_extra_spec,
    distance_base_spec, distance_extra_spec, length_symbol_ok, distance_symbol_ok,
};

verus! {

pub const LITLEN_SIZE: usize = 286;
pub const DIST_SIZE: usize = 30;

/// Canonical codes for a list of bit lengths.
pub open spec fn canon(s: Seq<u8>) -> Seq<u32> {
    Seq::new(s.len(), |i: int| canonical_code(s, i) as u32)
}

/// The Huffman code of `sym`, most significant bit first.
pub open spec fn sym_bits(codes: Seq<u32>, lens: Seq<u8>, sym: int) -> Seq<bool> {
    msb_bits(codes[sym], lens[sym] as nat)
}

/// Lengths and distances inside DEFLATE's ranges.
pub open spec fn token_in_range(t: Token) -> bool {
    match t {
        Token::Literal(_) => true,
        Token::Match { length, distance } => 3 <= length <= 258 && 1 <= distance <= 32768,
    }
}

/// Bits of one token under the given literal/length and distance codes (RFC 1951, 3.2.5).
pub open spec fn token_bits(t: Token, llc: Seq<u32>, lll: Seq<u8>, dc: Seq<u32>, dl: Seq<u8>) -> Seq<bool> {
    match t {
        Token::Literal(b) => sym_bits(llc, lll, b as int),
        Token::Match { length, distance } => {
            let ls = length_symbol(length as int);
            let ds = distance_symbol(distance as int);
            sym_bits(llc, lll, ls) + low_bits((length - length_base_spec(ls)) as u32, length_extra_spec(ls) as nat)
                + sym_bits(dc, dl, ds) + low_bits((distance - distance_base_spec(ds)) as u32, distance_extra_spec(ds) as nat)
        },
    }
}

/// Bits of a token sequence.
pub open spec fn tokens_bits(toks: Seq<Token>, llc: Seq<u32>, lll: Seq<u8>, dc: Seq<u32>, dl: Seq<u8>) -> Seq<bool>
    decreases toks.len(),
{
    if toks.len() == 0 {
        Seq::empty()
    } else {
        tokens_bits(toks.drop_last(), llc, lll, dc, dl) + token_bits(toks.last(), llc, lll, dc, dl)
    }
}

/// Fixed literal/length code of `sym` and its bit length (RFC 1951, 3.2.6).
pub open spec fn fixed_code(sym: int) -> (u32, nat) {
    if sym <= 143 {
        ((0x30 + sym) as u32, 8)
    } else if sym <= 255 {
        ((0x190 + sym - 144) as u32, 9)
    } else if sym <= 279 {
        ((sym - 256) as u32, 7)
    } else {
        ((0xC0 + sym - 280) as u32, 8)
    }
}

pub open spec fn fixed_sym_bits(sym: int) -> Seq<bool> {
    msb_bits(fixed_code(sym).0, fixed_code(sym).1)
}

/// Bits of one token under the fixed codes.
pub open spec fn fixed_token_bits(t: Token) -> Seq<bool> {
    match t {
        Token::Literal(b) => fixed_sym_bits(b as int),
        Token::Match { length, distance } => {
            let ls = length_symbol(length as int);
            let ds = distance_symbol(distance as int);
            fixed_sym_bits(ls) + low_bits((length - length_base_spec(ls)) as u32, length_extra_spec(ls) as nat)
                + msb_bits(ds as u32, 5) + low_bits((distance - distance_base_spec(ds)) as u32, distance_extra_spec(ds) as nat)
        },
    }
}

pub open spec fn fixed_tokens_bits(toks: Seq<Token>) -> Seq<bool>
    decreases toks.len(),
{
    if toks.len() == 0 {
        Seq::empty()
    } else {
        fixed_tokens_bits(toks.drop_last()) + fixed_token_bits(toks.last())
    }
}

/// Literal/length symbol a token is sent with.
pub open spec fn litlen_symbol(t: Token) -> int {
    match t {
        Token::Literal(b) => b as int,
        Token::Match { length, .. } => length_symbol(length as int),
    }
}

/// Code lengths fit for the tokens: bounded, satisfying Kraft, and every symbol used has a code.
pub open spec fn block_lengths_ok(toks: Seq<Token>, ll: Seq<u8>, dl: Seq<u8>) -> bool {
    &&& ll.len() == LITLEN_SIZE
    &&& dl.len() == DIST_SIZE
    &&& forall|i: int| 0 <= i < ll.len() ==> ll[i] <= 15
    &&& forall|i: int| 0 <= i < dl.len() ==> dl[i] <= 15
    &&& kraft_sum(ll, 15) <= pow2(15)
    &&& kraft_sum(dl, 15) <= pow2(15)
    &&& ll[256] != 0
    &&& forall|k: int| 0 <= k < toks.len() ==> ll[litlen_symbol(#[trigger] toks[k])] != 0
    &&& forall|k: int| 0 <= k < toks.len() && (#[trigger] toks[k]) is Match ==> dl[distance_symbol(toks[k]->distance as int)] != 0
}

/// Length of a code-length list with trailing zeros dropped, keeping at least `min` entries.
pub open spec fn trim_len(s: Seq<u8>, t: int, min: int) -> int
    decreases t,
{
    if t > min && t > 0 && s[t - 1] == 0 {
        trim_len(s, t - 1, min)
    } else {
        t
    }
}

/// Number of code-length code lengths sent: trailing zeros in transmission order dropped, at least 4.
pub open spec fn hclen_of(cl: Seq<u8>, h: int) -> int
    decreases h,
{
    if h > 4 && cl[CODE_LENGTH_ORDER@[h - 1] as int] == 0 {
        hclen_of(cl, h - 1)
    } else {
        h
    }
}

/// The 3-bit code-length code lengths, in transmission order.
pub open spec fn cl_order_bits(cl: Seq<u8>, h: int) -> Seq<bool>
    decreases h,
{
    if h <= 0 {
        Seq::empty()
    } else {
        cl_order_bits(cl, h - 1) + low_bits(cl[CODE_LENGTH_ORDER@[h - 1] as int] as u32, 3)
    }
}

/// Bits of the run-length coded lengths under the code-length code.
pub open spec fn rle_bits(rle: Seq<(u8, u8, u8)>, codes: Seq<u32>, lens: Seq<u8>) -> Seq<bool>
    decreases rle.len(),
{
    if rle.len() == 0 {
        Seq::empty()
    } else {
        let e = rle.last();
        rle_bits(rle.drop_last(), codes, lens) + sym_bits(codes, lens, e.0 as int) + low_bits(e.2 as u32, e.1 as nat)
    }
}

/// The dynamic header describes `ll` and `dl` exactly: the run-length entries rebuild the trimmed
/// lengths and every entry's symbol has a code in the code-length code `cl`.
pub open spec fn header_ok(ll: Seq<u8>, dl: Seq<u8>, cl: Seq<u8>, rle: Seq<(u8, u8, u8)>) -> bool {
    &&& cl.len() == 19
    &&& forall|i: int| 0 <= i < 19 ==> cl[i] <= 7
    &&& kraft_sum(cl, 7) <= pow2(7)
    &&& rle_expand(rle) == ll.take(trim_len(ll, 286, 257)) + dl.take(trim_len(dl, 30, 1))
    &&& forall|k: int| 0 <= k < rle.len() ==> rle_entry_ok(#[trigger] rle[k]) && cl[rle[k].0 as int] != 0
    &&& forall|k: int| 0 <= k < rle.len() && (#[trigger] rle[k]).0 == 16 ==> k > 0
}

/// Bits of the dynamic header: HLIT, HDIST, HCLEN, the code-length code, then the lengths.
pub open spec fn header_bits(ll: Seq<u8>, dl: Seq<u8>, cl: Seq<u8>, rle: Seq<(u8, u8, u8)>) -> Seq<bool> {
    let h = hclen_of(cl, 19);
    low_bits((trim_len(ll, 286, 257) - 257) as u32, 5) + low_bits((trim_len(dl, 30, 1) - 1) as u32, 5)
        + low_bits((h - 4) as u32, 4) + cl_order_bits(cl, h) + rle_bits(rle, canon(cl), cl)
}

/// A dynamic block (after its BFINAL and BTYPE bits) coding `toks`.
pub open spec fn dynamic_block(toks: Seq<Token>, ll: Seq<u8>, dl: Seq<u8>, cl: Seq<u8>, rle: Seq<(u8, u8, u8)>) -> Seq<bool> {
    header_bits(ll, dl, cl, rle) + tokens_bits(toks, canon(ll), ll, canon(dl), dl) + sym_bits(canon(ll), ll, 256)
}

/// `bits` is a complete dynamic DEFLATE block for `toks`, with BFINAL = `bfinal`.
pub open spec fn is_dynamic_block(bits: Seq<bool>, toks: Seq<Token>, bfinal: bool, ll: Seq<u8>, dl: Seq<u8>, cl: Seq<u8>, rle: Seq<(u8, u8, u8)>) -> bool {
    &&& block_lengths_ok(toks, ll, dl)
    &&& header_ok(ll, dl, cl, rle)
    &&& bits == low_bits(if bfinal { 1u32 } else { 0u32 }, 1) + low_bits(2, 2) + dynamic_block(toks, ll, dl, cl, rle)
}

/// `out` is a DEFLATE stream of one final dynamic block whose tokens are the parse `parse`
/// chooses for `data`.
pub open spec fn deflate_stream(out: Seq<u8>, data: Seq<u8>) -> bool {
    exists|toks: Seq<Token>, bits: Seq<bool>, ll: Seq<u8>, dl: Seq<u8>, cl: Seq<u8>, rle: Seq<(u8, u8, u8)>|
        #![trigger is_dynamic_block(bits, toks, true, ll, dl, cl, rle), chosen_parse(data, toks)]
        {
            &&& chosen_parse(data, toks)
            &&& is_dynamic_block(bits, toks, true, ll, dl, cl, rle)
            &&& bytes_bits(out) == bits + zero_bits(pad_len(bits.len()))
        }
}

/// Big-endian bytes of a 32-bit value.
pub open spec fn be32(v: int) -> Seq<u8> {
    seq![(v / 0x100_0000 % 256) as u8, (v / 0x1_0000 % 256) as u8, (v / 0x100 % 256) as u8, (v % 256) as u8]
}

} // verus!

verus! {

proof fn lemma_tokens_bits_step(toks: Seq<Token>, i: int, llc: Seq<u32>, lll: Seq<u8>, dc: Seq<u32>, dl: Seq<u8>)
    requires
        0 <= i < toks.len(),
    ensures
        tokens_bits(toks.take(i + 1), llc, lll, dc, dl) == tokens_bits(toks.take(i), llc, lll, dc, dl) + token_bits(toks[i], llc, lll, dc, dl),
        fixed_tokens_bits(toks.take(i + 1)) == fixed_tokens_bits(toks.take(i)) + fixed_token_bits(toks[i]),
{
    assert(toks.take(i + 1).drop_last() =~= toks.take(i));
}

/// Write the literal/length/end symbols of `tokens` with the tables, then end-of-block.
fn write_tokens(w: &mut BitWriter, tokens: &[Token], ll: &HuffTable, dist: &HuffTable)
    requires
        old(w).wf(),
        ll.codes.len() == LITLEN_SIZE,
        ll.lengths.len() == LITLEN_SIZE,
        dist.codes.len() == DIST_SIZE,
        dist.lengths.len() == DIST_SIZE,
        forall|i: int| 0 <= i < LITLEN_SIZE ==> ll.lengths[i] <= 15,
        forall|i: int| 0 <= i < DIST_SIZE ==> dist.lengths[i] <= 15,
        forall|k: int| 0 <= k < tokens.len() ==> token_in_range(#[trigger] tokens[k]),
    ensures
        final(w).wf(),
        final(w).bits() == old(w).bits() + tokens_bits(tokens@, ll.codes@, ll.lengths@, dist.codes@, dist.lengths@)
            + sym_bits(ll.codes@, ll.lengths@, 256),
{
    let ghost llc = ll.codes@;
    let ghost lll = ll.lengths@;
    let ghost dc = dist.codes@;
    let ghost dl = dist.lengths@;
    let mut i: usize = 0;
    while i < tokens.len()
        invariant
            i <= tokens.len(),
            w.wf(),
            llc == ll.codes@,
            lll == ll.lengths@,
            dc == dist.codes@,
            dl == dist.lengths@,
            ll.codes.len() == LITLEN_SIZE,
            ll.lengths.len() == LITLEN_SIZE,
            dist.codes.len() == DIST_SIZE,
            dist.lengths.len() == DIST_SIZE,
            forall|j: int| 0 <= j < LITLEN_SIZE ==> ll.lengths[j] <= 15,
            forall|j: int| 0 <= j < DIST_SIZE ==> dist.lengths[j] <= 15,
            forall|k: int| 0 <= k < tokens.len() ==> token_in_range(#[trigger] tokens[k]),
            w.bits() == old(w).bits() + tokens_bits(tokens@.take(i as int), llc, lll, dc, dl),
        decreases tokens.len() - i,
    {
        let ghost before = w.bits();
        proof {
            lemma_tokens_bits_step(tokens@, i as int, llc, lll, dc, dl);
        }
        let t = tokens[i];
        assert(token_in_range(tokens@[i as int]));
        match t {
            Token::Literal(b) => {
                let k = b as usize;
                w.write_huffman(ll.codes[k], ll.lengths[k] as u32);
            },
            Token::Match { length, distance } => {
                let (lc, _) = length_code(length);
                w.write_huffman(ll.codes[lc as usize], ll.lengths[lc as usize] as u32);
                let ghost b1 = w.bits();
                let extra_l = length_extra(lc);
                if extra_l > 0 {
                    proof {
                        lemma_one_shl(extra_l);
                    }
                    w.write_bits((length - length_base(lc)) as u32, extra_l);
                } else {
                    assert(b1 + low_bits((length - length_base_spec(lc as int)) as u32, 0) =~= b1);
                }
                let ghost b2 = w.bits();
                let (dcode, _) = distance_code(distance);
                w.write_huffman(dist.codes[dcode as usize], dist.lengths[dcode as usize] as u32);
                let ghost b3 = w.bits();
                let extra_d = distance_extra(dcode);
                if extra_d > 0 {
                    proof {
                        lemma_one_shl(extra_d);
                    }
                    w.write_bits((distance - distance_base(dcode)) as u32, extra_d);
                } else {
                    assert(b3 + low_bits((distance - distance_base_spec(dcode as int)) as u32, 0) =~= b3);
                }
                proof {
                    let tb = token_bits(t, llc, lll, dc, dl);
                    assert(w.bits() =~= before + tb);
                }
            },
        }
        i = i + 1;
    }
    proof {
        assert(tokens@.take(tokens.len() as int) =~= tokens@);
    }
    w.write_huffman(ll.codes[256], ll.lengths[256] as u32);
}

/// Reverse the low five bits.
fn reverse5(v: u16) -> (r: u32)
    ensures
        r < 32,
        low_bits(r, 5) == msb_bits(v as u32, 5),
{
    let ghost v32 = v as u32;
    let mut x: u32 = v as u32;
    let mut r: u32 = 0;
    assert(x == v32 >> 0u32) by (bit_vector)
        requires
            x == v32,
    ;
    let mut i: u32 = 0;
    while i < 5
        invariant
            i <= 5,
            x == v32 >> i,
            r == rev_acc(v32, i as nat),
        decreases 5 - i,
    {
        r = (r << 1) | (x & 1);
        proof {
            super::bits::lemma_shr_step(v32, x, i);
        }
        x = x >> 1;
        i = i + 1;
    }
    proof {
        lemma_rev_acc(v32, 5);
        lemma2_to64();
        super::bits::lemma_one_shl(5);
    }
    r
}

/// Write `sym` with the fixed literal/length code (RFC 1951, 3.2.6).
fn write_fixed_litlen(w: &mut BitWriter, sym: u16)
    requires
        old(w).wf(),
        sym <= 287,
    ensures
        final(w).wf(),
        final(w).bits() == old(w).bits() + fixed_sym_bits(sym as int),
{
    if sym <= 143 {
        w.write_huffman(0x30 + sym as u32, 8);
    } else if sym <= 255 {
        w.write_huffman(0x190 + (sym - 144) as u32, 9);
    } else if sym <= 279 {
        w.write_huffman((sym - 256) as u32, 7);
    } else {
        w.write_huffman(0xC0 + (sym - 280) as u32, 8);
    }
}

/// Write the tokens with the fixed codes, then end-of-block.
fn write_tokens_fixed(w: &mut BitWriter, tokens: &[Token])
    requires
        old(w).wf(),
        forall|k: int| 0 <= k < tokens.len() ==> token_in_range(#[trigger] tokens[k]),
    ensures
        final(w).wf(),
        final(w).bits() == old(w).bits() + fixed_tokens_bits(tokens@) + fixed_sym_bits(256),
{
    let mut i: usize = 0;
    while i < tokens.len()
        invariant
            i <= tokens.len(),
            w.wf(),
            forall|k: int| 0 <= k < tokens.len() ==> token_in_range(#[trigger] tokens[k]),
            w.bits() == old(w).bits() + fixed_tokens_bits(tokens@.take(i as int)),
        decreases tokens.len() - i,
    {
        let ghost before = w.bits();
        proof {
            lemma_tokens_bits_step(tokens@, i as int, Seq::empty(), Seq::empty(), Seq::empty(), Seq::empty());
        }
        let t = tokens[i];
        assert(token_in_range(tokens@[i as int]));
        match t {
            Token::Literal(b) => write_fixed_litlen(w, b as u16),
            Token::Match { length, distance } => {
                let (lc, _) = length_code(length);
                write_fixed_litlen(w, lc);
                let ghost b1 = w.bits();
                let extra_l = length_extra(lc);
                if extra_l > 0 {
                    proof {
                        super::bits::lemma_one_shl(extra_l);
                    }
                    w.write_bits((length - length_base(lc)) as u32, extra_l);
                } else {
                    assert(b1 + low_bits((length - length_base_spec(lc as int)) as u32, 0) =~= b1);
                }
                let (dcode, _) = distance_code(distance);
                let rv = reverse5(dcode);
                proof {
                    super::bits::lemma_one_shl(5);
                    lemma2_to64();
                }
                w.write_bits(rv, 5);
                let ghost b3 = w.bits();
                let extra_d = distance_extra(dcode);
                if extra_d > 0 {
                    proof {
                        super::bits::lemma_one_shl(extra_d);
                    }
                    w.write_bits((distance - distance_base(dcode)) as u32, extra_d);
                } else {
                    assert(b3 + low_bits((distance - distance_base_spec(dcode as int)) as u32, 0) =~= b3);
                }
                proof {
                    assert(w.bits() =~= before + fixed_token_bits(t));
                }
            },
        }
        i = i + 1;
    }
    proof {
        assert(tokens@.take(tokens.len() as int) =~= tokens@);
    }
    write_fixed_litlen(w, 256);
}

} // verus!

verus! {

/// Some count is positive.
pub open spec fn has_positive(s: Seq<u32>) -> bool {
    exists|j: int| 0 <= j < s.len() && #[trigger] s[j] > 0
}

proof fn lemma_sum_bump(s: Seq<u32>, k: int)
    requires
        0 <= k < s.len(),
        s[k] < u32::MAX,
    ensures
        sum_u32(s.update(k, (s[k] + 1) as u32)) == sum_u32(s) + 1,
    decreases s.len(),
{
    if k < s.len() - 1 {
        assert(s.update(k, (s[k] + 1) as u32).drop_last() =~= s.drop_last().update(k, (s[k] + 1) as u32));
        lemma_sum_bump(s.drop_last(), k);
    } else {
        assert(s.update(k, (s[k] + 1) as u32).drop_last() =~= s.drop_last());
    }
}

proof fn lemma_sum_entry(s: Seq<u32>, k: int)
    requires
        0 <= k < s.len(),
    ensures
        s[k] <= sum_u32(s),
    decreases s.len(),
{
    lemma_sum_nonneg(s.drop_last());
    if k < s.len() - 1 {
        lemma_sum_entry(s.drop_last(), k);
    }
}

proof fn lemma_sum_nonneg(s: Seq<u32>)
    ensures
        sum_u32(s) >= 0,
    decreases s.len(),
{
    if s.len() > 0 {
        lemma_sum_nonneg(s.drop_last());
    }
}

proof fn lemma_sum_zeros(n: nat)
    ensures
        sum_u32(Seq::new(n, |i: int| 0u32)) == 0,
    decreases n,
{
    if n > 0 {
        assert(Seq::new(n, |i: int| 0u32).drop_last() =~= Seq::new((n - 1) as nat, |i: int| 0u32));
        lemma_sum_zeros((n - 1) as nat);
    }
}

/// Symbol frequencies of the tokens; end-of-block counted once; at least one distance code.
fn count_freqs(tokens: &[Token]) -> (r: (Vec<u32>, Vec<u32>))
    requires
        tokens.len() < 0x7fff_ffff,
        forall|k: int| 0 <= k < tokens.len() ==> token_in_range(#[trigger] tokens[k]),
    ensures
        r.0.len() == LITLEN_SIZE,
        r.1.len() == DIST_SIZE,
        sum_u32(r.0@) == tokens.len() + 1,
        sum_u32(r.1@) <= tokens.len() + 1,
        r.0[256] > 0,
        has_positive(r.1@),
        forall|k: int| 0 <= k < tokens.len() ==> 0 <= litlen_symbol(#[trigger] tokens[k]) < LITLEN_SIZE,
        forall|k: int| 0 <= k < tokens.len() && (#[trigger] tokens[k]) is Match ==> 0 <= distance_symbol(tokens[k]->distance as int) < DIST_SIZE,
        forall|k: int| 0 <= k < tokens.len() ==> r.0[litlen_symbol(#[trigger] tokens[k])] > 0,
        forall|k: int| 0 <= k < tokens.len() && (#[trigger] tokens[k]) is Match ==> r.1[distance_symbol(tokens[k]->distance as int)] > 0,
{
    let mut ll: Vec<u32> = vec![0u32; LITLEN_SIZE];
    let mut dist: Vec<u32> = vec![0u32; DIST_SIZE];
    proof {
        assert(ll@ =~= Seq::new(LITLEN_SIZE as nat, |i: int| 0u32));
        assert(dist@ =~= Seq::new(DIST_SIZE as nat, |i: int| 0u32));
        lemma_sum_zeros(LITLEN_SIZE as nat);
        lemma_sum_zeros(DIST_SIZE as nat);
    }
    let mut i: usize = 0;
    while i < tokens.len()
        invariant
            i <= tokens.len(),
            tokens.len() < 0x7fff_ffff,
            forall|k: int| 0 <= k < tokens.len() ==> token_in_range(#[trigger] tokens[k]),
            ll.len() == LITLEN_SIZE,
            dist.len() == DIST_SIZE,
            sum_u32(ll@) == i,
            sum_u32(dist@) <= i,
            forall|k: int| 0 <= k < i ==> 0 <= litlen_symbol(#[trigger] tokens[k]) < LITLEN_SIZE,
            forall|k: int| 0 <= k < i && (#[trigger] tokens[k]) is Match ==> 0 <= distance_symbol(tokens[k]->distance as int) < DIST_SIZE,
            forall|k: int| 0 <= k < i ==> ll[litlen_symbol(#[trigger] tokens[k])] > 0,
            forall|k: int| 0 <= k < i && (#[trigger] tokens[k]) is Match ==> dist[distance_symbol(tokens[k]->distance as int)] > 0,
        decreases tokens.len() - i,
    {
        let t = tokens[i];
        assert(token_in_range(tokens@[i as int]));
        match t {
            Token::Literal(b) => {
                let k = b as usize;
                proof {
                    lemma_sum_entry(ll@, k as int);
                    lemma_sum_bump(ll@, k as int);
                }
                let c = ll[k];
                ll.set(k, c + 1);
            },
            Token::Match { length, distance } => {
                let (lc, _) = length_code(length);
                proof {
                    lemma_sum_entry(ll@, lc as int);
                    lemma_sum_bump(ll@, lc as int);
                }
                let c = ll[lc as usize];
                ll.set(lc as usize, c + 1);
                let (dc, _) = distance_code(distance);
                proof {
                    lemma_sum_entry(dist@, dc as int);
                    lemma_sum_bump(dist@, dc as int);
                }
                let c = dist[dc as usize];
                dist.set(dc as usize, c + 1);
            },
        }
        i = i + 1;
    }
    proof {
        lemma_sum_entry(ll@, 256);
        lemma_sum_bump(ll@, 256);
    }
    let c = ll[256];
    ll.set(256, c + 1);
    let mut all_zero = true;
    let mut j: usize = 0;
    while j < DIST_SIZE
        invariant
            j <= DIST_SIZE,
            dist.len() == DIST_SIZE,
            all_zero == forall|q: int| 0 <= q < j ==> dist[q] == 0,
        decreases DIST_SIZE - j,
    {
        if dist[j] != 0 {
            all_zero = false;
        }
        j = j + 1;
    }
    if all_zero {
        proof {
            lemma_sum_bump(dist@, 0);
        }
        dist.set(0, 1);
        assert(dist[0] > 0);
        assert(dist@[0] > 0);
    } else {
        let ghost q = choose|q: int| 0 <= q < DIST_SIZE && dist[q] != 0;
        assert(dist@[q] > 0);
    }
    (ll, dist)
}

/// The header has been appended: `after` is `before` plus the header bits, and the header is right.
pub open spec fn header_written(before: Seq<bool>, after: Seq<bool>, ll: Seq<u8>, dl: Seq<u8>, cl: Seq<u8>, rle: Seq<(u8, u8, u8)>) -> bool {
    &&& header_ok(ll, dl, cl, rle)
    &&& after == before + header_bits(ll, dl, cl, rle)
}

proof fn lemma_order_range()
    ensures
        forall|k: int| 0 <= k < 19 ==> #[trigger] CODE_LENGTH_ORDER@[k] < 19,
{
}

proof fn lemma_rle_len(e: Seq<(u8, u8, u8)>)
    ensures
        rle_expand(e).len() >= e.len(),
    decreases e.len(),
{
    if e.len() > 0 {
        lemma_rle_len(e.drop_last());
    }
}

proof fn lemma_cl_order_step(cl: Seq<u8>, h: int)
    requires
        h >= 0,
    ensures
        cl_order_bits(cl, h + 1) == cl_order_bits(cl, h) + low_bits(cl[CODE_LENGTH_ORDER@[h] as int] as u32, 3),
{
}

proof fn lemma_rle_bits_step(rle: Seq<(u8, u8, u8)>, k: int, codes: Seq<u32>, lens: Seq<u8>)
    requires
        0 <= k < rle.len(),
    ensures
        rle_bits(rle.take(k + 1), codes, lens) == rle_bits(rle.take(k), codes, lens) + sym_bits(codes, lens, rle[k].0 as int)
            + low_bits(rle[k].2 as u32, rle[k].1 as nat),
{
    assert(rle.take(k + 1).drop_last() =~= rle.take(k));
}

fn write_dynamic_header(w: &mut BitWriter, ll_lengths: &Vec<u8>, dist_lengths: &Vec<u8>)
    requires
        old(w).wf(),
        ll_lengths.len() == LITLEN_SIZE,
        dist_lengths.len() == DIST_SIZE,
        forall|i: int| 0 <= i < LITLEN_SIZE ==> ll_lengths[i] <= 15,
        forall|i: int| 0 <= i < DIST_SIZE ==> dist_lengths[i] <= 15,
    ensures
        final(w).wf(),
        exists|cl: Seq<u8>, rle: Seq<(u8, u8, u8)>| #[trigger] header_written(old(w).bits(), final(w).bits(), ll_lengths@, dist_lengths@, cl, rle),
{
    let ghost ll = ll_lengths@;
    let ghost dl = dist_lengths@;
    let mut ll_trim: usize = ll_lengths.len();
    while ll_trim > 257 && ll_lengths[ll_trim - 1] == 0
        invariant
            257 <= ll_trim <= LITLEN_SIZE,
            ll == ll_lengths@,
            ll_lengths.len() == LITLEN_SIZE,
            trim_len(ll, 286, 257) == trim_len(ll, ll_trim as int, 257),
        decreases ll_trim,
    {
        ll_trim = ll_trim - 1;
    }
    let mut dist_trim: usize = dist_lengths.len();
    while dist_trim > 1 && dist_lengths[dist_trim - 1] == 0
        invariant
            1 <= dist_trim <= DIST_SIZE,
            dl == dist_lengths@,
            dist_lengths.len() == DIST_SIZE,
            trim_len(dl, 30, 1) == trim_len(dl, dist_trim as int, 1),
        decreases dist_trim,
    {
        dist_trim = dist_trim - 1;
    }
    let mut all: Vec<u8> = Vec::with_capacity(ll_trim + dist_trim);
    let mut k: usize = 0;
    while k < ll_trim
        invariant
            k <= ll_trim <= LITLEN_SIZE,
            ll == ll_lengths@,
            ll_lengths.len() == LITLEN_SIZE,
            all@ == ll.take(k as int),
        decreases ll_trim - k,
    {
        proof {
            assert(ll.take(k + 1) =~= ll.take(k as int).push(ll[k as int]));
        }
        all.push(ll_lengths[k]);
        k = k + 1;
    }
    let mut k: usize = 0;
    while k < dist_trim
        invariant
            k <= dist_trim <= DIST_SIZE,
            dl == dist_lengths@,
            dist_lengths.len() == DIST_SIZE,
            all@ == ll.take(ll_trim as int) + dl.take(k as int),
        decreases dist_trim - k,
    {
        proof {
            assert(ll.take(ll_trim as int) + dl.take(k + 1) =~= (ll.take(ll_trim as int) + dl.take(k as int)).push(dl[k as int]));
        }
        all.push(dist_lengths[k]);
        k = k + 1;
    }
    assert forall|i: int| 0 <= i < all.len() implies all[i] <= 15 by {
        if i < ll_trim {
            assert(all@[i] == ll[i]);
        } else {
            assert(all@[i] == dl[i - ll_trim]);
        }
    }
    let rle = encode_code_lengths(all.as_slice());
    proof {
        lemma_rle_len(rle@);
    }
    let mut cl_freq: Vec<u32> = vec![0u32; 19];
    proof {
        assert(cl_freq@ =~= Seq::new(19, |i: int| 0u32));
        lemma_sum_zeros(19);
    }
    let mut k: usize = 0;
    while k < rle.len()
        invariant
            k <= rle.len(),
            rle.len() <= 316,
            cl_freq.len() == 19,
            sum_u32(cl_freq@) == k,
            forall|q: int| 0 <= q < rle.len() ==> rle_entry_ok(#[trigger] rle[q]),
            forall|q: int| 0 <= q < k ==> cl_freq[(#[trigger] rle[q]).0 as int] > 0,
        decreases rle.len() - k,
    {
        let (sym, _, _) = rle[k];
        assert(rle_entry_ok(rle@[k as int]));
        proof {
            lemma_sum_entry(cl_freq@, sym as int);
            lemma_sum_bump(cl_freq@, sym as int);
        }
        let c = cl_freq[sym as usize];
        cl_freq.set(sym as usize, c + 1);
        k = k + 1;
    }
    proof {
        lemma2_to64();
    }
    proof {
        super::huffman::lemma_count_used_bound(cl_freq@);
    }
    let cl_lengths = build_lengths(cl_freq.as_slice(), 7);
    proof {
        super::huffman::lemma_codes_fit_small(cl_lengths@);
    }
    let cl_tab = HuffTable::from_lengths(cl_lengths.as_slice());
    let ghost cl = cl_lengths@;
    proof {
        assert(cl_tab.codes@ =~= canon(cl));
    }
    let mut hclen: usize = 19;
    while hclen > 4 && cl_lengths[CODE_LENGTH_ORDER[hclen - 1]] == 0
        invariant
            4 <= hclen <= 19,
            cl == cl_lengths@,
            cl_lengths.len() == 19,
            hclen_of(cl, 19) == hclen_of(cl, hclen as int),
        decreases hclen,
    {
        hclen = hclen - 1;
    }
    let ghost start = w.bits();
    let hlit = ll_trim - 257;
    let hdist = dist_trim - 1;
    proof {
        lemma_one_shl(5);
        lemma_one_shl(4);
        lemma_one_shl(3);
    }
    w.write_bits(hlit as u32, 5);
    w.write_bits(hdist as u32, 5);
    w.write_bits((hclen - 4) as u32, 4);
    let ghost after_counts = w.bits();
    let mut k: usize = 0;
    while k < hclen
        invariant
            k <= hclen <= 19,
            w.wf(),
            cl == cl_lengths@,
            cl_lengths.len() == 19,
            forall|i: int| 0 <= i < 19 ==> cl[i] <= 7,
            w.bits() == after_counts + cl_order_bits(cl, k as int),
        decreases hclen - k,
    {
        let idx = CODE_LENGTH_ORDER[k];
        proof {
            lemma_cl_order_step(cl, k as int);
            lemma_one_shl(3);
            lemma2_to64();
            lemma_order_range();
            assert(idx < 19);
        }
        w.write_bits(cl_lengths[idx] as u32, 3);
        k = k + 1;
    }
    let ghost after_cl = w.bits();
    let mut k: usize = 0;
    while k < rle.len()
        invariant
            k <= rle.len(),
            w.wf(),
            cl == cl_lengths@,
            cl_tab.codes@ == canon(cl),
            cl_tab.lengths@ == cl,
            cl_lengths.len() == 19,
            forall|i: int| 0 <= i < 19 ==> cl[i] <= 7,
            forall|q: int| 0 <= q < rle.len() ==> rle_entry_ok(#[trigger] rle[q]),
            w.bits() == after_cl + rle_bits(rle@.take(k as int), canon(cl), cl),
        decreases rle.len() - k,
    {
        let (sym, extra_n, extra_v) = rle[k];
        assert(rle_entry_ok(rle@[k as int]));
        proof {
            lemma_rle_bits_step(rle@, k as int, canon(cl), cl);
        }
        let len = cl_tab.lengths[sym as usize];
        w.write_huffman(cl_tab.codes[sym as usize], len as u32);
        let ghost mid = w.bits();
        if extra_n > 0 {
            proof {
                lemma_one_shl(extra_n as u32);
                lemma2_to64();
            }
            w.write_bits(extra_v as u32, extra_n as u32);
        } else {
            assert(mid + low_bits(extra_v as u32, 0) =~= mid);
        }
        proof {
            assert(w.bits() =~= after_cl + (rle_bits(rle@.take(k as int), canon(cl), cl) + sym_bits(canon(cl), cl, sym as int)
                + low_bits(extra_v as u32, extra_n as nat)));
        }
        k = k + 1;
    }
    proof {
        assert(rle@.take(rle.len() as int) =~= rle@);
        assert(w.bits() =~= start + header_bits(ll, dl, cl, rle@));
        assert(header_ok(ll, dl, cl, rle@));
        assert(header_written(old(w).bits(), w.bits(), ll, dl, cl, rle@));
    }
}

} // verus!

verus! {

/// `after` extends `before` by a dynamic block for the tokens.
pub open spec fn block_written(before: Seq<bool>, after: Seq<bool>, toks: Seq<Token>, bfinal: bool, ll: Seq<u8>, dl: Seq<u8>, cl: Seq<u8>, rle: Seq<(u8, u8, u8)>) -> bool {
    exists|bits: Seq<bool>| #[trigger] is_dynamic_block(bits, toks, bfinal, ll, dl, cl, rle) && after == before + bits
}

fn any_nonzero(s: &Vec<u8>) -> (r: bool)
    ensures
        r == exists|i: int| 0 <= i < s.len() && #[trigger] s[i] > 0,
{
    let mut i: usize = 0;
    while i < s.len()
        invariant
            i <= s.len(),
            forall|j: int| 0 <= j < i ==> s[j] == 0,
        decreases s.len() - i,
    {
        if s[i] > 0 {
            return true;
        }
        i = i + 1;
    }
    false
}

fn write_block(w: &mut BitWriter, tokens: &[Token], bfinal: bool)
    requires
        old(w).wf(),
        tokens.len() < 0x7fff_ffff,
        forall|k: int| 0 <= k < tokens.len() ==> token_in_range(#[trigger] tokens[k]),
    ensures
        final(w).wf(),
        exists|ll: Seq<u8>, dl: Seq<u8>, cl: Seq<u8>, rle: Seq<(u8, u8, u8)>|
            #[trigger] block_written(old(w).bits(), final(w).bits(), tokens@, bfinal, ll, dl, cl, rle),
{
    let (ll_freq, dist_freq) = count_freqs(tokens);
    proof {
        lemma2_to64();
    }
    proof {
        super::huffman::lemma_count_used_bound(ll_freq@);
        super::huffman::lemma_count_used_bound(dist_freq@);
    }
    let ll_lengths = build_lengths(ll_freq.as_slice(), 15);
    let dist_lengths = build_lengths(dist_freq.as_slice(), 15);
    proof {
        super::huffman::lemma_codes_fit_small(ll_lengths@);
        super::huffman::lemma_codes_fit_small(dist_lengths@);
    }
    let ll_tab = HuffTable::from_lengths(ll_lengths.as_slice());
    let dist_tab = HuffTable::from_lengths(dist_lengths.as_slice());
    let ghost ll = ll_lengths@;
    let ghost dl = dist_lengths@;
    proof {
        assert(ll_tab.codes@ =~= canon(ll));
        assert(dist_tab.codes@ =~= canon(dl));
        let j = choose|j: int| 0 <= j < dist_freq@.len() && #[trigger] dist_freq@[j] > 0;
        assert(dl[j] > 0);
        assert(ll[256] > 0);
        assert forall|k: int| 0 <= k < tokens.len() implies ll[litlen_symbol(#[trigger] tokens@[k])] != 0 by {
            assert(ll_freq@[litlen_symbol(tokens@[k])] > 0);
        }
        assert forall|k: int| 0 <= k < tokens.len() && (#[trigger] tokens@[k]) is Match implies dl[distance_symbol(tokens@[k]->distance as int)] != 0 by {
            assert(dist_freq@[distance_symbol(tokens@[k]->distance as int)] > 0);
        }
        assert(block_lengths_ok(tokens@, ll, dl));
    }
    let dyn_ok = any_nonzero(&ll_lengths) && any_nonzero(&dist_lengths);
    let ghost start = w.bits();
    if dyn_ok {
        proof {
            super::bits::lemma_one_shl(1);
            super::bits::lemma_one_shl(2);
        }
        w.write_bits(if bfinal { 1 } else { 0 }, 1);
        w.write_bits(0b10, 2);
        let ghost after_type = w.bits();
        write_dynamic_header(w, &ll_lengths, &dist_lengths);
        let ghost after_header = w.bits();
        write_tokens(w, tokens, &ll_tab, &dist_tab);
        proof {
            let (cl, rle) = choose|cl: Seq<u8>, rle: Seq<(u8, u8, u8)>| #[trigger] header_written(after_type, after_header, ll, dl, cl, rle);
            let bits = low_bits(if bfinal { 1u32 } else { 0u32 }, 1) + low_bits(2, 2) + dynamic_block(tokens@, ll, dl, cl, rle);
            assert(w.bits() =~= start + bits);
            assert(is_dynamic_block(bits, tokens@, bfinal, ll, dl, cl, rle));
            assert(block_written(start, w.bits(), tokens@, bfinal, ll, dl, cl, rle));
        }
    } else {
        proof {
            assert(ll[256] > 0);
            let j = choose|j: int| 0 <= j < dist_freq@.len() && #[trigger] dist_freq@[j] > 0;
            assert(dl[j] > 0);
        }
        w.write_bits(if bfinal { 1 } else { 0 }, 1);
        w.write_bits(0b01, 2);
        write_tokens_fixed(w, tokens);
    }
}

proof fn lemma_span_facts(data: Seq<u8>, toks: Seq<Token>, from: int, to: int)
    requires
        super::lz77::valid_span(data, toks, from, to),
    ensures
        toks.len() <= to - from,
        forall|k: int| 0 <= k < toks.len() ==> token_in_range(#[trigger] toks[k]),
    decreases toks.len(),
{
    if toks.len() > 0 {
        let t = toks.last();
        let s = to - super::lz77::token_len(t);
        lemma_span_facts(data, toks.drop_last(), from, s);
        assert forall|k: int| 0 <= k < toks.len() implies token_in_range(#[trigger] toks[k]) by {
            if k < toks.len() - 1 {
                assert(toks[k] == toks.drop_last()[k]);
            }
        }
    }
}

/// DEFLATE-compress `data` as one final dynamic block.
fn compress_deflate(data: &[u8]) -> (out: Vec<u8>)
    requires
        data.len() < 0x7fff_ffff,
    ensures
        deflate_stream(out@, data@),
{
    let tokens = parse(data);
    proof {
        lemma_span_facts(data@, tokens@, 0, data.len() as int);
    }
    let mut w = BitWriter::new();
    write_block(&mut w, tokens.as_slice(), true);
    let ghost bits = w.bits();
    proof {
        w.lemma_bits_len();
        assert(pad_len(w.pending()) == pad_len(bits.len()));
    }
    let out = w.finish();
    proof {
        let (ll, dl, cl, rle) = choose|ll: Seq<u8>, dl: Seq<u8>, cl: Seq<u8>, rle: Seq<(u8, u8, u8)>|
            #[trigger] block_written(Seq::<bool>::empty(), bits, tokens@, true, ll, dl, cl, rle);
        let b = choose|b: Seq<bool>| #[trigger] is_dynamic_block(b, tokens@, true, ll, dl, cl, rle) && bits == Seq::<bool>::empty() + b;
        assert(b =~= bits);
        assert(is_dynamic_block(bits, tokens@, true, ll, dl, cl, rle));
        assert(chosen_parse(data@, tokens@));
        assert(bytes_bits(out@) == bits + zero_bits(pad_len(bits.len())));
    }
    out
}

proof fn lemma_be_bytes(a: u32)
    ensures
        ((a >> 24u32) & 0xffu32) == a / 0x100_0000 % 256,
        ((a >> 16u32) & 0xffu32) == a / 0x1_0000 % 256,
        ((a >> 8u32) & 0xffu32) == a / 0x100 % 256,
        (a & 0xffu32) == a % 256,
{
    assert(((a >> 24u32) & 0xffu32) == a / 0x100_0000 % 256 && ((a >> 16u32) & 0xffu32) == a / 0x1_0000 % 256
        && ((a >> 8u32) & 0xffu32) == a / 0x100 % 256 && (a & 0xffu32) == a % 256) by (bit_vector);
}

/// Zlib stream (RFC 1950): header `78 DA`, one DEFLATE block, Adler-32 of `data` big-endian.
pub fn compress_zlib(data: &[u8]) -> (out: Vec<u8>)
    requires
        data.len() < 0x7fff_ffff,
    ensures
        out@.len() >= 6,
        out@[0] == 0x78,
        out@[1] == 0xDA,
        out@.subrange(out@.len() - 4, out@.len() as int) == be32(adler32_spec(data@)),
        deflate_stream(out@.subrange(2, out@.len() - 4), data@),
{
    let mut out: Vec<u8> = Vec::with_capacity(data.len() / 2 + 16);
    out.push(0x78);
    out.push(0xDA);
    let body = compress_deflate(data);
    let mut k: usize = 0;
    while k < body.len()
        invariant
            k <= body.len(),
            out@ == seq![0x78u8, 0xDAu8] + body@.take(k as int),
        decreases body.len() - k,
    {
        proof {
            assert(seq![0x78u8, 0xDAu8] + body@.take(k + 1) =~= (seq![0x78u8, 0xDAu8] + body@.take(k as int)).push(body@[k as int]));
        }
        out.push(body[k]);
        k = k + 1;
    }
    let a = adler32(data);
    proof {
        lemma_be_bytes(a);
        assert(body@.take(body.len() as int) =~= body@);
    }
    out.push(((a >> 24) & 0xff) as u8);
    out.push(((a >> 16) & 0xff) as u8);
    out.push(((a >> 8) & 0xff) as u8);
    out.push((a & 0xff) as u8);
    proof {
        assert(out@.subrange(out@.len() - 4, out@.len() as int) =~= be32(adler32_spec(data@)));
        assert(out@.subrange(2, out@.len() - 4) =~= body@);
        lemma_stream_nonempty(body@, data@);
    }
    out
}

proof fn lemma_stream_nonempty(out: Seq<u8>, data: Seq<u8>)
    requires
        deflate_stream(out, data),
    ensures
        out.len() >= 1,
{
    let (toks, bits, ll, dl, cl, rle) = choose|toks: Seq<Token>, bits: Seq<bool>, ll: Seq<u8>, dl: Seq<u8>, cl: Seq<u8>, rle: Seq<(u8, u8, u8)>|
        #![trigger is_dynamic_block(bits, toks, true, ll, dl, cl, rle), chosen_parse(data, toks)]
        {
            &&& chosen_parse(data, toks)
            &&& is_dynamic_block(bits, toks, true, ll, dl, cl, rle)
            &&& bytes_bits(out) == bits + zero_bits(pad_len(bits.len()))
        };
    super::bits::lemma_bytes_bits_len(out);
    assert(bits.len() >= 3);
}

} // verus!
