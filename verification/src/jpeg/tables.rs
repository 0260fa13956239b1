//! ITU-T T.81 Annex K tables: quantisation, Huffman, zigzag order.

use vstd::prelude::*;

verus! {

/// Annex K.1 luminance quantisation table, natural (row-major) order.
pub const LUMA_QUANT: [u8; 64] = [
    16, 11, 10, 16, 24, 40, 51, 61,
    12, 12, 14, 19, 26, 58, 60, 55,
    14, 13, 16, 24, 40, 57, 69, 56,
    14, 17, 22, 29, 51, 87, 80, 62,
    18, 22, 37, 56, 68, 109, 103, 77,
    24, 35, 55, 64, 81, 104, 113, 92,
    49, 64, 78, 87, 103, 121, 120, 101,
    72, 92, 95, 98, 112, 100, 103, 99,
];

/// Annex K.2 chrominance quantisation table, natural order.
pub const CHROMA_QUANT: [u8; 64] = [
    17, 18, 24, 47, 99, 99, 99, 99,
    18, 21, 26, 66, 99, 99, 99, 99,
    24, 26, 56, 99, 99, 99, 99, 99,
    47, 66, 99, 99, 99, 99, 99, 99,
    99, 99, 99, 99, 99, 99, 99, 99,
    99, 99, 99, 99, 99, 99, 99, 99,
    99, 99, 99, 99, 99, 99, 99, 99,
    99, 99, 99, 99, 99, 99, 99, 99,
];

/// Zigzag scan position to natural index.
pub const ZIGZAG: [u8; 64] = [
    0, 1, 8, 16, 9, 2, 3, 10,
    17, 24, 32, 25, 18, 11, 4, 5,
    12, 19, 26, 33, 40, 48, 41, 34,
    27, 20, 13, 6, 7, 14, 21, 28,
    35, 42, 49, 56, 57, 50, 43, 36,
    29, 22, 15, 23, 30, 37, 44, 51,
    58, 59, 52, 45, 38, 31, 39, 46,
    53, 60, 61, 54, 47, 55, 62, 63,
];

/// Annex K.3 luminance DC code counts per length 1..=16.
pub const LUMA_DC_BITS: [u8; 16] = [0, 1, 5, 1, 1, 1, 1, 1, 1, 0, 0, 0, 0, 0, 0, 0];

/// Annex K.3 luminance DC symbols.
pub const LUMA_DC_VALS: [u8; 12] = [0, 1, 2, 3, 4, 5, 6, 7, 8, 9, 10, 11];

/// Annex K.3 chrominance DC code counts.
pub const CHROMA_DC_BITS: [u8; 16] = [0, 3, 1, 1, 1, 1, 1, 1, 1, 1, 1, 0, 0, 0, 0, 0];

/// Annex K.3 chrominance DC symbols.
pub const CHROMA_DC_VALS: [u8; 12] = [0, 1, 2, 3, 4, 5, 6, 7, 8, 9, 10, 11];

/// Annex K.3 luminance AC code counts.
pub const LUMA_AC_BITS: [u8; 16] = [0, 2, 1, 3, 3, 2, 4, 3, 5, 5, 4, 4, 0, 0, 1, 0x7d];

/// Annex K.3 luminance AC symbols.
pub const LUMA_AC_VALS: [u8; 162] = [
    0x01, 0x02, 0x03, 0x00, 0x04, 0x11, 0x05, 0x12, 0x21, 0x31, 0x41, 0x06, 0x13, 0x51, 0x61, 0x07,
    0x22, 0x71, 0x14, 0x32, 0x81, 0x91, 0xa1, 0x08, 0x23, 0x42, 0xb1, 0xc1, 0x15, 0x52, 0xd1, 0xf0,
    0x24, 0x33, 0x62, 0x72, 0x82, 0x09, 0x0a, 0x16, 0x17, 0x18, 0x19, 0x1a, 0x25, 0x26, 0x27, 0x28,
    0x29, 0x2a, 0x34, 0x35, 0x36, 0x37, 0x38, 0x39, 0x3a, 0x43, 0x44, 0x45, 0x46, 0x47, 0x48, 0x49,
    0x4a, 0x53, 0x54, 0x55, 0x56, 0x57, 0x58, 0x59, 0x5a, 0x63, 0x64, 0x65, 0x66, 0x67, 0x68, 0x69,
    0x6a, 0x73, 0x74, 0x75, 0x76, 0x77, 0x78, 0x79, 0x7a, 0x83, 0x84, 0x85, 0x86, 0x87, 0x88, 0x89,
    0x8a, 0x92, 0x93, 0x94, 0x95, 0x96, 0x97, 0x98, 0x99, 0x9a, 0xa2, 0xa3, 0xa4, 0xa5, 0xa6, 0xa7,
    0xa8, 0xa9, 0xaa, 0xb2, 0xb3, 0xb4, 0xb5, 0xb6, 0xb7, 0xb8, 0xb9, 0xba, 0xc2, 0xc3, 0xc4, 0xc5,
    0xc6, 0xc7, 0xc8, 0xc9, 0xca, 0xd2, 0xd3, 0xd4, 0xd5, 0xd6, 0xd7, 0xd8, 0xd9, 0xda, 0xe1, 0xe2,
    0xe3, 0xe4, 0xe5, 0xe6, 0xe7, 0xe8, 0xe9, 0xea, 0xf1, 0xf2, 0xf3, 0xf4, 0xf5, 0xf6, 0xf7, 0xf8,
    0xf9, 0xfa,
];

/// Annex K.3 chrominance AC code counts.
pub const CHROMA_AC_BITS: [u8; 16] = [0, 2, 1, 2, 4, 4, 3, 4, 7, 5, 4, 4, 0, 1, 2, 0x77];

/// Annex K.3 chrominance AC symbols.
pub const CHROMA_AC_VALS: [u8; 162] = [
    0x00, 0x01, 0x02, 0x03, 0x11, 0x04, 0x05, 0x21, 0x31, 0x06, 0x12, 0x41, 0x51, 0x07, 0x61, 0x71,
    0x13, 0x22, 0x32, 0x81, 0x08, 0x14, 0x42, 0x91, 0xa1, 0xb1, 0xc1, 0x09, 0x23, 0x33, 0x52, 0xf0,
    0x15, 0x62, 0x72, 0xd1, 0x0a, 0x16, 0x24, 0x34, 0xe1, 0x25, 0xf1, 0x17, 0x18, 0x19, 0x1a, 0x26,
    0x27, 0x28, 0x29, 0x2a, 0x35, 0x36, 0x37, 0x38, 0x39, 0x3a, 0x43, 0x44, 0x45, 0x46, 0x47, 0x48,
    0x49, 0x4a, 0x53, 0x54, 0x55, 0x56, 0x57, 0x58, 0x59, 0x5a, 0x63, 0x64, 0x65, 0x66, 0x67, 0x68,
    0x69, 0x6a, 0x73, 0x74, 0x75, 0x76, 0x77, 0x78, 0x79, 0x7a, 0x82, 0x83, 0x84, 0x85, 0x86, 0x87,
    0x88, 0x89, 0x8a, 0x92, 0x93, 0x94, 0x95, 0x96, 0x97, 0x98, 0x99, 0x9a, 0xa2, 0xa3, 0xa4, 0xa5,
    0xa6, 0xa7, 0xa8, 0xa9, 0xaa, 0xb2, 0xb3, 0xb4, 0xb5, 0xb6, 0xb7, 0xb8, 0xb9, 0xba, 0xc2, 0xc3,
    0xc4, 0xc5, 0xc6, 0xc7, 0xc8, 0xc9, 0xca, 0xd2, 0xd3, 0xd4, 0xd5, 0xd6, 0xd7, 0xd8, 0xd9, 0xda,
    0xe2, 0xe3, 0xe4, 0xe5, 0xe6, 0xe7, 0xe8, 0xe9, 0xea, 0xf2, 0xf3, 0xf4, 0xf5, 0xf6, 0xf7, 0xf8,
    0xf9, 0xfa,
];

/// A Huffman table as a DHT segment carries it: code counts per length, then the symbols
/// in code order. Codes are assigned canonically (T.81 Annex C).
pub struct HuffSpec {
    pub bits: [u8; 16],
    pub vals: Vec<u8>,
}

/// Number of codes shorter than `len` bits (`len` in 1..=17).
pub open spec fn codes_before(bits: Seq<u8>, len: int) -> int
    decreases len,
{
    if len <= 1 {
        0
    } else {
        codes_before(bits, len - 1) + bits[len - 2]
    }
}

/// First canonical code of length `len`.
pub open spec fn first_code(bits: Seq<u8>, len: int) -> int
    decreases len,
{
    if len <= 1 {
        0
    } else {
        (first_code(bits, len - 1) + bits[len - 2]) * 2
    }
}

/// Length of the code of the symbol at position `k`: the first length from `l` on whose
/// codes reach past `k`, or 0 past the last code.
pub open spec fn code_len_from(bits: Seq<u8>, k: int, l: int) -> int
    decreases 17 - l,
{
    if l > 16 {
        0
    } else if k < codes_before(bits, l + 1) {
        l
    } else {
        code_len_from(bits, k, l + 1)
    }
}

/// Position of the first occurrence of `symbol` in `vals` from `k` on, if any.
pub open spec fn symbol_pos_from(vals: Seq<u8>, symbol: u8, k: int) -> Option<int>
    decreases vals.len() - k,
{
    if k < 0 || k >= vals.len() {
        None
    } else if vals[k] == symbol {
        Some(k)
    } else {
        symbol_pos_from(vals, symbol, k + 1)
    }
}

/// The canonical (code, length) of `symbol`; (0, 0) for a symbol the table lacks.
pub open spec fn huff_code(bits: Seq<u8>, vals: Seq<u8>, symbol: u8) -> (u32, u8) {
    match symbol_pos_from(vals, symbol, 0) {
        Some(k) => {
            let l = code_len_from(bits, k, 1);
            if l == 0 {
                (0, 0)
            } else {
                ((first_code(bits, l) + (k - codes_before(bits, l))) as u32, l as u8)
            }
        },
        None => (0, 0),
    }
}

/// A table whose code counts describe every symbol and whose codes fit their lengths.
pub open spec fn huff_wf(bits: Seq<u8>, vals: Seq<u8>) -> bool {
    &&& bits.len() == 16
    &&& codes_before(bits, 17) == vals.len()
    &&& lengths_fit(bits, 1)
}

/// The codes of every length from `l` to 16 fit in that many bits.
pub open spec fn lengths_fit(bits: Seq<u8>, l: int) -> bool
    decreases 17 - l,
{
    l > 16 || (first_code(bits, l) + bits[l - 1] <= pow2_16(l) && lengths_fit(bits, l + 1))
}

/// `2^l` for code lengths.
pub open spec fn pow2_16(l: int) -> int
    decreases l,
{
    if l <= 0 { 1 } else { 2 * pow2_16(l - 1) }
}

proof fn lemma_lengths_fit(bits: Seq<u8>, from: int, l: int)
    requires
        1 <= from <= l <= 16,
        lengths_fit(bits, from),
    ensures
        first_code(bits, l) + bits[l - 1] <= pow2_16(l),
    decreases l - from,
{
    if from < l {
        lemma_lengths_fit(bits, from + 1, l);
    }
}

proof fn lemma_codes_before_mono(bits: Seq<u8>, a: int, b: int)
    requires
        1 <= a <= b,
    ensures
        codes_before(bits, a) <= codes_before(bits, b),
    decreases b - a,
{
    if a < b {
        lemma_codes_before_mono(bits, a, b - 1);
    }
}

proof fn lemma_pow2_16(l: int)
    requires
        0 <= l <= 16,
    ensures
        1 <= pow2_16(l) <= 65536,
    decreases 16 - l,
{
    if l < 16 {
        lemma_pow2_16(l + 1);
    } else {
        reveal_with_fuel(pow2_16, 17);
    }
}

impl HuffSpec {
    /// The canonical code and its length for `symbol`; `(0, 0)` when the table lacks it.
    pub fn code(&self, symbol: u8) -> (r: (u32, u8))
        requires
            huff_wf(self.bits@, self.vals@),
        ensures
            r == huff_code(self.bits@, self.vals@, symbol),
            r.1 <= 16,
            r.0 < pow2_16(r.1 as int),
    {
        let ghost bits = self.bits@;
        let ghost vals = self.vals@;
        let mut k: usize = 0;
        while k < self.vals.len() && self.vals[k] != symbol
            invariant
                k <= self.vals.len(),
                vals == self.vals@,
                symbol_pos_from(vals, symbol, 0) == symbol_pos_from(vals, symbol, k as int),
            decreases self.vals.len() - k,
        {
            k = k + 1;
        }
        if k == self.vals.len() {
            proof {
                lemma_pow2_16(0);
            }
            return (0, 0);
        }
        let mut code: u32 = 0;
        let mut idx: usize = 0;
        let mut l: usize = 1;
        proof {
            lemma_codes_before_mono(bits, 1, 17);
        }
        while l <= 16
            invariant
                1 <= l <= 17,
                bits == self.bits@,
                vals == self.vals@,
                huff_wf(bits, vals),
                k < vals.len(),
                symbol_pos_from(vals, symbol, 0) == Some(k as int),
                idx == codes_before(bits, l as int),
                code == first_code(bits, l as int),
                code <= 65536,
                k >= idx,
                code_len_from(bits, k as int, 1) == code_len_from(bits, k as int, l as int),
            decreases 17 - l,
        {
            let cnt = self.bits[l - 1] as usize;
            proof {
                lemma_lengths_fit(bits, 1, l as int);
                lemma_pow2_16(l as int);
                lemma_codes_before_mono(bits, l as int + 1, 17);
                assert(cnt == bits[l - 1]);
                assert(codes_before(bits, l as int + 1) == idx + cnt);
                assert(codes_before(bits, 17) == vals.len());
                assert(codes_before(bits, l as int + 1) <= codes_before(bits, 17));
                assert(idx + cnt <= self.vals.len());
            }
            if k < idx + cnt {
                let c = code + (k - idx) as u32;
                return (c, l as u8);
            }
            idx = idx + cnt;
            code = (code + cnt as u32) * 2;
            proof {
                lemma_pow2_16(l as int);
                assert(pow2_16(l as int) * 2 <= 131072);
            }
            l = l + 1;
            proof {
                if l <= 16 {
                    lemma_lengths_fit(bits, 1, l as int);
                    lemma_pow2_16(l as int);
                }
            }
        }
        proof {
            lemma_codes_before_mono(bits, 17, 17);
            assert(false);
        }
        (0, 0)
    }
}

proof fn lemma_table_wf(bits: Seq<u8>, vals_len: nat)
    requires
        bits.len() == 16,
        codes_before(bits, 17) == vals_len,
        lengths_fit(bits, 1),
    ensures
        forall|vals: Seq<u8>| vals.len() == vals_len ==> #[trigger] huff_wf(bits, vals),
{
}

/// The four Annex K tables are well formed.
proof fn lemma_standard_tables_wf()
    ensures
        forall|v: Seq<u8>| v.len() == 12 ==> #[trigger] huff_wf(LUMA_DC_BITS@, v),
        forall|v: Seq<u8>| v.len() == 12 ==> #[trigger] huff_wf(CHROMA_DC_BITS@, v),
        forall|v: Seq<u8>| v.len() == 162 ==> #[trigger] huff_wf(LUMA_AC_BITS@, v),
        forall|v: Seq<u8>| v.len() == 162 ==> #[trigger] huff_wf(CHROMA_AC_BITS@, v),
{
    reveal_with_fuel(codes_before, 17);
    reveal_with_fuel(first_code, 17);
    reveal_with_fuel(lengths_fit, 17);
    reveal_with_fuel(pow2_16, 17);
    assert(LUMA_DC_BITS@ =~= seq![0u8, 1, 5, 1, 1, 1, 1, 1, 1, 0, 0, 0, 0, 0, 0, 0]);
    assert(CHROMA_DC_BITS@ =~= seq![0u8, 3, 1, 1, 1, 1, 1, 1, 1, 1, 1, 0, 0, 0, 0, 0]);
    assert(LUMA_AC_BITS@ =~= seq![0u8, 2, 1, 3, 3, 2, 4, 3, 5, 5, 4, 4, 0, 0, 1, 0x7d]);
    assert(CHROMA_AC_BITS@ =~= seq![0u8, 2, 1, 2, 4, 4, 3, 4, 7, 5, 4, 4, 0, 1, 2, 0x77]);
    lemma_table_wf(LUMA_DC_BITS@, 12);
    lemma_table_wf(CHROMA_DC_BITS@, 12);
    lemma_table_wf(LUMA_AC_BITS@, 162);
    lemma_table_wf(CHROMA_AC_BITS@, 162);
}

fn copy_vals(src: &[u8]) -> (v: Vec<u8>)
    ensures
        v@ == src@,
{
    let mut v: Vec<u8> = Vec::new();
    let mut i: usize = 0;
    while i < src.len()
        invariant
            i <= src.len(),
            v@ == src@.take(i as int),
        decreases src.len() - i,
    {
        v.push(src[i]);
        i = i + 1;
        proof {
            assert(v@ =~= src@.take(i as int));
        }
    }
    proof {
        assert(src@.take(i as int) =~= src@);
    }
    v
}

impl HuffSpec {
    /// Annex K luminance DC table.
    pub fn luma_dc() -> (h: HuffSpec)
        ensures
            h.bits@ == LUMA_DC_BITS@,
            h.vals@ == LUMA_DC_VALS@,
            huff_wf(h.bits@, h.vals@),
    {
        proof {
            lemma_standard_tables_wf();
        }
        HuffSpec { bits: LUMA_DC_BITS, vals: copy_vals(&LUMA_DC_VALS) }
    }

    /// Annex K chrominance DC table.
    pub fn chroma_dc() -> (h: HuffSpec)
        ensures
            h.bits@ == CHROMA_DC_BITS@,
            h.vals@ == CHROMA_DC_VALS@,
            huff_wf(h.bits@, h.vals@),
    {
        proof {
            lemma_standard_tables_wf();
        }
        HuffSpec { bits: CHROMA_DC_BITS, vals: copy_vals(&CHROMA_DC_VALS) }
    }

    /// Annex K luminance AC table.
    pub fn luma_ac() -> (h: HuffSpec)
        ensures
            h.bits@ == LUMA_AC_BITS@,
            h.vals@ == LUMA_AC_VALS@,
            huff_wf(h.bits@, h.vals@),
    {
        proof {
            lemma_standard_tables_wf();
        }
        HuffSpec { bits: LUMA_AC_BITS, vals: copy_vals(&LUMA_AC_VALS) }
    }

    /// Annex K chrominance AC table.
    pub fn chroma_ac() -> (h: HuffSpec)
        ensures
            h.bits@ == CHROMA_AC_BITS@,
            h.vals@ == CHROMA_AC_VALS@,
            huff_wf(h.bits@, h.vals@),
    {
        proof {
            lemma_standard_tables_wf();
        }
        HuffSpec { bits: CHROMA_AC_BITS, vals: copy_vals(&CHROMA_AC_VALS) }
    }
}

} // verus!
