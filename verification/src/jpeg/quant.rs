//! Quality scaling of quantisation tables, as libjpeg does it.

use vstd::prelude::*;

verus! {

/// Quality clamped to 1..=100.
pub open spec fn clamp_quality(quality: u8) -> int {
    if quality < 1 { 1 } else if quality > 100 { 100 } else { quality as int }
}

/// libjpeg's percentage for a quality: `5000 / q` below 50, `200 - 2q` from 50 on.
pub open spec fn quality_scale(quality: u8) -> int {
    let q = clamp_quality(quality);
    if q < 50 { 5000int / q } else { 200 - q * 2 }
}

/// One scaled entry: `(base * scale + 50) / 100`, clamped to 1..=255.
pub open spec fn scaled_entry(base: u8, quality: u8) -> u8 {
    let v = (base * quality_scale(quality) + 50) / 100;
    (if v < 1 { 1 } else if v > 255 { 255 } else { v }) as u8
}

/// Scale an Annex K table for `quality` (clamped to 1..=100).
pub fn scale_table(base: &[u8; 64], quality: u8) -> (out: [u8; 64])
    ensures
        forall|i: int| 0 <= i < 64 ==> #[trigger] out@[i] == scaled_entry(base@[i], quality),
{
    let q: i32 = if quality < 1 { 1 } else if quality > 100 { 100 } else { quality as i32 };
    let s: i32 = if q < 50 { 5000 / q } else { 200 - q * 2 };
    proof {
        assert(0 <= s <= 5000) by (nonlinear_arith)
            requires
                1 <= q <= 100,
                s == (if q < 50 { 5000int / (q as int) } else { 200 - q * 2 }),
        ;
    }
    let mut out = [0u8; 64];
    let mut i: usize = 0;
    while i < 64
        invariant
            i <= 64,
            q == clamp_quality(quality),
            s == quality_scale(quality),
            0 <= s <= 5000,
            forall|j: int| 0 <= j < i ==> #[trigger] out@[j] == scaled_entry(base@[j], quality),
        decreases 64 - i,
    {
        proof {
            let b = base@[i as int] as int;
            assert(b * s <= 255 * 5000) by (nonlinear_arith)
                requires
                    0 <= b <= 255,
                    0 <= s <= 5000,
            ;
            assert(b * s >= 0) by (nonlinear_arith)
                requires
                    0 <= b,
                    0 <= s,
            ;
        }
        let v = (base[i] as i32 * s + 50) / 100;
        let c: u8 = if v < 1 { 1 } else if v > 255 { 255 } else { v as u8 };
        out[i] = c;
        i = i + 1;
    }
    out
}

} // verus!
