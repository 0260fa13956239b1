//! PNG predictors (ISO 32000 `/DecodeParms /Predictor 10..15`) and TIFF predictor 2.

use vstd::prelude::*;
use vstd::wrapping::u8_specs::{wrapping_add, wrapping_sub};

verus! {

/// The Paeth predictor (PNG): whichever of left, up, up-left is nearest to `a + b - c`.
pub open spec fn paeth_spec(a: u8, b: u8, c: u8) -> u8 {
    let p = a + b - c;
    let pa = if p - a < 0 { a - p } else { p - a };
    let pb = if p - b < 0 { b - p } else { p - b };
    let pc = if p - c < 0 { c - p } else { p - c };
    if pa <= pb && pa <= pc {
        a
    } else if pb <= pc {
        b
    } else {
        c
    }
}

/// Prediction of PNG filter `kind` from the left, upper and upper-left samples (kind 4 and above: Paeth).
pub open spec fn predict(kind: u8, left: u8, up: u8, up_left: u8) -> u8 {
    if kind == 0 {
        0
    } else if kind == 1 {
        left
    } else if kind == 2 {
        up
    } else if kind == 3 {
        ((left + up) / 2) as u8
    } else {
        paeth_spec(left, up, up_left)
    }
}

/// `s[i - bpp]`, or 0 before the start of the row.
pub open spec fn back(s: Seq<u8>, i: int, bpp: int) -> u8 {
    if i >= bpp {
        s[i - bpp]
    } else {
        0
    }
}

/// A row after PNG filter `kind`, given the row above.
pub open spec fn filter_spec(kind: u8, raw: Seq<u8>, prev: Seq<u8>, bpp: int) -> Seq<u8> {
    Seq::new(raw.len(), |i: int| wrapping_sub(raw[i], predict(kind, back(raw, i, bpp), prev[i], back(prev, i, bpp))))
}

/// The first `n` samples of a row rebuilt from filtered bytes (kinds 0..=4).
pub open spec fn unfilter_spec(kind: u8, filt: Seq<u8>, prev: Seq<u8>, bpp: int, n: nat) -> Seq<u8>
    decreases n,
{
    if n == 0 {
        Seq::empty()
    } else {
        let u = unfilter_spec(kind, filt, prev, bpp, (n - 1) as nat);
        let i = n - 1;
        let left = if bpp > 0 && i >= bpp { u[i - bpp] } else { 0u8 };
        u.push(wrapping_add(filt[i], predict(kind, left, prev[i], back(prev, i, bpp))))
    }
}

/// Distance between two integers.
pub open spec fn dist(x: int, y: int) -> int {
    if x >= y { x - y } else { y - x }
}

/// The PNG standard's Paeth choice: `v` is whichever of `a` (left), `b` (up) and `c`
/// (up-left) is nearest to `a + b - c`, ties going to `a`, then to `b`.
pub open spec fn paeth_choice(a: u8, b: u8, c: u8, v: u8) -> bool {
    let p = a + b - c;
    &&& v == a || v == b || v == c
    &&& dist(p, v as int) <= dist(p, a as int)
    &&& dist(p, v as int) <= dist(p, b as int)
    &&& dist(p, v as int) <= dist(p, c as int)
    &&& dist(p, a as int) <= dist(p, b as int) && dist(p, a as int) <= dist(p, c as int) ==> v == a
    &&& dist(p, b as int) <= dist(p, c as int) ==> v == a || v == b
}

/// The Paeth predictor picks the neighbour nearest to `a + b - c`, as the PNG standard says.
pub proof fn lemma_paeth_nearest(a: u8, b: u8, c: u8)
    ensures
        paeth_choice(a, b, c, paeth_spec(a, b, c)),
        paeth_choice(a, b, c, predict(4, a, b, c)),
{
}

proof fn lemma_unfilter_at(kind: u8, filt: Seq<u8>, prev: Seq<u8>, bpp: int, n: nat)
    requires
        bpp >= 1,
    ensures
        unfilter_spec(kind, filt, prev, bpp, n).len() == n,
        forall|i: int| 0 <= i < n ==> #[trigger] unfilter_spec(kind, filt, prev, bpp, n)[i] == wrapping_add(filt[i],
            predict(kind, back(unfilter_spec(kind, filt, prev, bpp, n), i, bpp), prev[i], back(prev, i, bpp))),
    decreases n,
{
    if n > 0 {
        let m = (n - 1) as nat;
        lemma_unfilter_at(kind, filt, prev, bpp, m);
        let u = unfilter_spec(kind, filt, prev, bpp, m);
        let w = unfilter_spec(kind, filt, prev, bpp, n);
        assert(w == u.push(wrapping_add(filt[m as int], predict(kind, if m >= bpp { u[m - bpp] } else { 0u8 },
            prev[m as int], back(prev, m as int, bpp)))));
        assert forall|i: int| 0 <= i < n implies #[trigger] w[i] == wrapping_add(filt[i],
            predict(kind, back(w, i, bpp), prev[i], back(prev, i, bpp))) by {
            if i < m {
                assert(w[i] == u[i]);
                if i >= bpp {
                    assert(w[i - bpp] == u[i - bpp]);
                }
            } else if i >= bpp {
                assert(w[i - bpp] == u[i - bpp]);
            }
        }
    }
}

proof fn lemma_mul_facts(r: int, m: int, stride: int)
    requires
        0 <= r,
        stride >= 1,
    ensures
        r * stride + stride == (r + 1) * stride,
        r < m ==> (r + 1) * stride <= m * stride,
        r >= 1 ==> (r - 1) * stride == r * stride - stride,
        r * stride >= 0,
{
    assert(r * stride + stride == (r + 1) * stride) by (nonlinear_arith);
    if r < m {
        assert((r + 1) * stride <= m * stride) by (nonlinear_arith)
            requires r + 1 <= m, stride >= 1;
    }
    if r >= 1 {
        assert((r - 1) * stride == r * stride - stride) by (nonlinear_arith);
    }
    assert(r * stride >= 0) by (nonlinear_arith)
        requires 0 <= r, stride >= 1;
}

proof fn lemma_row_append(prefix: Seq<u8>, u: Seq<u8>, stride: int, m: int, r: int)
    requires
        stride >= 1,
        0 <= m,
        prefix.len() == m * stride,
        u.len() == stride,
        0 <= r <= m,
    ensures
        r < m ==> row_of(prefix + u, stride, r) == row_of(prefix, stride, r),
        r == m ==> row_of(prefix + u, stride, r) == u,
        r == m && m >= 1 ==> row_of(prefix + u, stride, r - 1) == prefix.subrange(prefix.len() - stride, prefix.len() as int),
{
    lemma_mul_facts(r, m, stride);
    let out = prefix + u;
    if r < m {
        assert(row_of(out, stride, r) =~= row_of(prefix, stride, r));
    } else {
        assert(row_of(out, stride, r) =~= u);
        if m >= 1 {
            assert(row_of(out, stride, r - 1) =~= prefix.subrange(prefix.len() - stride, prefix.len() as int));
        }
    }
}

proof fn lemma_row_in_data(len: int, r: int, d: int)
    requires
        d >= 1,
        len >= 0,
        0 <= r < len / d,
    ensures
        r * d + d <= len,
        r * d >= 0,
{
    assert(r * d + d <= len) by (nonlinear_arith)
        requires d >= 1, len >= 0, 0 <= r < len / d;
    assert(r * d >= 0) by (nonlinear_arith)
        requires d >= 1, 0 <= r;
}

/// Row `r` of Predictor-15 output, as `decode_rows` rebuilds it from the row above.
spec fn row_decoded(data: Seq<u8>, out: Seq<u8>, stride: int, bpp: int, r: int) -> bool {
    &&& data[r * (stride + 1)] <= 4
    &&& row_of(out, stride, r) == unfilter_spec(data[r * (stride + 1)],
        data.subrange(r * (stride + 1) + 1, r * (stride + 1) + 1 + stride),
        if r == 0 { zero_row(stride as nat) } else { row_of(out, stride, r - 1) }, bpp, stride as nat)
}

#[verifier::rlimit(30)]
proof fn lemma_decode_rows_shape(data: Seq<u8>, stride: int, bpp: int, h: nat)
    requires
        stride >= 1,
        bpp >= 1,
        decode_rows(data, stride, bpp, h) is Some,
    ensures
        decode_rows(data, stride, bpp, h)->0.len() == h * stride,
        forall|r: int| 0 <= r < h ==> #[trigger] row_decoded(data, decode_rows(data, stride, bpp, h)->0, stride, bpp, r),
    decreases h,
{
    if h > 0 {
        let m = (h - 1) as nat;
        lemma_decode_rows_shape(data, stride, bpp, m);
        let prefix = decode_rows(data, stride, bpp, m)->0;
        let out = decode_rows(data, stride, bpp, h)->0;
        let r0 = m as int;
        let kind = data[r0 * (stride + 1)];
        let filt = data.subrange(r0 * (stride + 1) + 1, r0 * (stride + 1) + 1 + stride);
        let prev = if r0 == 0 { zero_row(stride as nat) } else { prefix.subrange(prefix.len() - stride, prefix.len() as int) };
        let u = unfilter_spec(kind, filt, prev, bpp, stride as nat);
        lemma_unfilter_at(kind, filt, prev, bpp, stride as nat);
        assert(out == prefix + u);
        lemma_mul_facts(r0, r0, stride);
        assert forall|r: int| 0 <= r < h implies #[trigger] row_decoded(data, out, stride, bpp, r) by {
            lemma_row_append(prefix, u, stride, r0, r);
            if r < r0 {
                assert(row_decoded(data, prefix, stride, bpp, r));
                if r > 0 {
                    lemma_row_append(prefix, u, stride, r0, r - 1);
                }
            }
        }
    }
}

/// The value the PNG standard's filter `kind` predicts a sample from its left, up and
/// up-left neighbours: nothing (None), left (Sub), up (Up), the floor of their mean (Average),
/// or the Paeth choice (Paeth).
pub open spec fn png_prediction(kind: u8, left: u8, up: u8, up_left: u8, v: u8) -> bool {
    if kind == 0 {
        v == 0
    } else if kind == 1 {
        v == left
    } else if kind == 2 {
        v == up
    } else if kind == 3 {
        v as int == (left as int + up as int) / 2
    } else {
        kind == 4 && paeth_choice(left, up, up_left, v)
    }
}

/// Decoding inverts the PNG standard's filters: in every row, each decoded sample minus its
/// filtered byte (mod 256) is the row's predictor applied to its decoded left, up and
/// up-left neighbours (0 outside the image): 0 for None, left for Sub, up for Up, the floor
/// of their mean for Average, and the Paeth choice for Paeth.
#[verifier::rlimit(30)]
pub proof fn lemma_decode_filters(data: Seq<u8>, stride: int, bpp: int)
    requires
        stride >= 1,
        bpp >= 1,
        decode_png_spec(data, stride, bpp) is Some,
    ensures
        ({
            let out = decode_png_spec(data, stride, bpp)->0;
            forall|r: int, i: int| #![trigger out[r * stride + i]]
                0 <= r < data.len() as int / (stride + 1) && 0 <= i < stride ==> {
                let x = r * stride + i;
                let left = if i >= bpp { out[x - bpp] } else { 0u8 };
                let up = if r >= 1 { out[x - stride] } else { 0u8 };
                let up_left = if r >= 1 && i >= bpp { out[x - stride - bpp] } else { 0u8 };
                png_prediction(data[r * (stride + 1)], left, up, up_left, wrapping_sub(out[x], data[r * (stride + 1) + 1 + i]))
            }
        }),
{
    let h = (data.len() as int / (stride + 1)) as nat;
    lemma_decode_rows_shape(data, stride, bpp, h);
    let out = decode_png_spec(data, stride, bpp)->0;
    assert forall|r: int, i: int| #![trigger out[r * stride + i]]
        0 <= r < data.len() as int / (stride + 1) && 0 <= i < stride implies {
        let x = r * stride + i;
        let left = if i >= bpp { out[x - bpp] } else { 0u8 };
        let up = if r >= 1 { out[x - stride] } else { 0u8 };
        let up_left = if r >= 1 && i >= bpp { out[x - stride - bpp] } else { 0u8 };
        png_prediction(data[r * (stride + 1)], left, up, up_left, wrapping_sub(out[x], data[r * (stride + 1) + 1 + i]))
    } by {
        let x = r * stride + i;
        lemma_row_in_data(data.len() as int, r, stride + 1);
        let filt = data.subrange(r * (stride + 1) + 1, r * (stride + 1) + 1 + stride);
        let prev = if r == 0 { zero_row(stride as nat) } else { row_of(out, stride, r - 1) };
        let row = row_of(out, stride, r);
        assert(row_decoded(data, out, stride, bpp, r));
        let kind = data[r * (stride + 1)];
        assert(row == unfilter_spec(kind, filt, prev, bpp, stride as nat));
        lemma_unfilter_at(kind, filt, prev, bpp, stride as nat);
        lemma_mul_facts(r, h as int, stride);
        assert(row[i] == out[x]);
        if i >= bpp {
            assert(row[i - bpp] == out[x - bpp]);
        }
        if r >= 1 {
            assert(prev[i] == out[x - stride]);
            if i >= bpp {
                assert(prev[i - bpp] == out[x - stride - bpp]);
            }
        }
        let left = back(row, i, bpp);
        let v = predict(kind, left, prev[i], back(prev, i, bpp));
        lemma_paeth_nearest(left, prev[i], back(prev, i, bpp));
        assert(filt[i] == data[r * (stride + 1) + 1 + i]);
        assert(wrapping_sub(wrapping_add(filt[i], v), filt[i]) == v);
    }
}

/// All-zero row.
pub open spec fn zero_row(n: nat) -> Seq<u8> {
    Seq::new(n, |i: int| 0u8)
}

/// Decoding of the first `h` rows of Predictor-15 data (each row: filter byte, `stride` bytes).
pub open spec fn decode_rows(data: Seq<u8>, stride: int, bpp: int, h: nat) -> Option<Seq<u8>>
    decreases h,
{
    if h == 0 {
        Some(Seq::empty())
    } else {
        match decode_rows(data, stride, bpp, (h - 1) as nat) {
            None => None,
            Some(prefix) => {
                let r = h - 1;
                let prev = if r == 0 { zero_row(stride as nat) } else { prefix.subrange(prefix.len() - stride, prefix.len() as int) };
                let kind = data[r * (stride + 1)];
                let filt = data.subrange(r * (stride + 1) + 1, r * (stride + 1) + 1 + stride);
                if kind > 4 {
                    None
                } else {
                    Some(prefix + unfilter_spec(kind, filt, prev, bpp, stride as nat))
                }
            },
        }
    }
}

/// What decoding Predictor-15 data gives: `None` when the length is not whole rows or a filter byte is unknown.
pub open spec fn decode_png_spec(data: Seq<u8>, stride: int, bpp: int) -> Option<Seq<u8>> {
    if stride == 0 {
        Some(Seq::empty())
    } else if data.len() as int % (stride + 1) != 0 {
        None
    } else {
        decode_rows(data, stride, bpp, (data.len() as int / (stride + 1)) as nat)
    }
}

/// Sum of the bytes of a row: the score a filter is chosen by.
pub open spec fn byte_sum(s: Seq<u8>) -> int
    decreases s.len(),
{
    if s.len() == 0 {
        0
    } else {
        byte_sum(s.drop_last()) + s.last()
    }
}

/// Row `r` of the samples.
pub open spec fn row_of(samples: Seq<u8>, stride: int, r: int) -> Seq<u8> {
    samples.subrange(r * stride, (r + 1) * stride)
}

/// The row above row `r` (zeros above the first).
pub open spec fn prev_of(samples: Seq<u8>, stride: int, r: int) -> Seq<u8> {
    if r == 0 { zero_row(stride as nat) } else { row_of(samples, stride, r - 1) }
}

/// Filter `k` is the first one with the smallest byte sum for this row.
pub open spec fn best_kind(k: u8, raw: Seq<u8>, prev: Seq<u8>, bpp: int) -> bool {
    &&& k <= 4
    &&& forall|j: u8| j < k ==> byte_sum(filter_spec(k, raw, prev, bpp)) < byte_sum(filter_spec(j, raw, prev, bpp))
    &&& forall|j: u8| k < j <= 4 ==> byte_sum(filter_spec(k, raw, prev, bpp)) <= byte_sum(filter_spec(j, raw, prev, bpp))
}

/// Filter byte of encoded row `r`.
pub open spec fn enc_kind(out: Seq<u8>, stride: int, r: int) -> u8 {
    out[r * (stride + 1)]
}

/// Filtered samples of encoded row `r`.
pub open spec fn enc_body(out: Seq<u8>, stride: int, r: int) -> Seq<u8> {
    out.subrange(r * (stride + 1) + 1, (r + 1) * (stride + 1))
}

/// `out` holds, for each row, a filter byte and the row under that filter, the best one per row.
pub open spec fn png_encoded(out: Seq<u8>, samples: Seq<u8>, stride: int, bpp: int) -> bool {
    let height = if stride == 0 { 0 } else { samples.len() as int / stride };
    &&& out.len() == (stride + 1) * height
    &&& forall|r: int| 0 <= r < height ==> {
        &&& best_kind(#[trigger] enc_kind(out, stride, r), row_of(samples, stride, r), prev_of(samples, stride, r), bpp)
        &&& enc_body(out, stride, r) == filter_spec(enc_kind(out, stride, r), row_of(samples, stride, r), prev_of(samples, stride, r), bpp)
    }
}

/// TIFF predictor 2: within each whole row, every sample minus the same component of the pixel to its left.
pub open spec fn tiff2_spec(samples: Seq<u8>, width: int, components: int) -> Seq<u8> {
    let stride = width * components;
    let height = if stride == 0 { 0 } else { samples.len() as int / stride };
    Seq::new(samples.len(), |i: int|
        if i < height * stride && i % stride >= components {
            wrapping_sub(samples[i], samples[i - components])
        } else {
            samples[i]
        })
}

fn paeth(a: u8, b: u8, c: u8) -> (r: u8)
    ensures
        r == paeth_spec(a, b, c),
{
    let aa = a as i16;
    let bb = b as i16;
    let cc = c as i16;
    let p = aa + bb - cc;
    let pa = if p - aa < 0 { aa - p } else { p - aa };
    let pb = if p - bb < 0 { bb - p } else { p - bb };
    let pc = if p - cc < 0 { cc - p } else { p - cc };
    if pa <= pb && pa <= pc {
        a
    } else if pb <= pc {
        b
    } else {
        c
    }
}

fn filter_row(kind: u8, raw: &[u8], prev: &[u8], bpp: usize) -> (out: Vec<u8>)
    requires
        prev.len() == raw.len(),
    ensures
        out@ == filter_spec(kind, raw@, prev@, bpp as int),
{
    let mut out: Vec<u8> = vec![0u8; raw.len()];
    let mut i: usize = 0;
    while i < raw.len()
        invariant
            i <= raw.len(),
            prev.len() == raw.len(),
            out.len() == raw.len(),
            forall|j: int| 0 <= j < i ==> out[j] == #[trigger] filter_spec(kind, raw@, prev@, bpp as int)[j],
        decreases raw.len() - i,
    {
        let left = if i >= bpp { raw[i - bpp] } else { 0 };
        let up = prev[i];
        let up_left = if i >= bpp { prev[i - bpp] } else { 0 };
        let v = if kind == 0 {
            raw[i]
        } else if kind == 1 {
            raw[i].wrapping_sub(left)
        } else if kind == 2 {
            raw[i].wrapping_sub(up)
        } else if kind == 3 {
            raw[i].wrapping_sub(((left as u16 + up as u16) / 2) as u8)
        } else {
            raw[i].wrapping_sub(paeth(left, up, up_left))
        };
        proof {
            if kind == 0 {
                assert(wrapping_sub(raw@[i as int], 0) == raw@[i as int]);
            }
        }
        out.set(i, v);
        i = i + 1;
    }
    proof {
        assert(out@ =~= filter_spec(kind, raw@, prev@, bpp as int));
    }
    out
}

fn unfilter_row(kind: u8, filt: &[u8], prev: &[u8], bpp: usize) -> (out: Option<Vec<u8>>)
    requires
        prev.len() == filt.len(),
    ensures
        kind > 4 ==> out is None || filt.len() == 0,
        kind <= 4 ==> out is Some && out->0@ == unfilter_spec(kind, filt@, prev@, bpp as int, filt.len() as nat),
        out is Some ==> out->0@.len() == filt.len(),
{
    let n = filt.len();
    let mut dest: Vec<u8> = vec![0u8; n];
    let mut i: usize = 0;
    while i < n
        invariant
            i <= n,
            n == filt.len(),
            prev.len() == n,
            dest.len() == n,
            kind <= 4 || i == 0,
            forall|j: int| 0 <= j < i ==> dest[j] == #[trigger] unfilter_spec(kind, filt@, prev@, bpp as int, i as nat)[j],
            forall|j: int| i <= j < n ==> dest[j] == 0,
            unfilter_spec(kind, filt@, prev@, bpp as int, i as nat).len() == i,
        decreases n - i,
    {
        let left = if i >= bpp { dest[i - bpp] } else { 0 };
        let up = prev[i];
        let up_left = if i >= bpp { prev[i - bpp] } else { 0 };
        let v = if kind == 0 {
            filt[i]
        } else if kind == 1 {
            filt[i].wrapping_add(left)
        } else if kind == 2 {
            filt[i].wrapping_add(up)
        } else if kind == 3 {
            filt[i].wrapping_add(((left as u16 + up as u16) / 2) as u8)
        } else if kind == 4 {
            filt[i].wrapping_add(paeth(left, up, up_left))
        } else {
            return None;
        };
        proof {
            let u = unfilter_spec(kind, filt@, prev@, bpp as int, i as nat);
            if kind == 0 {
                assert(wrapping_add(filt@[i as int], 0) == filt@[i as int]);
            }
            if bpp > 0 && i >= bpp {
                assert(left == u[i - bpp]);
            }
        }
        dest.set(i, v);
        i = i + 1;
    }
    proof {
        assert(dest@ =~= unfilter_spec(kind, filt@, prev@, bpp as int, n as nat));
    }
    Some(dest)
}


proof fn lemma_unfilter_len(kind: u8, filt: Seq<u8>, prev: Seq<u8>, bpp: int, n: nat)
    ensures
        unfilter_spec(kind, filt, prev, bpp, n).len() == n,
    decreases n,
{
    if n > 0 {
        lemma_unfilter_len(kind, filt, prev, bpp, (n - 1) as nat);
    }
}

proof fn lemma_decode_rows_len(data: Seq<u8>, stride: int, bpp: int, h: nat)
    requires
        stride >= 0,
    ensures
        decode_rows(data, stride, bpp, h) is Some ==> decode_rows(data, stride, bpp, h)->0.len() == h * stride,
    decreases h,
{
    if h == 0 {
        assert(0 * stride == 0);
    } else {
        lemma_decode_rows_len(data, stride, bpp, (h - 1) as nat);
        let r = h - 1;
        let filt = data.subrange(r * (stride + 1) + 1, r * (stride + 1) + 1 + stride);
        match decode_rows(data, stride, bpp, (h - 1) as nat) {
            None => {},
            Some(prefix) => {
                let prev = if r == 0 { zero_row(stride as nat) } else { prefix.subrange(prefix.len() - stride, prefix.len() as int) };
                let kind = data[r * (stride + 1)];
                lemma_unfilter_len(kind, filt, prev, bpp, stride as nat);
                assert((h - 1) * stride + stride == h * stride) by (nonlinear_arith);
                if kind <= 4 {
                    assert(decode_rows(data, stride, bpp, h) == Some(prefix + unfilter_spec(kind, filt, prev, bpp, stride as nat)));
                    assert((prefix + unfilter_spec(kind, filt, prev, bpp, stride as nat)).len() == h * stride);
                } else {
                    assert(decode_rows(data, stride, bpp, h) is None);
                }
            },
        }
    }
}

proof fn lemma_decode_rows_none(data: Seq<u8>, stride: int, bpp: int, h0: nat, h: nat)
    requires
        h0 <= h,
        decode_rows(data, stride, bpp, h0) is None,
    ensures
        decode_rows(data, stride, bpp, h) is None,
    decreases h - h0,
{
    if h0 < h {
        lemma_decode_rows_none(data, stride, bpp, h0, (h - 1) as nat);
    }
}

/// Undo the PNG filters (Predictor 15). `None` when the data is not a whole number of
/// rows of `1 + width * components` bytes, or a row's filter byte is above 4.
pub fn decode_png(data: &[u8], width: usize, components: usize) -> (out: Option<Vec<u8>>)
    requires
        width * components < usize::MAX,
    ensures
        match out {
            Some(v) => decode_png_spec(data@, width * components, components as int) == Some(v@),
            None => decode_png_spec(data@, width * components, components as int) is None,
        },
{
    let stride = width * components;
    if stride == 0 {
        return Some(Vec::new());
    }
    let row_len = stride + 1;
    if data.len() % row_len != 0 {
        return None;
    }
    let height = data.len() / row_len;
    let ghost sl = stride as int;
    let ghost bpp = components as int;
    let zeros: Vec<u8> = vec![0u8; stride];
    let mut out: Vec<u8> = Vec::new();
    let mut row: usize = 0;
    proof {
        assert(zeros@ =~= zero_row(stride as nat));
    }
    while row < height
        invariant
            stride == width * components,
            0 < stride < usize::MAX,
            row_len == stride + 1,
            height == data.len() / row_len,
            data.len() % row_len == 0,
            row <= height,
            zeros@ == zero_row(stride as nat),
            sl == stride,
            bpp == components,
            decode_rows(data@, sl, bpp, row as nat) == Some(out@),
            out.len() == row * stride,
        decreases height - row,
    {
        proof {
            assert(data.len() == height * row_len) by (nonlinear_arith)
                requires
                    height == data.len() / row_len,
                    data.len() % row_len == 0,
                    row_len > 0,
            ;
            assert((row + 1) * row_len <= height * row_len) by (nonlinear_arith)
                requires
                    row < height,
                    row_len > 0,
            ;
            assert(row * row_len + row_len == (row + 1) * row_len) by (nonlinear_arith);
            assert(row * stride <= usize::MAX) by (nonlinear_arith)
                requires
                    row * row_len <= data.len(),
                    stride < row_len,
            ;
        }
        let start = row * row_len;
        let kind = data[start];
        let filt = &data[start + 1..start + 1 + stride];
        let ghost prefix = out@;
        let mut dest = if row == 0 {
            unfilter_row(kind, filt, zeros.as_slice(), components)
        } else {
            proof {
                assert(out.len() >= stride) by (nonlinear_arith)
                    requires
                        out.len() == row * stride,
                        row >= 1,
                        stride > 0,
                ;
            }
            let ps = out.len() - stride;
            unfilter_row(kind, filt, &out.as_slice()[ps..out.len()], components)
        };
        proof {
            assert(filt@ == data@.subrange(row * (sl + 1) + 1, row * (sl + 1) + 1 + sl));
            assert(data@[row * (sl + 1)] == kind);
        }
        match dest {
            None => {
                proof {
                    assert(decode_rows(data@, sl, bpp, (row + 1) as nat) is None);
                    lemma_decode_rows_none(data@, sl, bpp, (row + 1) as nat, height as nat);
                    assert(data.len() as int / (sl + 1) == height);
                }
                return None;
            },
            Some(mut d) => {
                out.append(&mut d);
                proof {
                    assert(decode_rows(data@, sl, bpp, (row + 1) as nat) == Some(out@));
                    assert(row * stride + stride == (row + 1) * stride) by (nonlinear_arith);
                }
            },
        }
        row = row + 1;
    }
    proof {
        assert(data.len() as int / (sl + 1) == height);
    }
    Some(out)
}

proof fn lemma_byte_sum_bound(s: Seq<u8>)
    ensures
        0 <= byte_sum(s) <= 255 * s.len(),
    decreases s.len(),
{
    if s.len() > 0 {
        lemma_byte_sum_bound(s.drop_last());
    }
}

fn row_score(row: &Vec<u8>) -> (score: u128)
    ensures
        score == byte_sum(row@),
{
    let mut score: u128 = 0;
    let mut i: usize = 0;
    while i < row.len()
        invariant
            i <= row.len(),
            row.len() <= usize::MAX,
            score == byte_sum(row@.take(i as int)),
        decreases row.len() - i,
    {
        proof {
            assert(row@.take(i + 1).drop_last() =~= row@.take(i as int));
            lemma_byte_sum_bound(row@.take(i as int));
        }
        score = score + row[i] as u128;
        i = i + 1;
    }
    proof {
        assert(row@.take(i as int) =~= row@);
    }
    score
}

/// Filter each row with the PNG filter whose output has the smallest byte sum (the first
/// such filter on ties). Output: per row, the filter byte then the filtered samples.
pub fn encode_png_best(samples: &[u8], width: usize, components: usize) -> (out: Vec<u8>)
    requires
        width * components <= usize::MAX,
        width * components == 0 || samples.len() as int % (width * components) == 0,
    ensures
        png_encoded(out@, samples@, width * components, components as int),
{
    let stride = width * components;
    let height = if stride == 0 { 0 } else { samples.len() / stride };
    let ghost sl = stride as int;
    let ghost bpp = components as int;
    let zeros: Vec<u8> = vec![0u8; stride];
    proof {
        assert(zeros@ =~= zero_row(stride as nat));
    }
    let mut out: Vec<u8> = Vec::new();
    let mut row: usize = 0;
    while row < height
        invariant
            stride == width * components,
            sl == stride,
            bpp == components,
            height == (if stride == 0 { 0 } else { samples.len() / stride }),
            stride == 0 || samples.len() % stride == 0,
            zeros@ == zero_row(stride as nat),
            row <= height,
            out.len() == row * (stride + 1),
            forall|r: int| 0 <= r < row ==> {
                &&& best_kind(#[trigger] enc_kind(out@, sl, r), row_of(samples@, sl, r), prev_of(samples@, sl, r), bpp)
                &&& enc_body(out@, sl, r) == filter_spec(enc_kind(out@, sl, r), row_of(samples@, sl, r), prev_of(samples@, sl, r), bpp)
            },
        decreases height - row,
    {
        proof {
            assert(samples.len() == height * stride) by (nonlinear_arith)
                requires
                    height == samples.len() / stride,
                    samples.len() % stride == 0,
                    stride > 0,
            ;
            assert((row + 1) * stride <= height * stride) by (nonlinear_arith)
                requires
                    row < height,
                    stride > 0,
            ;
            assert(row * stride + stride == (row + 1) * stride) by (nonlinear_arith);
        }
        let raw = &samples[row * stride..(row + 1) * stride];
        let prev: &[u8] = if row == 0 {
            zeros.as_slice()
        } else {
            proof {
                assert((row - 1) * stride + stride == row * stride) by (nonlinear_arith);
            }
            &samples[(row - 1) * stride..row * stride]
        };
        proof {
            assert(raw@ == row_of(samples@, sl, row as int));
            assert(prev@ == prev_of(samples@, sl, row as int));
        }
        let mut best: Vec<u8> = filter_row(0, raw, prev, components);
        proof {
            assert(best.len() == stride);
        }
        let mut best_score: u128 = row_score(&best);
        let mut best_k: u8 = 0;
        let mut kind: u8 = 1;
        while kind < 5
            invariant
                1 <= kind <= 5,
                best_k < kind,
                raw.len() == stride,
                prev.len() == stride,
                best@ == filter_spec(best_k, raw@, prev@, bpp),
                best_score == byte_sum(best@),
                bpp == components,
                forall|j: u8| j < best_k ==> best_score < byte_sum(filter_spec(j, raw@, prev@, bpp)),
                forall|j: u8| best_k < j < kind ==> best_score <= byte_sum(filter_spec(j, raw@, prev@, bpp)),
            decreases 5 - kind,
        {
            let filtered = filter_row(kind, raw, prev, components);
            let score = row_score(&filtered);
            if score < best_score {
                best_score = score;
                best = filtered;
                best_k = kind;
            }
            kind = kind + 1;
        }
        let ghost old_out = out@;
        out.push(best_k);
        out.append(&mut best);
        proof {
            let best_seq = filter_spec(best_k, raw@, prev@, bpp);
            assert(out@ == old_out.push(best_k) + best_seq);
            assert(row * (stride + 1) + stride + 1 == (row + 1) * (stride + 1)) by (nonlinear_arith);
            assert forall|r: int| 0 <= r < row + 1 implies {
                &&& best_kind(#[trigger] enc_kind(out@, sl, r), row_of(samples@, sl, r), prev_of(samples@, sl, r), bpp)
                &&& enc_body(out@, sl, r) == filter_spec(enc_kind(out@, sl, r), row_of(samples@, sl, r), prev_of(samples@, sl, r), bpp)
            } by {
                if r < row {
                    assert((r + 1) * (sl + 1) <= row * (sl + 1)) by (nonlinear_arith)
                        requires
                            r < row,
                            sl >= 0,
                    ;
                    assert(r * (sl + 1) + 1 <= (r + 1) * (sl + 1)) by (nonlinear_arith)
                        requires
                            sl >= 0,
                    ;
                    assert(enc_kind(out@, sl, r) == enc_kind(old_out, sl, r));
                    assert(enc_body(out@, sl, r) =~= enc_body(old_out, sl, r));
                } else {
                    assert(enc_kind(out@, sl, r) == best_k);
                    assert(enc_body(out@, sl, r) =~= best_seq);
                }
            }
        }
        row = row + 1;
    }
    proof {
        assert(out.len() == (stride + 1) * height) by (nonlinear_arith)
            requires
                out.len() == row * (stride + 1),
                row == height,
        ;
    }
    out
}

proof fn lemma_unfilter_filter(kind: u8, raw: Seq<u8>, prev: Seq<u8>, bpp: int, n: nat)
    requires
        kind <= 4,
        bpp >= 1,
        prev.len() == raw.len(),
        n <= raw.len(),
    ensures
        unfilter_spec(kind, filter_spec(kind, raw, prev, bpp), prev, bpp, n) == raw.take(n as int),
    decreases n,
{
    if n > 0 {
        lemma_unfilter_filter(kind, raw, prev, bpp, (n - 1) as nat);
        let filt = filter_spec(kind, raw, prev, bpp);
        let u = unfilter_spec(kind, filt, prev, bpp, (n - 1) as nat);
        let i = n - 1;
        let left = if bpp > 0 && i >= bpp { u[i - bpp] } else { 0u8 };
        assert(left == back(raw, i, bpp));
        assert(raw.take(n as int) =~= raw.take(i).push(raw[i]));
    }
}

proof fn lemma_decode_encoded_rows(out: Seq<u8>, samples: Seq<u8>, stride: int, bpp: int, h: nat)
    requires
        stride > 0,
        bpp >= 1,
        samples.len() as int % stride == 0,
        h <= samples.len() as int / stride,
        png_encoded(out, samples, stride, bpp),
    ensures
        decode_rows(out, stride, bpp, h) == Some(samples.take(h * stride)),
    decreases h,
{
    if h == 0 {
        assert(0 * stride == 0);
        assert(samples.take(0) =~= Seq::<u8>::empty());
    } else {
        let r = h - 1;
        lemma_decode_encoded_rows(out, samples, stride, bpp, r as nat);
        let prefix = samples.take(r * stride);
        assert(r * stride + stride == h * stride) by (nonlinear_arith)
            requires
                r == h - 1,
        ;
        assert(h * stride <= samples.len()) by (nonlinear_arith)
            requires
                h <= samples.len() as int / stride,
                stride > 0,
        ;
        assert(prefix.len() == r * stride) by (nonlinear_arith)
            requires
                r * stride + stride == h * stride,
                h * stride <= samples.len(),
                prefix.len() == r * stride,
        ;
        let prev = if r == 0 { zero_row(stride as nat) } else { prefix.subrange(prefix.len() - stride, prefix.len() as int) };
        if r > 0 {
            assert((r - 1) * stride + stride == r * stride) by (nonlinear_arith);
            assert(prev =~= prev_of(samples, stride, r));
        }
        let k = enc_kind(out, stride, r);
        let raw = row_of(samples, stride, r);
        assert(best_kind(k, raw, prev_of(samples, stride, r), bpp));
        assert(r * (stride + 1) + 1 + stride == (r + 1) * (stride + 1)) by (nonlinear_arith);
        let filt = out.subrange(r * (stride + 1) + 1, r * (stride + 1) + 1 + stride);
        assert(filt == enc_body(out, stride, r));
        lemma_unfilter_filter(k, raw, prev, bpp, stride as nat);
        assert(raw.take(stride) =~= raw);
        assert(prefix + raw =~= samples.take(h * stride));
        assert(k <= 4);
        assert(out[r * (stride + 1)] == k);
        assert(decode_rows(out, stride, bpp, (h - 1) as nat) == Some(prefix));
        assert(decode_rows(out, stride, bpp, h) == Some(prefix + unfilter_spec(k, filt, prev, bpp, stride as nat)));
    }
}

/// Decoding what `encode_png_best` produced gives back the samples, for any image whose
/// rows are whole and at least one sample wide.
pub proof fn lemma_png_roundtrip(out: Seq<u8>, samples: Seq<u8>, width: int, components: int)
    requires
        width >= 1,
        components >= 1,
        samples.len() as int % (width * components) == 0,
        png_encoded(out, samples, width * components, components),
    ensures
        decode_png_spec(out, width * components, components) == Some(samples),
{
    let stride = width * components;
    assert(stride >= 1) by (nonlinear_arith)
        requires
            width >= 1,
            components >= 1,
            stride == width * components,
    ;
    let height = samples.len() as int / stride;
    assert(out.len() as int % (stride + 1) == 0 && out.len() as int / (stride + 1) == height) by (nonlinear_arith)
        requires
            out.len() == (stride + 1) * height,
            stride >= 1,
            height >= 0,
    ;
    lemma_decode_encoded_rows(out, samples, stride, components, height as nat);
    assert(height * stride == samples.len()) by (nonlinear_arith)
        requires
            height == samples.len() as int / stride,
            samples.len() as int % stride == 0,
            stride >= 1,
    ;
    assert(samples.take(height * stride) =~= samples);
}

/// TIFF predictor 2 (horizontal differencing) over whole rows; a trailing partial row is kept as is.
pub fn encode_tiff2(samples: &[u8], width: usize, components: usize) -> (out: Vec<u8>)
    requires
        width * components <= usize::MAX,
    ensures
        out@ == tiff2_spec(samples@, width as int, components as int),
{
    let stride = width * components;
    let height = if stride == 0 { 0 } else { samples.len() / stride };
    let ghost spec = tiff2_spec(samples@, width as int, components as int);
    proof {
        if stride > 0 {
            assert(height * stride <= samples.len()) by (nonlinear_arith)
                requires
                    height == samples.len() / stride,
                    stride > 0,
            ;
        }
    }
    let limit = height * stride;
    let mut out: Vec<u8> = Vec::new();
    let mut i: usize = 0;
    while i < samples.len()
        invariant
            i <= samples.len(),
            stride == width * components,
            height == (if stride == 0 { 0 } else { samples.len() / stride }),
            limit == height * stride,
            limit <= samples.len(),
            spec == tiff2_spec(samples@, width as int, components as int),
            out.len() == i,
            forall|j: int| 0 <= j < i ==> out@[j] == spec[j],
        decreases samples.len() - i,
    {
        proof {
            if stride > 0 {
                assert(i % stride <= i) by (nonlinear_arith)
                    requires
                        stride > 0,
                ;
            }
        }
        let v = if i < limit && i % stride >= components {
            samples[i].wrapping_sub(samples[i - components])
        } else {
            samples[i]
        };
        out.push(v);
        i = i + 1;
    }
    proof {
        assert(out@ =~= spec);
    }
    out
}

} // verus!
