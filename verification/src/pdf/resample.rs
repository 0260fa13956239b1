//! Box-average resize, used to cap huge slide bitmaps.

use vstd::prelude::*;

verus! {

/// `v * m / l` rounded to the nearest integer, halves away from zero.
pub open spec fn scale_round(v: int, m: int, l: int) -> int {
    (2 * v * m + l) / (2 * l)
}

/// Size after scaling the longer edge down to `max_edge`; unchanged when it already fits.
pub open spec fn fit_spec(width: u32, height: u32, max_edge: u32) -> (u32, u32) {
    let long = if width >= height { width } else { height };
    if long <= max_edge || long == 0 {
        (width, height)
    } else {
        let w = scale_round(width as int, max_edge as int, long as int);
        let h = scale_round(height as int, max_edge as int, long as int);
        ((if w < 1 { 1 } else { w }) as u32, (if h < 1 { 1 } else { h }) as u32)
    }
}

fn scale_dim(v: u32, m: u32, l: u32) -> (r: u32)
    requires
        m < l,
        v <= l,
    ensures
        r == (if scale_round(v as int, m as int, l as int) < 1 { 1 } else { scale_round(v as int, m as int, l as int) }),
{
    proof {
        assert(2 * (v as u128) * (m as u128) + l as u128 <= u128::MAX) by (nonlinear_arith)
            requires
                v <= u32::MAX,
                m <= u32::MAX,
                l <= u32::MAX,
        ;
    }
    let num: u128 = 2 * (v as u128) * (m as u128) + l as u128;
    let den: u128 = 2 * (l as u128);
    let q = num / den;
    proof {
        assert(2 * v * m + l < 2 * l * (v + 1)) by (nonlinear_arith)
            requires
                m < l,
        ;
        assert(q <= v) by (nonlinear_arith)
            requires
                q == (2 * v * m + l) / (2 * l),
                2 * v * m + l < 2 * l * (v + 1),
                l > 0,
        ;
    }
    let r = q as u32;
    if r < 1 { 1 } else { r }
}

/// Fit `width` x `height` within `max_edge` on the longer side, keeping the aspect
/// ratio (each side rounded to nearest, at least 1).
pub fn fit(width: u32, height: u32, max_edge: u32) -> (r: (u32, u32))
    ensures
        r == fit_spec(width, height, max_edge),
{
    let long = if width >= height { width } else { height };
    if long <= max_edge || long == 0 {
        return (width, height);
    }
    (scale_dim(width, max_edge, long), scale_dim(height, max_edge, long))
}

/// First source index covered by destination index `i` (source size `s`, destination size `d`).
pub open spec fn span_lo(i: int, s: int, d: int) -> int {
    i * s / d
}

/// One past the last source index covered by destination index `i`: at least one, at most `s`.
pub open spec fn span_hi(i: int, s: int, d: int) -> int {
    let a = (i + 1) * s / d;
    let b = if a < span_lo(i, s, d) + 1 { span_lo(i, s, d) + 1 } else { a };
    if b > s { s } else { b }
}

/// Sum of channel `c` over pixels `x0..x1` of source row `y`.
pub open spec fn row_sum(src: Seq<u8>, sw: int, ch: int, c: int, y: int, x0: int, x1: int) -> int
    decreases x1 - x0,
{
    if x1 <= x0 {
        0
    } else {
        row_sum(src, sw, ch, c, y, x0, x1 - 1) + src[((y * sw + x1 - 1) * ch + c)]
    }
}

/// Sum of channel `c` over the source box `x0..x1` by `y0..y1`.
pub open spec fn box_sum(src: Seq<u8>, sw: int, ch: int, c: int, x0: int, x1: int, y0: int, y1: int) -> int
    decreases y1 - y0,
{
    if y1 <= y0 {
        0
    } else {
        box_sum(src, sw, ch, c, x0, x1, y0, y1 - 1) + row_sum(src, sw, ch, c, y1 - 1, x0, x1)
    }
}

/// Average of channel `c` over the source box that destination pixel (`x`, `y`) covers.
pub open spec fn box_avg(src: Seq<u8>, sw: int, sh: int, dw: int, dh: int, ch: int, x: int, y: int, c: int) -> u8 {
    let x0 = span_lo(x, sw, dw);
    let x1 = span_hi(x, sw, dw);
    let y0 = span_lo(y, sh, dh);
    let y1 = span_hi(y, sh, dh);
    (box_sum(src, sw, ch, c, x0, x1, y0, y1) / ((x1 - x0) * (y1 - y0))) as u8
}

/// The resized image: `dw * dh` pixels of `ch` channels, each the box average of what it
/// covers; all zeros when either size is empty.
pub open spec fn resized(src: Seq<u8>, sw: int, sh: int, dw: int, dh: int, ch: int) -> Seq<u8> {
    Seq::new((dw * dh * ch) as nat, |i: int|
        if sw == 0 || sh == 0 {
            0u8
        } else {
            box_avg(src, sw, sh, dw, dh, ch, (i / ch) % dw, (i / ch) / dw, i % ch)
        })
}

proof fn lemma_span(i: int, s: int, d: int)
    requires
        0 <= i < d,
        s > 0,
    ensures
        0 <= span_lo(i, s, d) < span_hi(i, s, d) <= s,
{
    assert(i * s / d < s) by (nonlinear_arith)
        requires
            0 <= i < d,
            s > 0,
    ;
    assert(i * s / d >= 0) by (nonlinear_arith)
        requires
            0 <= i,
            s > 0,
            d > 0,
    ;
}

fn span(i: u32, s: u32, d: u32) -> (r: (u32, u32))
    requires
        i < d,
        s > 0,
    ensures
        r.0 == span_lo(i as int, s as int, d as int),
        r.1 == span_hi(i as int, s as int, d as int),
        r.0 < r.1 <= s,
{
    proof {
        assert((i as int + 1) * (s as int) <= u64::MAX) by (nonlinear_arith)
            requires
                i < d,
                d <= u32::MAX,
                s <= u32::MAX,
        ;
        assert((i as int) * (s as int) <= (i as int + 1) * (s as int)) by (nonlinear_arith);
        lemma_span(i as int, s as int, d as int);
        assert((i as int + 1) * (s as int) / (d as int) <= s) by (nonlinear_arith)
            requires
                i < d,
                s > 0,
        ;
    }
    let lo = (i as u64 * s as u64 / d as u64) as u32;
    let a = ((i as u64 + 1) * s as u64 / d as u64) as u32;
    let b = if a < lo + 1 { lo + 1 } else { a };
    let hi = if b > s { s } else { b };
    (lo, hi)
}

fn box_average(src: &[u8], sw: u32, ch: usize, c: usize, x0: u32, x1: u32, y0: u32, y1: u32) -> (r: u8)
    requires
        x0 < x1 <= sw,
        y0 < y1,
        c < ch,
        y1 as int * sw * ch <= src.len(),
    ensures
        r == (box_sum(src@, sw as int, ch as int, c as int, x0 as int, x1 as int, y0 as int, y1 as int) / ((x1 - x0) * (y1 - y0))) as u8,
{
    let mut acc: u128 = 0;
    let mut yy: u32 = y0;
    while yy < y1
        invariant
            y0 <= yy <= y1,
            x0 < x1 <= sw,
            c < ch,
            y1 as int * sw * ch <= src.len(),
            acc == box_sum(src@, sw as int, ch as int, c as int, x0 as int, x1 as int, y0 as int, yy as int),
            acc <= (yy - y0) * (x1 - x0) * 255,
        decreases y1 - yy,
    {
        let mut xx: u32 = x0;
        let ghost base = acc as int;
        while xx < x1
            invariant
                y0 <= yy < y1,
                x0 <= xx <= x1 <= sw,
                c < ch,
                y1 as int * sw * ch <= src.len(),
                base == box_sum(src@, sw as int, ch as int, c as int, x0 as int, x1 as int, y0 as int, yy as int),
                base <= (yy - y0) * (x1 - x0) * 255,
                acc == base + row_sum(src@, sw as int, ch as int, c as int, yy as int, x0 as int, xx as int),
                acc <= base + (xx - x0) * 255,
            decreases x1 - xx,
        {
            proof {
                assert((yy as int * sw + xx) * ch + c < y1 as int * sw * ch) by (nonlinear_arith)
                    requires
                        yy < y1,
                        xx < sw,
                        c < ch,
                ;
                assert(base + (xx - x0) * 255 + 255 <= u128::MAX) by (nonlinear_arith)
                    requires
                        base <= (yy - y0) * (x1 - x0) * 255,
                        xx < x1,
                        yy < y1,
                        x1 <= u32::MAX,
                        y1 <= u32::MAX,
                ;
                assert(yy as int * sw + xx <= y1 as int * sw) by (nonlinear_arith)
                    requires
                        yy < y1,
                        xx < sw,
                ;
                assert(y1 as int * sw <= y1 as int * sw * ch) by (nonlinear_arith)
                    requires
                        ch > c,
                ;
            }
            let i = (yy as usize * sw as usize + xx as usize) * ch + c;
            acc = acc + src[i] as u128;
            xx = xx + 1;
        }
        proof {
            assert(base + (x1 - x0) * 255 <= (yy + 1 - y0) * (x1 - x0) * 255) by (nonlinear_arith)
                requires
                    base <= (yy - y0) * (x1 - x0) * 255,
            ;
        }
        yy = yy + 1;
    }
    proof {
        let a = (x1 - x0) as int;
        let b = (y1 - y0) as int;
        assert(a * b <= u128::MAX) by (nonlinear_arith)
            requires
                0 <= a <= u32::MAX,
                0 <= b <= u32::MAX,
        ;
    }
    let n: u128 = (x1 - x0) as u128 * (y1 - y0) as u128;
    proof {
        assert((x1 - x0) * (y1 - y0) > 0) by (nonlinear_arith)
            requires
                x0 < x1,
                y0 < y1,
        ;
    }
    (acc / n) as u8
}

fn resize(src: &[u8], sw: u32, sh: u32, dw: u32, dh: u32, ch: usize) -> (out: Vec<u8>)
    requires
        1 <= ch <= 4,
        dw as int * dh * ch <= usize::MAX,
        sw as int * sh * ch <= src.len(),
    ensures
        out@ == resized(src@, sw as int, sh as int, dw as int, dh as int, ch as int),
{
    proof {
        assert(dw as int * dh <= dw as int * dh * ch) by (nonlinear_arith)
            requires
                ch >= 1,
        ;
    }
    let total = dw as usize * dh as usize * ch;
    let ghost spec = resized(src@, sw as int, sh as int, dw as int, dh as int, ch as int);
    let mut out: Vec<u8> = Vec::new();
    let mut i: usize = 0;
    while i < total
        invariant
            1 <= ch <= 4,
            total == dw as int * dh * ch,
            sw as int * sh * ch <= src.len(),
            spec == resized(src@, sw as int, sh as int, dw as int, dh as int, ch as int),
            i <= total,
            out.len() == i,
            forall|j: int| 0 <= j < i ==> out@[j] == spec[j],
        decreases total - i,
    {
        if sw == 0 || sh == 0 {
            out.push(0);
        } else {
            let p = i / ch;
            let c = i % ch;
            proof {
                assert(dw > 0 && dh > 0) by (nonlinear_arith)
                    requires
                        i < dw as int * dh * ch,
                ;
                assert(p < dw as int * dh) by (nonlinear_arith)
                    requires
                        i < dw as int * dh * ch,
                        p == i / ch,
                        ch >= 1,
                ;
                assert(p as int / (dw as int) < dh) by (nonlinear_arith)
                    requires
                        p < dw as int * dh,
                        dw > 0,
                ;
            }
            let x = (p % dw as usize) as u32;
            let y = (p / dw as usize) as u32;
            let (x0, x1) = span(x, sw, dw);
            let (y0, y1) = span(y, sh, dh);
            proof {
                assert(y1 as int * sw * ch <= sw as int * sh * ch) by (nonlinear_arith)
                    requires
                        y1 <= sh,
                ;
            }
            out.push(box_average(src, sw, ch, c, x0, x1, y0, y1));
        }
        i = i + 1;
    }
    proof {
        assert(out@ =~= spec);
    }
    out
}

/// Box-average resize of packed RGB.
pub fn resize_rgb(src: &[u8], sw: u32, sh: u32, dw: u32, dh: u32) -> (out: Vec<u8>)
    requires
        dw as int * dh * 3 <= usize::MAX,
        sw as int * sh * 3 <= src.len(),
    ensures
        out@ == resized(src@, sw as int, sh as int, dw as int, dh as int, 3),
{
    resize(src, sw, sh, dw, dh, 3)
}

/// Box-average resize of 8-bit gray.
pub fn resize_gray(src: &[u8], sw: u32, sh: u32, dw: u32, dh: u32) -> (out: Vec<u8>)
    requires
        dw as int * dh <= usize::MAX,
        sw as int * sh <= src.len(),
    ensures
        out@ == resized(src@, sw as int, sh as int, dw as int, dh as int, 1),
{
    resize(src, sw, sh, dw, dh, 1)
}

proof fn lemma_scaled_not_larger(w: int, m: int, l: int)
    requires
        0 <= m < l,
        0 <= w <= l,
    ensures
        (2 * w * m + l) / (2 * l) <= w,
{
    let d = 2 * l;
    let n = 2 * w * m + l;
    vstd::arithmetic::div_mod::lemma_fundamental_div_mod(n, d);
    let q = n / d;
    assert(0 <= n % d);
    if q > w {
        assert(d * q >= d * (w + 1)) by (nonlinear_arith)
            requires
                q >= w + 1,
                d > 0,
        ;
        assert(w * m <= w * l) by (nonlinear_arith)
            requires
                0 <= w,
                m < l,
        ;
        assert(d * (w + 1) == 2 * w * l + 2 * l) by (nonlinear_arith)
            requires
                d == 2 * l,
        ;
        assert(2 * w * m == 2 * (w * m)) by (nonlinear_arith);
        assert(2 * w * l == 2 * (w * l)) by (nonlinear_arith);
        assert(false);
    }
}

/// A fitted size is never larger than the original.
pub proof fn lemma_fit_bounds(width: u32, height: u32, max_edge: u32)
    ensures
        width >= 1 && height >= 1 ==> fit_spec(width, height, max_edge).0 <= width && fit_spec(width, height, max_edge).1 <= height,
{
    let long = if width >= height { width } else { height };
    if !(long <= max_edge || long == 0) {
        lemma_scaled_not_larger(width as int, max_edge as int, long as int);
        lemma_scaled_not_larger(height as int, max_edge as int, long as int);
    }
}

} // verus!
