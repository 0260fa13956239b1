//! Image classification and the visually-lossless gate.

use vstd::prelude::*;
use std::collections::HashSet;

verus! {

broadcast use vstd::std_specs::hash::group_hash_axioms;

/// What kind of picture a bitmap holds; it decides how the bitmap is recompressed.
#[derive(Clone, Copy, Debug, PartialEq, Eq, Structural)]
pub enum ImageKind {
    Photo,
    Screenshot,
    LineArt,
    Bitonal,
}

/// A packed 8-bit RGB bitmap borrowed from elsewhere.
#[derive(Clone, Copy, Debug)]
pub struct RgbImage<'a> {
    pub width: u32,
    pub height: u32,
    pub rgb: &'a [u8],
}

/// Luma of pixel `i` (BT.601 weights in eighths of a byte: 77, 150, 29).
pub open spec fn luma_of(rgb: Seq<u8>, i: int) -> u8 {
    ((77 * rgb[i * 3] + 150 * rgb[i * 3 + 1] + 29 * rgb[i * 3 + 2]) / 256) as u8
}

/// Pixel `i` as one number, `0xRRGGBB`.
pub open spec fn color_of(rgb: Seq<u8>, i: int) -> u32 {
    (rgb[i * 3] * 65536 + rgb[i * 3 + 1] * 256 + rgb[i * 3 + 2]) as u32
}

/// The distinct colours among the first `k` pixels.
pub open spec fn color_set(rgb: Seq<u8>, k: nat) -> Set<u32>
    decreases k,
{
    if k == 0 {
        Set::empty()
    } else {
        color_set(rgb, (k - 1) as nat).insert(color_of(rgb, k - 1))
    }
}

/// Some pixel among the first `k` has luma `v`.
pub open spec fn luma_seen(rgb: Seq<u8>, k: nat, v: int) -> bool
    decreases k,
{
    k > 0 && (luma_seen(rgb, (k - 1) as nat, v) || luma_of(rgb, k - 1) == v)
}

/// How many luma values below `v` occur among the first `n` pixels.
pub open spec fn occupied(rgb: Seq<u8>, n: nat, v: nat) -> nat
    decreases v,
{
    if v == 0 {
        0
    } else {
        occupied(rgb, n, (v - 1) as nat) + (if luma_seen(rgb, n, v - 1) { 1nat } else { 0nat })
    }
}

/// Absolute difference of the lumas of pixels `i` and `i + 1`.
pub open spec fn luma_step(rgb: Seq<u8>, i: int) -> int {
    let a = luma_of(rgb, i);
    let b = luma_of(rgb, i + 1);
    if a >= b { a - b } else { b - a }
}

/// Pixel `i` has a right-hand neighbour on the same row.
pub open spec fn has_right(i: int, w: int, n: int) -> bool {
    i + 1 < n && i % w != w - 1
}

/// Among the first `k` pixels, how many step to their right-hand neighbour by more than 40.
pub open spec fn edge_count(rgb: Seq<u8>, w: int, n: int, k: nat) -> nat
    decreases k,
{
    if k == 0 {
        0
    } else {
        edge_count(rgb, w, n, (k - 1) as nat) + (if has_right(k - 1, w, n) && luma_step(rgb, k - 1) > 40 { 1nat } else { 0nat })
    }
}

/// Among the first `k` pixels, how many have the same luma as their right-hand neighbour.
pub open spec fn run_count(rgb: Seq<u8>, w: int, n: int, k: nat) -> nat
    decreases k,
{
    if k == 0 {
        0
    } else {
        run_count(rgb, w, n, (k - 1) as nat) + (if has_right(k - 1, w, n) && luma_step(rgb, k - 1) == 0 { 1nat } else { 0nat })
    }
}

/// The classification of a `w` x `h` bitmap. Distinct colours are counted up to 4096;
/// the edge and run ratios are compared with 2/25, 3/25 and 7/20 exactly.
pub open spec fn classify_spec(rgb: Seq<u8>, w: int, h: int) -> ImageKind {
    let n = w * h;
    if n == 0 {
        ImageKind::Photo
    } else {
        let occ = occupied(rgb, n as nat, 256);
        let all = color_set(rgb, n as nat).len();
        let unique = if all < 4096 { all } else { 4096 };
        let edge = edge_count(rgb, w, n, n as nat);
        let run = run_count(rgb, w, n, n as nat);
        if occ <= 4 && unique <= 4 {
            ImageKind::Bitonal
        } else if unique <= 24 && 25 * edge > 2 * n {
            ImageKind::LineArt
        } else if unique < 512 && (20 * run > 7 * n || 25 * edge > 3 * n) {
            ImageKind::Screenshot
        } else {
            ImageKind::Photo
        }
    }
}

impl<'a> RgbImage<'a> {
    /// Luma of pixel `i`.
    pub fn luma(&self, i: usize) -> (l: u8)
        requires
            i * 3 + 2 < self.rgb.len(),
        ensures
            l == luma_of(self.rgb@, i as int),
    {
        let r = self.rgb[i * 3] as u32;
        let g = self.rgb[i * 3 + 1] as u32;
        let b = self.rgb[i * 3 + 2] as u32;
        ((77 * r + 150 * g + 29 * b) / 256) as u8
    }

    /// Number of pixels.
    pub fn pixels(&self) -> (n: usize)
        requires
            self.width as int * self.height <= usize::MAX,
        ensures
            n == self.width as int * self.height,
    {
        self.width as usize * self.height as usize
    }
}

proof fn lemma_color_set_finite(rgb: Seq<u8>, k: nat)
    ensures
        color_set(rgb, k).finite(),
    decreases k,
{
    if k > 0 {
        lemma_color_set_finite(rgb, (k - 1) as nat);
    }
}

/// Classify a bitmap as bitonal, line art, screenshot or photo.
pub fn classify(img: RgbImage<'_>) -> (kind: ImageKind)
    requires
        img.width as int * img.height <= usize::MAX,
        img.width as int * img.height * 3 <= img.rgb.len(),
    ensures
        kind == classify_spec(img.rgb@, img.width as int, img.height as int),
{
    let n = img.pixels();
    if n == 0 {
        return ImageKind::Photo;
    }
    let ghost rgb = img.rgb@;
    let w = img.width as usize;
    proof {
        assert(w > 0) by (nonlinear_arith)
            requires
                n == img.width as int * img.height,
                n != 0,
                w == img.width,
        ;
    }
    let mut seen: Vec<bool> = vec![false; 256];
    let mut unique_rgb: HashSet<u32> = HashSet::new();
    let mut edge: u64 = 0;
    let mut run_score: u64 = 0;
    let mut i: usize = 0;
    while i < n
        invariant
            rgb == img.rgb@,
            n == img.width as int * img.height,
            n * 3 <= img.rgb.len(),
            w == img.width,
            w > 0,
            i <= n,
            seen.len() == 256,
            forall|v: int| 0 <= v < 256 ==> seen@[v] == luma_seen(rgb, i as nat, v),
            unique_rgb@.finite(),
            unique_rgb@.subset_of(color_set(rgb, i as nat)),
            unique_rgb@.len() <= 4096,
            unique_rgb@.len() < 4096 ==> unique_rgb@ == color_set(rgb, i as nat),
            edge == edge_count(rgb, w as int, n as int, i as nat),
            run_score == run_count(rgb, w as int, n as int, i as nat),
            edge <= i,
            run_score <= i,
        decreases n - i,
    {
        let l = img.luma(i);
        seen.set(l as usize, true);
        if unique_rgb.len() < 4096 {
            let c: u32 = img.rgb[i * 3] as u32 * 65536 + img.rgb[i * 3 + 1] as u32 * 256 + img.rgb[i * 3 + 2] as u32;
            unique_rgb.insert(c);
        }
        if i + 1 < n && i % w != w - 1 {
            let m = img.luma(i + 1);
            let d = if l >= m { l - m } else { m - l };
            if d > 40 {
                edge = edge + 1;
            }
            if d == 0 {
                run_score = run_score + 1;
            }
        }
        proof {
            lemma_color_set_finite(rgb, (i + 1) as nat);
        }
        i = i + 1;
    }
    let mut occ: u32 = 0;
    let mut v: usize = 0;
    while v < 256
        invariant
            v <= 256,
            seen.len() == 256,
            forall|u: int| 0 <= u < 256 ==> seen@[u] == luma_seen(rgb, n as nat, u),
            occ == occupied(rgb, n as nat, v as nat),
            occ <= v,
        decreases 256 - v,
    {
        if seen[v] {
            occ = occ + 1;
        }
        v = v + 1;
    }
    let unique = unique_rgb.len();
    proof {
        lemma_color_set_finite(rgb, n as nat);
        if unique_rgb@.len() >= 4096 {
            vstd::set_lib::lemma_len_subset(unique_rgb@, color_set(rgb, n as nat));
        }
    }
    let edge_w = edge as u128;
    let run_w = run_score as u128;
    let n_w = n as u128;
    if occ <= 4 && unique <= 4 {
        return ImageKind::Bitonal;
    }
    if unique <= 24 && 25 * edge_w > 2 * n_w {
        return ImageKind::LineArt;
    }
    if unique < 512 && (20 * run_w > 7 * n_w || 25 * edge_w > 3 * n_w) {
        return ImageKind::Screenshot;
    }
    ImageKind::Photo
}

fn same_bytes(a: &[u8], b: &[u8]) -> (r: bool)
    ensures
        r == (a@ == b@),
{
    if a.len() != b.len() {
        return false;
    }
    let mut i: usize = 0;
    while i < a.len()
        invariant
            a.len() == b.len(),
            i <= a.len(),
            forall|j: int| 0 <= j < i ==> a@[j] == b@[j],
        decreases a.len() - i,
    {
        if a[i] != b[i] {
            return false;
        }
        i = i + 1;
    }
    proof {
        assert(a@ =~= b@);
    }
    true
}

/// The visually-lossless gate: a candidate passes when it has the original's size and
/// either the very same pixels or a structural similarity that `ssim_gate` accepts.
/// `ssim_gate` is only asked when the sizes match and the pixels differ.
pub fn passes_gate<F: FnOnce() -> bool>(original: RgbImage<'_>, candidate: RgbImage<'_>, ssim_gate: F) -> (ok: bool)
    requires
        original.width == candidate.width && original.height == candidate.height ==> call_requires(ssim_gate, ()),
    ensures
        !(original.width == candidate.width && original.height == candidate.height) ==> !ok,
        original.width == candidate.width && original.height == candidate.height && original.rgb@ == candidate.rgb@ ==> ok,
        original.width == candidate.width && original.height == candidate.height && original.rgb@ != candidate.rgb@
            ==> call_ensures(ssim_gate, (), ok),
{
    if original.width != candidate.width || original.height != candidate.height {
        return false;
    }
    if same_bytes(original.rgb, candidate.rgb) {
        return true;
    }
    ssim_gate()
}

} // verus!
