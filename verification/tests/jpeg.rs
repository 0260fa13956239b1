use pdfx::jpeg::encode::{
    coefficient_category, div_round, encode_blocks, sample_block, sample_blocks, subsample_420, Chroma,
};
use pdfx::jpeg::quant::scale_table;
use pdfx::jpeg::tables::{HuffSpec, CHROMA_QUANT, LUMA_QUANT, ZIGZAG};
use pdfx::jpeg::writer::JpegWriter;
use pdfx::percept::{passes_gate, RgbImage};

// ---- floating-point parts of the encoder, as the command-line program has them ----

fn rgb_to_ycbcr(n: usize, rgb: &[u8]) -> (Vec<u8>, Vec<u8>, Vec<u8>) {
    let mut y = vec![0u8; n];
    let mut cb = vec![0u8; n];
    let mut cr = vec![0u8; n];
    for i in 0..n {
        let r = rgb[i * 3] as f32;
        let g = rgb[i * 3 + 1] as f32;
        let b = rgb[i * 3 + 2] as f32;
        y[i] = (0.299 * r + 0.587 * g + 0.114 * b).round().clamp(0.0, 255.0) as u8;
        cb[i] = (128.0 - 0.168736 * r - 0.331264 * g + 0.5 * b).round().clamp(0.0, 255.0) as u8;
        cr[i] = (128.0 + 0.5 * r - 0.418688 * g - 0.081312 * b).round().clamp(0.0, 255.0) as u8;
    }
    (y, cb, cr)
}

fn fdct(spatial: &[i32; 64]) -> [i32; 64] {
    let mut cos = [[0.0f32; 8]; 8];
    for k in 0..8 {
        for n in 0..8 {
            let a = if k == 0 { 1.0 / 2.0_f64.sqrt() } else { 1.0 };
            cos[k][n] = (a * ((2.0 * n as f64 + 1.0) * k as f64 * std::f64::consts::PI / 16.0).cos()) as f32;
        }
    }
    let mut tmp = [0.0f32; 64];
    for y in 0..8 {
        for k in 0..8 {
            let mut s = 0.0f32;
            for n in 0..8 {
                s += spatial[y * 8 + n] as f32 * cos[k][n];
            }
            tmp[y * 8 + k] = s;
        }
    }
    let mut out = [0i32; 64];
    for x in 0..8 {
        for k in 0..8 {
            let mut s = 0.0f32;
            for n in 0..8 {
                s += tmp[n * 8 + x] * cos[k][n];
            }
            out[k * 8 + x] = (s * 0.25).round() as i32;
        }
    }
    out
}

fn encode_rgb_ex(width: u32, height: u32, rgb: &[u8], quality: u8, chroma: Chroma) -> Vec<u8> {
    assert_eq!(rgb.len(), width as usize * height as usize * 3);
    let (ys, cbf, crf) = rgb_to_ycbcr(width as usize * height as usize, rgb);
    let (cbs, crs) = match chroma {
        Chroma::Sample444 => (cbf, crf),
        Chroma::Sample420 => (subsample_420(&cbf, width, height), subsample_420(&crf, width, height)),
    };
    let blocks = sample_blocks(width, height, chroma, &ys, &cbs, &crs);
    let coeffs: Vec<[i32; 64]> = blocks.iter().map(fdct).collect();
    encode_blocks(width, height, quality, chroma, &coeffs)
}

fn encode_rgb(width: u32, height: u32, rgb: &[u8], quality: u8) -> Vec<u8> {
    encode_rgb_ex(width, height, rgb, quality, Chroma::Sample444)
}

fn luma(rgb: &[u8], i: usize) -> f64 {
    ((77 * rgb[i * 3] as u32 + 150 * rgb[i * 3 + 1] as u32 + 29 * rgb[i * 3 + 2] as u32) >> 8) as f64
}

fn ssim_rgb(a: &[u8], b: &[u8], w: usize, h: usize) -> f64 {
    let c1 = (0.01 * 255.0) * (0.01 * 255.0);
    let c2 = (0.03 * 255.0) * (0.03 * 255.0);
    let mut scores = Vec::new();
    let mut y = 0;
    while y < h {
        let mut x = 0;
        while x < w {
            let (mut sx, mut sy, mut sxx, mut syy, mut sxy, mut n) = (0.0, 0.0, 0.0, 0.0, 0.0, 0.0);
            for yy in y..(y + 8).min(h) {
                for xx in x..(x + 8).min(w) {
                    let i = yy * w + xx;
                    let (xv, yv) = (luma(a, i), luma(b, i));
                    sx += xv;
                    sy += yv;
                    sxx += xv * xv;
                    syy += yv * yv;
                    sxy += xv * yv;
                    n += 1.0;
                }
            }
            let (mx, my) = (sx / n, sy / n);
            let vx = f64::max(sxx / n - mx * mx, 0.0);
            let vy = f64::max(syy / n - my * my, 0.0);
            let cov = sxy / n - mx * my;
            scores.push(((2.0 * mx * my + c1) * (2.0 * cov + c2)) / ((mx * mx + my * my + c1) * (vx + vy + c2)));
            x += 8;
        }
        y += 8;
    }
    scores.iter().sum::<f64>() / scores.len() as f64
}

fn decode(jpeg: &[u8]) -> Vec<u8> {
    zune_jpeg::JpegDecoder::new(std::io::Cursor::new(jpeg)).decode().expect("decode our jpeg")
}

// ---- the original's scenarios ----

#[test]
fn encode_solid_color_decodes() {
    let w = 16u32;
    let h = 16u32;
    let mut rgb = vec![0u8; (w * h * 3) as usize];
    for px in rgb.chunks_mut(3) {
        px[0] = 200;
        px[1] = 40;
        px[2] = 80;
    }
    let jpeg = encode_rgb(w, h, &rgb, 90);
    assert!(jpeg.starts_with(&[0xFF, 0xD8]));
    assert!(jpeg.ends_with(&[0xFF, 0xD9]));
    let out = decode(&jpeg);
    assert_eq!(out.len(), rgb.len());
    let mut err = 0u64;
    for (a, b) in rgb.iter().zip(out.iter()) {
        err += a.abs_diff(*b) as u64;
    }
    let mean = err as f64 / rgb.len() as f64;
    assert!(mean < 8.0, "mean abs err {mean}");
}

#[test]
fn high_quality_beats_ssim_gate() {
    let w = 24u32;
    let h = 24u32;
    let mut rgb = vec![0u8; (w * h * 3) as usize];
    for y in 0..h {
        for x in 0..w {
            let i = ((y * w + x) * 3) as usize;
            rgb[i] = (x * 8) as u8;
            rgb[i + 1] = (y * 8) as u8;
            rgb[i + 2] = 120;
        }
    }
    let jpeg = encode_rgb(w, h, &rgb, 95);
    let out = decode(&jpeg);
    let a = RgbImage { width: w, height: h, rgb: &rgb };
    let b = RgbImage { width: w, height: h, rgb: &out };
    assert!(passes_gate(a, b, || ssim_rgb(&rgb, &out, w as usize, h as usize) >= 0.98));
}

#[test]
fn encode_420_decodes() {
    let w = 16u32;
    let h = 16u32;
    let mut rgb = vec![0u8; (w * h * 3) as usize];
    for px in rgb.chunks_mut(3) {
        px[0] = 180;
        px[1] = 90;
        px[2] = 40;
    }
    let jpeg = encode_rgb_ex(w, h, &rgb, 85, Chroma::Sample420);
    let out = decode(&jpeg);
    assert_eq!(out.len(), rgb.len());
}

// ---- the integer parts on their own ----

#[test]
fn odd_sizes_decode_in_both_layouts() {
    for &(w, h) in &[(1u32, 1u32), (7, 9), (17, 5), (33, 18)] {
        let mut rgb = vec![0u8; (w * h * 3) as usize];
        for (i, b) in rgb.iter_mut().enumerate() {
            *b = (i * 37 % 251) as u8;
        }
        for chroma in [Chroma::Sample444, Chroma::Sample420] {
            let out = decode(&encode_rgb_ex(w, h, &rgb, 75, chroma));
            assert_eq!(out.len(), rgb.len());
        }
    }
}

#[test]
fn headers_name_the_size_and_tables() {
    let blocks = vec![[0i32; 64]; 3];
    let jpeg = encode_blocks(8, 8, 50, Chroma::Sample444, &blocks);
    assert_eq!(&jpeg[0..2], &[0xFF, 0xD8]);
    // DQT for luma at quality 50 is the Annex K table itself, in zigzag order.
    assert_eq!(&jpeg[2..6], &[0xFF, 0xDB, 0x00, 0x43]);
    assert_eq!(jpeg[6], 0);
    for k in 0..64 {
        assert_eq!(jpeg[7 + k], LUMA_QUANT[ZIGZAG[k] as usize]);
    }
    let sof = jpeg.windows(2).position(|p| p == [0xFF, 0xC0]).unwrap();
    assert_eq!(&jpeg[sof + 2..sof + 10], &[0x00, 0x11, 8, 0, 8, 0, 8, 3]);
    assert_eq!(&jpeg[sof + 10..sof + 19], &[1, 0x11, 0, 2, 0x11, 1, 3, 0x11, 1]);
    assert!(jpeg.ends_with(&[0xFF, 0xD9]));
    let out = decode(&jpeg);
    assert!(out.iter().all(|&v| v == 128 || v == 127 || v == 129));
}

#[test]
fn sof_of_420_has_doubled_luma_sampling() {
    let blocks = vec![[0i32; 64]; 6];
    let jpeg = encode_blocks(16, 16, 80, Chroma::Sample420, &blocks);
    let sof = jpeg.windows(2).position(|p| p == [0xFF, 0xC0]).unwrap();
    assert_eq!(jpeg[sof + 11], 0x22);
    assert_eq!(decode(&jpeg).len(), 16 * 16 * 3);
}

#[test]
fn quality_scaling_follows_libjpeg() {
    assert_eq!(scale_table(&LUMA_QUANT, 50), LUMA_QUANT);
    let q100 = scale_table(&LUMA_QUANT, 100);
    assert!(q100.iter().all(|&v| v == 1));
    let q1 = scale_table(&CHROMA_QUANT, 1);
    assert!(q1.iter().all(|&v| v == 255));
    // quality 75: scale 50%, so 16 -> (16 * 50 + 50) / 100 = 8.
    assert_eq!(scale_table(&LUMA_QUANT, 75)[0], 8);
    // quality 0 is taken as 1, above 100 as 100.
    assert_eq!(scale_table(&LUMA_QUANT, 0), scale_table(&LUMA_QUANT, 1));
    assert_eq!(scale_table(&LUMA_QUANT, 200), q100);
}

#[test]
fn categories_and_amplitudes() {
    assert_eq!(coefficient_category(0), (0, 0));
    assert_eq!(coefficient_category(1), (1, 1));
    assert_eq!(coefficient_category(-1), (1, 0));
    assert_eq!(coefficient_category(5), (3, 5));
    assert_eq!(coefficient_category(-5), (3, 2));
    assert_eq!(coefficient_category(1023), (10, 1023));
    assert_eq!(coefficient_category(-1024), (11, 1023));
}

#[test]
fn rounding_division_is_symmetric() {
    assert_eq!(div_round(7, 2), 4);
    assert_eq!(div_round(-7, 2), -4);
    assert_eq!(div_round(5, 10), 1);
    assert_eq!(div_round(-4, 10), 0);
    assert_eq!(div_round(100, 16), 6);
}

#[test]
fn huffman_table_codes() {
    let dc = HuffSpec::luma_dc();
    assert_eq!(dc.code(0), (0b00, 2));
    assert_eq!(dc.code(1), (0b010, 3));
    assert_eq!(dc.code(5), (0b110, 3));
    assert_eq!(dc.code(6), (0b1110, 4));
    let ac = HuffSpec::luma_ac();
    assert_eq!(ac.code(0x00), (0b1010, 4));
    assert_eq!(ac.code(0x01), (0b00, 2));
    assert_eq!(ac.code(0xF0), (0b111_1111_1001, 11));
}

#[test]
fn writer_stuffs_ff_and_pads_with_ones() {
    let mut w = JpegWriter::new();
    w.marker(0xD8);
    w.u16(0x1234);
    w.u8(7);
    w.bytes(&[1, 2]);
    w.write_amp(0xFF, 8);
    w.write_amp(0b1, 1);
    w.flush_bits();
    assert_eq!(w.into_inner(), vec![0xFF, 0xD8, 0x12, 0x34, 7, 1, 2, 0xFF, 0x00, 0xFF, 0x00]);
}

#[test]
fn blocks_replicate_edges_and_shift_levels() {
    let plane: Vec<u8> = (0..9u8).map(|v| v * 10).collect();
    let b = sample_block(&plane, 3, 3, 0, 0);
    assert_eq!(b[0], -128);
    assert_eq!(b[2], 20 - 128);
    assert_eq!(b[7], 20 - 128);
    assert_eq!(b[63], 80 - 128);
    let sub = subsample_420(&plane, 3, 3);
    assert_eq!(sub, vec![20, 35, 65, 80]);
}

#[test]
fn quality_is_clamped_before_use() {
    let rgb: Vec<u8> = (0..16 * 16 * 3).map(|i| (i * 7 % 251) as u8).collect();
    let zero = encode_rgb_ex(16, 16, &rgb, 0, Chroma::Sample444);
    let one = encode_rgb_ex(16, 16, &rgb, 1, Chroma::Sample444);
    assert_eq!(zero, one);
    let high = encode_rgb_ex(16, 16, &rgb, 250, Chroma::Sample420);
    let hundred = encode_rgb_ex(16, 16, &rgb, 100, Chroma::Sample420);
    assert_eq!(high, hundred);
    let fifty = encode_rgb_ex(16, 16, &rgb, 50, Chroma::Sample444);
    assert_ne!(fifty, zero);
}
