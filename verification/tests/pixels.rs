use pdfx::pdf::predictor::{decode_png, encode_png_best, encode_tiff2};
use pdfx::pdf::resample::{fit, resize_gray, resize_rgb};
use pdfx::percept::{classify, passes_gate, ImageKind, RgbImage};

#[test]
fn png_roundtrip() {
    let w = 8usize;
    let samples: Vec<u8> = (0..w * 4 * 3).map(|i| (i * 13 % 256) as u8).collect();
    let enc = encode_png_best(&samples, w, 3);
    let dec = decode_png(&enc, w, 3).unwrap();
    assert_eq!(dec, samples);
}

#[test]
fn tiff2_changes_bytes() {
    let samples = vec![10u8, 20, 30, 40, 11, 22, 33, 44];
    let enc = encode_tiff2(&samples, 4, 2);
    assert_ne!(enc, samples);
    assert_eq!(enc.len(), samples.len());
}

#[test]
fn fit_leaves_small() {
    assert_eq!(fit(800, 600, 1920), (800, 600));
}

#[test]
fn fit_4k_to_1080p() {
    assert_eq!(fit(3840, 2160, 1920), (1920, 1080));
}

#[test]
fn box_2x2_rgb() {
    let src = [0, 0, 0, 20, 0, 0, 40, 0, 0, 80, 0, 0];
    let out = resize_rgb(&src, 2, 2, 1, 1);
    assert_eq!(out, vec![35, 0, 0]);
}

#[test]
fn bitonal_classifier() {
    let mut rgb = vec![0u8; 32 * 32 * 3];
    for (i, px) in rgb.chunks_mut(3).enumerate() {
        if i % 2 == 0 {
            px[0] = 255;
            px[1] = 255;
            px[2] = 255;
        }
    }
    let img = RgbImage { width: 32, height: 32, rgb: &rgb };
    assert_eq!(classify(img), ImageKind::Bitonal);
}

#[test]
fn screenshot_blocks() {
    let mut rgb = vec![0u8; 48 * 48 * 3];
    for y in 0..48 {
        for x in 0..48 {
            let i = (y * 48 + x) * 3;
            let (r, g, b) = match (y / 8, x / 8) {
                (0, _) => (40u8, 80, 180),
                (_, 0) => (28, 28, 32),
                (1, 2) => (220, 80, 70),
                (2, 3) => (70, 180, 90),
                (3, _) => (250, 200, 60),
                (_, 5) => (160, 160, 170),
                _ => (244, 244, 248),
            };
            rgb[i] = r;
            rgb[i + 1] = g;
            rgb[i + 2] = b;
        }
    }
    let img = RgbImage { width: 48, height: 48, rgb: &rgb };
    let kind = classify(img);
    assert!(kind == ImageKind::Screenshot || kind == ImageKind::LineArt, "{kind:?}");
}

#[test]
fn photo_like_gradient() {
    let mut rgb = vec![0u8; 64 * 64 * 3];
    for y in 0..64 {
        for x in 0..64 {
            let i = (y * 64 + x) * 3;
            rgb[i] = (x * 3 + y / 2) as u8;
            rgb[i + 1] = (y * 3 + 40) as u8;
            rgb[i + 2] = 180u8.saturating_sub(x as u8);
        }
    }
    let img = RgbImage { width: 64, height: 64, rgb: &rgb };
    assert_eq!(classify(img), ImageKind::Photo);
}

// ---- predictors ----

#[test]
fn png_rows_pick_the_cheapest_filter() {
    // A constant row: "Sub" leaves the first sample and zeros after it.
    let samples = vec![9u8; 6];
    let enc = encode_png_best(&samples, 6, 1);
    assert_eq!(enc, vec![1, 9, 0, 0, 0, 0, 0]);
    // Two equal rows: the second is cheapest as "Up", all zeros.
    let samples = vec![1u8, 50, 99, 1, 50, 99];
    let enc = encode_png_best(&samples, 3, 1);
    assert_eq!(enc[4..], [2, 0, 0, 0]);
    assert_eq!(decode_png(&enc, 3, 1).unwrap(), samples);
}

#[test]
fn png_decode_of_each_filter() {
    // width 2, one component; rows: None, Sub, Up, Average, Paeth.
    let data = vec![0, 10, 20, 1, 5, 5, 2, 1, 1, 3, 4, 4, 4, 0, 0];
    let dec = decode_png(&data, 2, 1).unwrap();
    assert_eq!(dec, vec![10, 20, 5, 10, 6, 11, 7, 13, 7, 13]);
}

#[test]
fn png_decode_rejects_bad_input() {
    assert_eq!(decode_png(&[5, 1, 2], 2, 1), None);
    assert_eq!(decode_png(&[0, 1], 2, 1), None);
    assert_eq!(decode_png(&[], 2, 1), Some(vec![]));
}

#[test]
fn png_roundtrip_on_noise_and_gray() {
    for &(w, c, h) in &[(1usize, 1usize, 1usize), (5, 1, 7), (3, 3, 4), (16, 4, 2)] {
        let samples: Vec<u8> = (0..w * c * h).map(|i| ((i * 7919) >> 3) as u8).collect();
        assert_eq!(decode_png(&encode_png_best(&samples, w, c), w, c).unwrap(), samples);
    }
}

#[test]
fn tiff2_differences_per_component() {
    let enc = encode_tiff2(&[10, 20, 30, 40, 11, 22, 33, 44], 4, 2);
    assert_eq!(enc, vec![10, 20, 20, 20, 237, 238, 22, 22]);
    // A trailing partial row stays as it is.
    let enc = encode_tiff2(&[5, 7, 9, 1, 2], 2, 2);
    assert_eq!(enc, vec![5, 7, 4, 250, 2]);
    assert_eq!(encode_tiff2(&[1, 2, 3], 0, 1), vec![1, 2, 3]);
}

// ---- resampling ----

#[test]
fn fit_rounds_and_keeps_at_least_one() {
    assert_eq!(fit(1921, 1, 1920), (1920, 1));
    assert_eq!(fit(4000, 3, 1920), (1920, 1));
    assert_eq!(fit(1000, 3000, 1920), (640, 1920));
    assert_eq!(fit(0, 0, 1920), (0, 0));
    assert_eq!(fit(3, 2, 2), (2, 1));
}

#[test]
fn box_average_of_gray_rounds_down() {
    let src = [1u8, 2, 3, 4];
    assert_eq!(resize_gray(&src, 2, 2, 1, 1), vec![2]);
    let src: Vec<u8> = (0..16).collect();
    assert_eq!(resize_gray(&src, 4, 4, 2, 2), vec![2, 4, 10, 12]);
    assert_eq!(resize_gray(&src, 4, 4, 4, 4), src);
}

// ---- perceptual gate ----

#[test]
fn gate_rejects_size_change_without_asking() {
    let a = [1u8; 12];
    let b = [1u8; 6];
    let x = RgbImage { width: 2, height: 2, rgb: &a };
    let y = RgbImage { width: 2, height: 1, rgb: &b };
    assert!(!passes_gate(x, y, || panic!("not asked")));
}

#[test]
fn gate_accepts_identical_without_asking() {
    let a = [10u8, 20, 30, 40, 50, 60, 70, 80, 90, 11, 22, 33];
    let img = RgbImage { width: 2, height: 2, rgb: &a };
    assert!(passes_gate(img, img, || panic!("not asked")));
}

#[test]
fn gate_asks_when_pixels_differ() {
    let a = [10u8; 12];
    let b = [11u8; 12];
    let x = RgbImage { width: 2, height: 2, rgb: &a };
    let y = RgbImage { width: 2, height: 2, rgb: &b };
    assert!(passes_gate(x, y, || true));
    assert!(!passes_gate(x, y, || false));
}

#[test]
fn luma_and_pixels() {
    let rgb = [255u8, 255, 255, 255, 0, 0, 0, 0, 0];
    let img = RgbImage { width: 3, height: 1, rgb: &rgb };
    assert_eq!(img.pixels(), 3);
    assert_eq!(img.luma(0), 255);
    assert_eq!(img.luma(1), 76);
    assert_eq!(img.luma(2), 0);
}

#[test]
fn empty_image_is_photo_and_line_art_needs_edges() {
    let img = RgbImage { width: 0, height: 0, rgb: &[] };
    assert_eq!(classify(img), ImageKind::Photo);
    // Few colours with many hard edges: line art.
    let mut rgb = vec![0u8; 16 * 16 * 3];
    for (i, px) in rgb.chunks_mut(3).enumerate() {
        let v = [(255u8, 0u8, 0u8), (0, 0, 255), (255, 255, 255), (0, 0, 0), (0, 255, 0)][i % 5];
        px[0] = v.0;
        px[1] = v.1;
        px[2] = v.2;
    }
    let img = RgbImage { width: 16, height: 16, rgb: &rgb };
    assert_eq!(classify(img), ImageKind::LineArt);
}
