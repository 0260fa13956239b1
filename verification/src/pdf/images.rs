//! Image XObjects: reading their dictionaries, decoding their pixels, fingerprinting,
//! de-duplicating and recompressing them.

use vstd::prelude::*;
use super::object::{PdfObject, PdfDict, PdfStream, PdfDoc, ObjId, ObjView, obj_view, dview,
    dict_get, dict_value, entry_value, list_view, lemma_list_view};
use super::names::{SUBTYPE, IMAGE, WIDTH, HEIGHT, BITS_PER_COMPONENT, FILTER, DECODE_PARMS, COLOR_SPACE,
    DEVICE_GRAY, DEVICE_GREY, DEVICE_RGB, DEVICE_CMYK, CAL_GRAY, CAL_RGB, ICCBASED, IMAGE_MASK, MASK};
use vstd::wrapping::u64_specs::wrapping_mul;
use super::names::{SMASK, PREDICTOR, DCTDECODE, JPXDECODE, JBIG2_DECODE, CCITTFAX_DECODE, TYPE, XOBJECT, LENGTH, DECODE,
    FLATE_DECODE, COLORS, COLUMNS};
use super::object::{dict_set, dict_remove, dict_set_spec, dict_remove_spec, copy_dict, copy_bytes};
use super::resample::{fit, resize_rgb, resize_gray};
use super::predictor::{encode_png_best, png_encoded};
use super::resample::{fit_spec, resized};
use crate::deflate::{compress, zlib_of};
use super::backend::{decoded_stream, jpeg_pixels, decompressed_content, decode_jpeg};
use super::object::{stream_view, entries_view, objects_view, lemma_entries_view, lemma_objects_view, object_at,
    keys_unique, lemma_set_value, lemma_remove_value};
use super::graph::{find_object, key_of, id_key, view_ids_sorted};
use std::collections::HashSet;
use super::predictor::{decode_png, decode_png_spec};

verus! {

broadcast use vstd::std_specs::hash::group_hash_axioms;

/// Counts of what the image pass did.
pub struct ImageStats {
    pub rewritten: u32,
    pub deduped: u32,
    pub skipped: u32,
}

/// Whether the value is the name `n`.
pub open spec fn is_name(v: Option<ObjView>, n: Seq<u8>) -> bool {
    v matches Some(ObjView::Name(m)) && m == n
}

/// Dictionary entries of an image XObject: `/Subtype /Image`, or `/Width`, `/Height` and
/// `/BitsPerComponent` all present.
pub open spec fn is_image_entries(e: Seq<(Seq<u8>, ObjView)>) -> bool {
    is_name(entry_value(e, SUBTYPE@), IMAGE@)
        || (entry_value(e, WIDTH@) is Some && entry_value(e, HEIGHT@) is Some && entry_value(e, BITS_PER_COMPONENT@) is Some)
}

/// An image XObject's dictionary.
pub open spec fn is_image_spec(d: PdfDict) -> bool {
    is_image_entries(dview(d))
}

/// Whether a stream dictionary describes an image.
pub fn is_image(dict: &PdfDict) -> (r: bool)
    ensures
        r == is_image_spec(*dict),
{
    match dict_get(dict, &SUBTYPE) {
        Some(PdfObject::Name(n)) => {
            if bytes_equal(n.as_slice(), &IMAGE) {
                return true;
            }
        },
        _ => {},
    }
    dict_get(dict, &WIDTH).is_some() && dict_get(dict, &HEIGHT).is_some() && dict_get(dict, &BITS_PER_COMPONENT).is_some()
}

/// Byte strings compared.
pub fn bytes_equal(a: &[u8], b: &[u8]) -> (r: bool)
    ensures
        r == (a@ == b@),
{
    if a.len() != b.len() {
        return false;
    }
    let mut i: usize = 0;
    while i < a.len()
        invariant
            a.len() == b.len(),
            i <= a.len(),
            forall|j: int| 0 <= j < i ==> a@[j] == b@[j],
        decreases a.len() - i,
    {
        if a[i] != b[i] {
            return false;
        }
        i = i + 1;
    }
    proof {
        assert(a@ =~= b@);
    }
    true
}

/// The integer a value holds: an integer, or a real truncated toward zero.
pub open spec fn int_value(v: Option<ObjView>) -> Option<i64> {
    match v {
        Some(ObjView::Integer(i)) => Some(i),
        Some(ObjView::Real(_, t)) => Some(t),
        _ => None,
    }
}

/// `/key` of a dictionary as an integer.
pub fn dict_int(dict: &PdfDict, key: &[u8]) -> (r: Option<i64>)
    ensures
        r == int_value(dict_value(*dict, key@)),
{
    match dict_get(dict, key) {
        Some(PdfObject::Integer(i)) => Some(*i),
        Some(PdfObject::Real(_, t)) => Some(*t),
        _ => None,
    }
}

/// Integer `key` of the first dictionary in a list that has it.
pub open spec fn first_int_in(s: Seq<ObjView>, key: Seq<u8>) -> Option<i64>
    decreases s.len(),
{
    if s.len() == 0 {
        None
    } else {
        let here = match s[0] {
            ObjView::Dictionary(e) => int_value(entry_value(e, key)),
            _ => None,
        };
        if here is Some { here } else { first_int_in(s.drop_first(), key) }
    }
}

/// A decode parameter: from `/DecodeParms` as a dictionary, or from the first dictionary
/// in a `/DecodeParms` array that has it.
pub open spec fn decode_parm_spec(d: PdfDict, key: Seq<u8>) -> Option<i64> {
    match dict_value(d, DECODE_PARMS@) {
        Some(ObjView::Dictionary(e)) => int_value(entry_value(e, key)),
        Some(ObjView::Array(a)) => first_int_in(a, key),
        _ => None,
    }
}

/// `key` from `/DecodeParms` (a dictionary, or the first dictionary in an array that has it).
pub fn decode_parm_int(dict: &PdfDict, key: &[u8]) -> (r: Option<i64>)
    ensures
        r == decode_parm_spec(*dict, key@),
{
    let parms = dict_get(dict, &DECODE_PARMS);
    match parms {
        Some(PdfObject::Dictionary(p)) => {
            proof {
                assert(dview(*p) == super::object::entries_view(p.entries@));
            }
            dict_int(p, key)
        },
        Some(PdfObject::Array(a)) => {
            let ghost lv = list_view(a@);
            proof {
                lemma_list_view(a@);
                assert(lv.skip(0) =~= lv);
                assert(decode_parm_spec(*dict, key@) == first_int_in(lv, key@));
            }
            let mut i: usize = 0;
            while i < a.len()
                invariant
                    i <= a.len(),
                    lv == list_view(a@),
                    lv.len() == a@.len(),
                    forall|j: int| 0 <= j < a@.len() ==> #[trigger] lv[j] == obj_view(a@[j]),
                    decode_parm_spec(*dict, key@) == first_int_in(lv, key@),
                    first_int_in(lv, key@) == first_int_in(lv.skip(i as int), key@),
                decreases a.len() - i,
            {
                let ghost rest = lv.skip(i as int);
                proof {
                    assert(rest[0] == lv[i as int]);
                    assert(rest.drop_first() =~= lv.skip(i + 1));
                }
                match &a[i] {
                    PdfObject::Dictionary(p) => {
                        proof {
                            assert(lv[i as int] == ObjView::Dictionary(dview(*p)));
                        }
                        match dict_int(p, key) {
                            Some(v) => {
                                proof {
                                    assert(first_int_in(rest, key@) == Some(v));
                                }
                                return Some(v);
                            },
                            None => {},
                        }
                    },
                    _ => {},
                }
                i = i + 1;
            }
            proof {
                assert(lv.skip(i as int).len() == 0);
            }
            None
        },
        _ => None,
    }
}

/// The last filter of `/Filter` (a name, or the last name of an array).
pub open spec fn leaf_filter_spec(d: PdfDict) -> Option<Seq<u8>> {
    match dict_value(d, FILTER@) {
        Some(ObjView::Name(n)) => Some(n),
        Some(ObjView::Array(a)) => if a.len() > 0 && a.last() is Name { Some(a.last()->Name_0) } else { None },
        _ => None,
    }
}

/// The filter applied last when decoding (the outermost encoding of the bytes).
pub fn leaf_filter(dict: &PdfDict) -> (r: Option<Vec<u8>>)
    ensures
        match r {
            Some(v) => leaf_filter_spec(*dict) == Some(v@),
            None => leaf_filter_spec(*dict) is None,
        },
{
    match dict_get(dict, &FILTER) {
        Some(PdfObject::Name(n)) => Some(super::object::copy_bytes(n.as_slice())),
        Some(PdfObject::Array(a)) => {
            proof {
                lemma_list_view(a@);
            }
            if a.len() > 0 {
                match &a[a.len() - 1] {
                    PdfObject::Name(n) => Some(super::object::copy_bytes(n.as_slice())),
                    _ => None,
                }
            } else {
                None
            }
        },
        _ => None,
    }
}

/// Samples per pixel for a colour space: 1 for gray, 3 for RGB-like and unknown spaces,
/// none for CMYK.
pub open spec fn components_spec(d: PdfDict) -> Option<usize> {
    match dict_value(d, COLOR_SPACE@) {
        Some(ObjView::Name(n)) => {
            if n == DEVICE_GRAY@ || n == DEVICE_GREY@ {
                Some(1)
            } else if n == DEVICE_RGB@ {
                Some(3)
            } else if n == DEVICE_CMYK@ {
                None
            } else {
                Some(3)
            }
        },
        Some(ObjView::Array(a)) => {
            if a.len() > 0 && a[0] is Name {
                let n = a[0]->Name_0;
                if n == DEVICE_GRAY@ || n == CAL_GRAY@ {
                    Some(1)
                } else {
                    Some(3)
                }
            } else {
                Some(3)
            }
        },
        _ => Some(3),
    }
}

/// Samples per pixel of an image's colour space (`None`: not handled).
pub fn color_components(dict: &PdfDict) -> (r: Option<usize>)
    ensures
        r == components_spec(*dict),
{
    match dict_get(dict, &COLOR_SPACE) {
        Some(PdfObject::Name(n)) => {
            if bytes_equal(n.as_slice(), &DEVICE_GRAY) || bytes_equal(n.as_slice(), &DEVICE_GREY) {
                Some(1)
            } else if bytes_equal(n.as_slice(), &DEVICE_RGB) {
                Some(3)
            } else if bytes_equal(n.as_slice(), &DEVICE_CMYK) {
                None
            } else {
                Some(3)
            }
        },
        Some(PdfObject::Array(a)) => {
            proof {
                lemma_list_view(a@);
            }
            if a.len() > 0 {
                match &a[0] {
                    PdfObject::Name(n) => {
                        if bytes_equal(n.as_slice(), &DEVICE_GRAY) || bytes_equal(n.as_slice(), &CAL_GRAY) {
                            return Some(1);
                        }
                        if bytes_equal(n.as_slice(), &DEVICE_RGB) || bytes_equal(n.as_slice(), &CAL_RGB)
                            || bytes_equal(n.as_slice(), &ICCBASED) {
                            return Some(3);
                        }
                        Some(3)
                    },
                    _ => Some(3),
                }
            } else {
                Some(3)
            }
        },
        _ => Some(3),
    }
}

/// Stencil masks, colour-key masked images and soft masks are left as they are.
pub open spec fn should_skip_spec(d: PdfDict, is_smask: bool) -> bool {
    dict_value(d, IMAGE_MASK@) == Some(ObjView::Boolean(true))
        || dict_value(d, MASK@) matches Some(ObjView::Array(_))
        || is_smask
}

/// Whether an image must be left untouched.
pub fn should_skip(dict: &PdfDict, is_smask: bool) -> (r: bool)
    ensures
        r == should_skip_spec(*dict, is_smask),
{
    match dict_get(dict, &IMAGE_MASK) {
        Some(PdfObject::Boolean(true)) => {
            return true;
        },
        _ => {},
    }
    match dict_get(dict, &MASK) {
        Some(PdfObject::Array(_)) => {
            return true;
        },
        _ => {},
    }
    if is_smask {
        return true;
    }
    false
}

/// FNV-1a state and fold after the first `n` bytes.
pub open spec fn fnv_state(data: Seq<u8>, n: nat) -> (u64, Seq<u8>)
    decreases n,
{
    if n == 0 {
        (0xcbf2_9ce4_8422_2325u64, Seq::new(32, |i: int| 0u8))
    } else {
        let (x0, h0) = fnv_state(data, (n - 1) as nat);
        let i = (n - 1) as int;
        let b = data[i];
        let x = wrapping_mul(x0 ^ (b as u64), 0x0100_0000_01b3u64);
        let h1 = h0.update(i % 32, h0[i % 32] ^ ((x >> (((i % 8) * 8) as u64)) as u8));
        let h2 = h1.update((i + 7) % 32, h1[(i + 7) % 32] ^ b);
        (x, h2)
    }
}

/// The 32-byte fingerprint used to find identical images.
pub open spec fn fingerprint(data: Seq<u8>) -> Seq<u8> {
    let h = fnv_state(data, data.len()).1;
    h.update(0, h[0] ^ (data.len() as u64) as u8)
}

/// FNV-1a folded into 32 bytes: a fast fingerprint for de-duplication, not a cryptographic hash.
pub fn hash_bytes(data: &[u8]) -> (h: [u8; 32])
    ensures
        h@ == fingerprint(data@),
{
    let mut h = [0u8; 32];
    let mut x: u64 = 0xcbf2_9ce4_8422_2325;
    let mut i: usize = 0;
    proof {
        assert(h@ =~= Seq::new(32, |i: int| 0u8));
    }
    while i < data.len()
        invariant
            i <= data.len(),
            (x, h@) == fnv_state(data@, i as nat),
            h@.len() == 32,
        decreases data.len() - i,
    {
        let b = data[i];
        x = x ^ (b as u64);
        x = x.wrapping_mul(0x0100_0000_01b3);
        let a = i % 32;
        let sh = ((i % 8) * 8) as u64;
        h[a] = h[a] ^ ((x >> sh) as u8);
        let c = (i % 32 + 7) % 32;
        proof {
            assert((i % 32 + 7) % 32 == (i + 7) % 32) by (nonlinear_arith);
        }
        h[c] = h[c] ^ b;
        i = i + 1;
        proof {
            assert((x, h@) == fnv_state(data@, i as nat));
        }
    }
    h[0] = h[0] ^ (data.len() as u64) as u8;
    proof {
        assert(h@ =~= fingerprint(data@));
    }
    h
}

/// A stream's bytes with its filters undone, or its raw bytes when that fails.
pub open spec fn raw_data(s: PdfStream) -> Seq<u8> {
    match decoded_stream(stream_view(s)) {
        Some(v) => v,
        None => s.content@,
    }
}

/// Samples after undoing a PNG predictor (`/Predictor` 10 and up), if there is one.
pub open spec fn unpredicted(data: Seq<u8>, d: PdfDict, w: int, cs: int) -> Option<Seq<u8>> {
    let pred = match decode_parm_spec(d, PREDICTOR@) {
        Some(p) => p as int,
        None => 1,
    };
    if pred >= 10 {
        if w * cs >= usize::MAX { None } else { decode_png_spec(data, w * cs, cs) }
    } else {
        Some(data)
    }
}

/// Bits per component, 8 when absent.
pub open spec fn bpc_of(d: PdfDict) -> int {
    match int_value(dict_value(d, BITS_PER_COMPONENT@)) {
        Some(b) => b as int,
        None => 8,
    }
}

/// RGB pixels of an uncompressed-filter image: 8-bit gray expanded to RGB, or 8-bit RGB.
pub open spec fn raw_rgb_spec(s: PdfStream, w: int, h: int) -> Option<Seq<u8>> {
    let d = s.dict;
    match components_spec(d) {
        None => None,
        Some(cs) => match unpredicted(raw_data(s), d, w, cs as int) {
            None => None,
            Some(samples) => {
                let n = w * h;
                if bpc_of(d) != 8 || n * 3 > usize::MAX {
                    None
                } else if cs == 1 {
                    if samples.len() < n { None } else { Some(Seq::new((3 * n) as nat, |i: int| samples[i / 3])) }
                } else if cs == 3 {
                    if samples.len() < 3 * n { None } else { Some(samples.take(3 * n)) }
                } else {
                    None
                }
            },
        },
    }
}

/// Gray samples of an uncompressed-filter 8-bit mask.
pub open spec fn raw_gray_spec(s: PdfStream, w: int, h: int) -> Option<Seq<u8>> {
    let d = s.dict;
    if bpc_of(d) != 8 || w * h > usize::MAX {
        None
    } else {
        match unpredicted(raw_data(s), d, w, 1) {
            None => None,
            Some(samples) => if samples.len() < w * h { None } else { Some(samples.take(w * h)) },
        }
    }
}

fn stream_data(s: &PdfStream) -> (data: Vec<u8>)
    ensures
        data@ == raw_data(*s),
{
    match decompressed_content(s) {
        Ok(v) => v,
        Err(_) => super::object::copy_bytes(s.content.as_slice()),
    }
}

fn undo_predictor(data: Vec<u8>, d: &PdfDict, w: u32, cs: usize) -> (r: Option<Vec<u8>>)
    requires
        cs <= 3,
    ensures
        match r {
            Some(v) => unpredicted(data@, *d, w as int, cs as int) == Some(v@),
            None => unpredicted(data@, *d, w as int, cs as int) is None,
        },
{
    let pred = match decode_parm_int(d, &PREDICTOR) {
        Some(p) => p,
        None => 1,
    };
    if pred >= 10 {
        proof {
            assert(w as u64 * cs as u64 <= u32::MAX as u64 * 3) by (nonlinear_arith)
                requires
                    cs <= 3,
            ;
        }
        if w as u64 * cs as u64 >= usize::MAX as u64 {
            return None;
        }
        decode_png(data.as_slice(), w as usize, cs)
    } else {
        Some(data)
    }
}

/// Pixels of an image stored with general-purpose filters, as 8-bit RGB.
pub fn raw_to_rgb(stream: &PdfStream, width: u32, height: u32) -> (r: Option<Vec<u8>>)
    ensures
        match r {
            Some(v) => raw_rgb_spec(*stream, width as int, height as int) == Some(v@),
            None => raw_rgb_spec(*stream, width as int, height as int) is None,
        },
{
    let data = stream_data(stream);
    let bpc = match dict_int(&stream.dict, &BITS_PER_COMPONENT) {
        Some(b) => b,
        None => 8,
    };
    let cs = match color_components(&stream.dict) {
        Some(c) => c,
        None => {
            return None;
        },
    };
    let samples = match undo_predictor(data, &stream.dict, width, cs) {
        Some(v) => v,
        None => {
            return None;
        },
    };
    if bpc != 8 {
        return None;
    }
    proof {
        assert(width as u128 * height as u128 <= u32::MAX as u128 * u32::MAX as u128) by (nonlinear_arith);
    }
    if width as u128 * height as u128 * 3 > usize::MAX as u128 {
        return None;
    }
    let n = width as usize * height as usize;
    if cs == 1 {
        if samples.len() < n {
            return None;
        }
        let mut rgb: Vec<u8> = Vec::new();
        let mut i: usize = 0;
        while i < 3 * n
            invariant
                n * 3 <= usize::MAX,
                i <= 3 * n,
                samples.len() >= n,
                rgb@.len() == i,
                forall|j: int| 0 <= j < i ==> #[trigger] rgb@[j] == samples@[j / 3],
            decreases 3 * n - i,
        {
            rgb.push(samples[i / 3]);
            i = i + 1;
        }
        proof {
            assert(rgb@ =~= Seq::new((3 * n) as nat, |i: int| samples@[i / 3]));
        }
        Some(rgb)
    } else if cs == 3 {
        if samples.len() < n * 3 {
            return None;
        }
        let mut rgb: Vec<u8> = Vec::new();
        let mut i: usize = 0;
        while i < 3 * n
            invariant
                n * 3 <= usize::MAX,
                i <= 3 * n,
                samples.len() >= 3 * n,
                rgb@ == samples@.take(i as int),
            decreases 3 * n - i,
        {
            rgb.push(samples[i]);
            i = i + 1;
            proof {
                assert(rgb@ =~= samples@.take(i as int));
            }
        }
        Some(rgb)
    } else {
        None
    }
}

/// Gray samples of a mask stored with general-purpose filters.
pub fn raw_to_gray(stream: &PdfStream, width: u32, height: u32) -> (r: Option<Vec<u8>>)
    ensures
        match r {
            Some(v) => raw_gray_spec(*stream, width as int, height as int) == Some(v@),
            None => raw_gray_spec(*stream, width as int, height as int) is None,
        },
{
    let data = stream_data(stream);
    let bpc = match dict_int(&stream.dict, &BITS_PER_COMPONENT) {
        Some(b) => b,
        None => 8,
    };
    if bpc != 8 {
        return None;
    }
    proof {
        assert(width as u128 * height as u128 <= u32::MAX as u128 * u32::MAX as u128) by (nonlinear_arith);
    }
    if width as u128 * height as u128 > usize::MAX as u128 {
        return None;
    }
    let samples = match undo_predictor(data, &stream.dict, width, 1) {
        Some(v) => v,
        None => {
            return None;
        },
    };
    let n = width as usize * height as usize;
    if samples.len() < n {
        return None;
    }
    let mut out: Vec<u8> = Vec::new();
    let mut i: usize = 0;
    while i < n
        invariant
            i <= n,
            samples.len() >= n,
            out@ == samples@.take(i as int),
        decreases n - i,
    {
        out.push(samples[i]);
        i = i + 1;
        proof {
            assert(out@ =~= samples@.take(i as int));
        }
    }
    Some(out)
}

/// An image's pixels as the pass sees them, or why it is left alone.
pub struct DecodedImage {
    pub width: u32,
    pub height: u32,
    pub rgb: Vec<u8>,
    pub skip_reason: Option<&'static str>,
    pub original_len: usize,
    pub fingerprint: [u8; 32],
}

/// What decoding gives, as plain values.
pub struct DecodedView {
    pub width: u32,
    pub height: u32,
    pub rgb: Seq<u8>,
    pub skip_reason: Option<&'static str>,
    pub original_len: nat,
    pub fingerprint: Seq<u8>,
}

/// The view of a decoded image.
pub open spec fn decoded_view(d: DecodedImage) -> DecodedView {
    DecodedView {
        width: d.width,
        height: d.height,
        rgb: d.rgb@,
        skip_reason: d.skip_reason,
        original_len: d.original_len as nat,
        fingerprint: d.fingerprint@,
    }
}

/// An image left alone: no pixels, the raw bytes' fingerprint.
pub open spec fn skipped_view(s: PdfStream, w: u32, h: u32, reason: &'static str) -> DecodedView {
    DecodedView {
        width: w,
        height: h,
        rgb: Seq::empty(),
        skip_reason: Some(reason),
        original_len: s.content@.len(),
        fingerprint: fingerprint(s.content@),
    }
}

/// `/Width` or `/Height` as the pass reads it: the integer truncated to 32 bits, 0 when absent.
pub open spec fn dim_of(d: PdfDict, key: Seq<u8>) -> u32 {
    match int_value(dict_value(d, key)) {
        Some(v) => v as u32,
        None => 0,
    }
}

/// How an image stream decodes for the pass.
pub open spec fn decode_spec(s: PdfStream, is_smask: bool) -> DecodedView {
    let d = s.dict;
    let w = dim_of(d, WIDTH@);
    let h = dim_of(d, HEIGHT@);
    if should_skip_spec(d, is_smask) {
        skipped_view(s, 0, 0, "stencil or gray mask")
    } else if w == 0 || h == 0 {
        skipped_view(s, w, h, "bad dimensions")
    } else {
        let f = leaf_filter_spec(d);
        let pixels: Result<Seq<u8>, &'static str> = if f == Some(DCTDECODE@) {
            match jpeg_pixels(s.content@) {
                Some(p) => Ok(p),
                None => Err("jpeg decode failed"),
            }
        } else if f == Some(JPXDECODE@) || f == Some(JBIG2_DECODE@) || f == Some(CCITTFAX_DECODE@) {
            Err("unsupported filter")
        } else {
            match raw_rgb_spec(s, w as int, h as int) {
                Some(p) => Ok(p),
                None => Err("raw decode failed"),
            }
        };
        match pixels {
            Err(reason) => skipped_view(s, w, h, reason),
            Ok(rgb) => if rgb.len() != w * h * 3 {
                skipped_view(s, w, h, "pixel size mismatch")
            } else {
                DecodedView {
                    width: w,
                    height: h,
                    rgb,
                    skip_reason: None,
                    original_len: s.content@.len(),
                    fingerprint: fingerprint(rgb),
                }
            },
        }
    }
}

fn skipped(stream: &PdfStream, width: u32, height: u32, reason: &'static str) -> (d: DecodedImage)
    ensures
        decoded_view(d) == skipped_view(*stream, width, height, reason),
{
    DecodedImage {
        width,
        height,
        rgb: Vec::new(),
        skip_reason: Some(reason),
        original_len: stream.content.len(),
        fingerprint: hash_bytes(stream.content.as_slice()),
    }
}

fn dim(dict: &PdfDict, key: &[u8]) -> (r: u32)
    ensures
        r == dim_of(*dict, key@),
{
    match dict_int(dict, key) {
        Some(v) => v as u32,
        None => 0,
    }
}

/// Decode an image stream to RGB, or record why it is skipped.
pub fn decode_image(stream: &PdfStream, is_smask: bool) -> (img: DecodedImage)
    ensures
        decoded_view(img) == decode_spec(*stream, is_smask),
{
    if should_skip(&stream.dict, is_smask) {
        return skipped(stream, 0, 0, "stencil or gray mask");
    }
    let width = dim(&stream.dict, &WIDTH);
    let height = dim(&stream.dict, &HEIGHT);
    if width == 0 || height == 0 {
        return skipped(stream, width, height, "bad dimensions");
    }
    let filter = leaf_filter(&stream.dict);
    let is_dct = match &filter {
        Some(f) => bytes_equal(f.as_slice(), &DCTDECODE),
        None => false,
    };
    let unsupported = match &filter {
        Some(f) => bytes_equal(f.as_slice(), &JPXDECODE) || bytes_equal(f.as_slice(), &JBIG2_DECODE)
            || bytes_equal(f.as_slice(), &CCITTFAX_DECODE),
        None => false,
    };
    let rgb = if is_dct {
        match decode_jpeg(stream.content.as_slice()) {
            Some(p) => p,
            None => {
                return skipped(stream, width, height, "jpeg decode failed");
            },
        }
    } else if unsupported {
        return skipped(stream, width, height, "unsupported filter");
    } else {
        match raw_to_rgb(stream, width, height) {
            Some(p) => p,
            None => {
                return skipped(stream, width, height, "raw decode failed");
            },
        }
    };
    proof {
        assert(width as u128 * height as u128 <= u32::MAX as u128 * u32::MAX as u128) by (nonlinear_arith);
    }
    if rgb.len() as u128 != width as u128 * height as u128 * 3 {
        return skipped(stream, width, height, "pixel size mismatch");
    }
    let fp = hash_bytes(rgb.as_slice());
    DecodedImage {
        width,
        height,
        rgb,
        skip_reason: None,
        original_len: stream.content.len(),
        fingerprint: fp,
    }
}

/// Longest edge a rewritten bitmap keeps; larger ones are scaled down before JPEG.
pub const MAX_EDGE: u32 = 1920;

/// The single JPEG quality the pass uses.
pub const JPEG_QUALITY: u8 = 62;

/// The dictionary of a rewritten image: the old entries with type, size, colour space,
/// depth, filter and length replaced, decode parameters set or dropped, `/Decode` dropped.
pub open spec fn image_dict_spec(old: Seq<(Seq<u8>, ObjView)>, width: u32, height: u32, len: nat,
    filter: ObjView, parms: Option<ObjView>) -> Seq<(Seq<u8>, ObjView)> {
    let d1 = dict_set_spec(old, TYPE@, ObjView::Name(XOBJECT@));
    let d2 = dict_set_spec(d1, SUBTYPE@, ObjView::Name(IMAGE@));
    let d3 = dict_set_spec(d2, WIDTH@, ObjView::Integer(width as i64));
    let d4 = dict_set_spec(d3, HEIGHT@, ObjView::Integer(height as i64));
    let d5 = dict_set_spec(d4, COLOR_SPACE@, ObjView::Name(DEVICE_RGB@));
    let d6 = dict_set_spec(d5, BITS_PER_COMPONENT@, ObjView::Integer(8));
    let d7 = dict_set_spec(d6, FILTER@, filter);
    let d8 = match parms {
        Some(p) => dict_set_spec(d7, DECODE_PARMS@, p),
        None => dict_remove_spec(d7, DECODE_PARMS@),
    };
    let d9 = dict_remove_spec(d8, DECODE@);
    dict_set_spec(d9, LENGTH@, ObjView::Integer(len as i64))
}

/// The value a rewritten image dictionary has under key `q`.
proof fn lemma_image_dict_lookup(old: Seq<(Seq<u8>, ObjView)>, width: u32, height: u32, len: nat, filter: ObjView,
    parms: Option<ObjView>, q: Seq<u8>)
    requires
        keys_unique(old),
    ensures
        keys_unique(image_dict_spec(old, width, height, len, filter, parms)),
        entry_value(image_dict_spec(old, width, height, len, filter, parms), q) == (
            if q == LENGTH@ { Some(ObjView::Integer(len as i64)) }
            else if q == DECODE@ { None }
            else if q == DECODE_PARMS@ { parms }
            else if q == FILTER@ { Some(filter) }
            else if q == BITS_PER_COMPONENT@ { Some(ObjView::Integer(8)) }
            else if q == COLOR_SPACE@ { Some(ObjView::Name(DEVICE_RGB@)) }
            else if q == HEIGHT@ { Some(ObjView::Integer(height as i64)) }
            else if q == WIDTH@ { Some(ObjView::Integer(width as i64)) }
            else if q == SUBTYPE@ { Some(ObjView::Name(IMAGE@)) }
            else if q == TYPE@ { Some(ObjView::Name(XOBJECT@)) }
            else { entry_value(old, q) }),
{
    let d1 = dict_set_spec(old, TYPE@, ObjView::Name(XOBJECT@));
    lemma_set_value(old, TYPE@, ObjView::Name(XOBJECT@), q);
    let d2 = dict_set_spec(d1, SUBTYPE@, ObjView::Name(IMAGE@));
    lemma_set_value(d1, SUBTYPE@, ObjView::Name(IMAGE@), q);
    let d3 = dict_set_spec(d2, WIDTH@, ObjView::Integer(width as i64));
    lemma_set_value(d2, WIDTH@, ObjView::Integer(width as i64), q);
    let d4 = dict_set_spec(d3, HEIGHT@, ObjView::Integer(height as i64));
    lemma_set_value(d3, HEIGHT@, ObjView::Integer(height as i64), q);
    let d5 = dict_set_spec(d4, COLOR_SPACE@, ObjView::Name(DEVICE_RGB@));
    lemma_set_value(d4, COLOR_SPACE@, ObjView::Name(DEVICE_RGB@), q);
    let d6 = dict_set_spec(d5, BITS_PER_COMPONENT@, ObjView::Integer(8));
    lemma_set_value(d5, BITS_PER_COMPONENT@, ObjView::Integer(8), q);
    let d7 = dict_set_spec(d6, FILTER@, filter);
    lemma_set_value(d6, FILTER@, filter, q);
    let d8 = match parms {
        Some(p) => dict_set_spec(d7, DECODE_PARMS@, p),
        None => dict_remove_spec(d7, DECODE_PARMS@),
    };
    match parms {
        Some(p) => lemma_set_value(d7, DECODE_PARMS@, p, q),
        None => lemma_remove_value(d7, DECODE_PARMS@, q),
    }
    let d9 = dict_remove_spec(d8, DECODE@);
    lemma_remove_value(d8, DECODE@, q);
    lemma_set_value(d9, LENGTH@, ObjView::Integer(len as i64), q);
}

/// A rewritten image's dictionary says what its stream holds: `/Width` is `width` and
/// `/Height` is `height`, the size its pixels were encoded at; `/ColorSpace /DeviceRGB`, 8
/// bits per component, the given `/Filter` and `/DecodeParms` (none when not given), no
/// `/Decode`, `/Length` the content's length, and an image XObject; every other entry is the
/// old dictionary's (whose keys are distinct, as in any lopdf dictionary).
pub proof fn lemma_image_dict_entries(old: Seq<(Seq<u8>, ObjView)>, width: u32, height: u32, len: nat,
    filter: ObjView, parms: Option<ObjView>, q: Seq<u8>)
    requires
        keys_unique(old),
    ensures
        ({
            let d = image_dict_spec(old, width, height, len, filter, parms);
            &&& entry_value(d, WIDTH@) == Some(ObjView::Integer(width as i64))
            &&& entry_value(d, HEIGHT@) == Some(ObjView::Integer(height as i64))
            &&& entry_value(d, COLOR_SPACE@) == Some(ObjView::Name(DEVICE_RGB@))
            &&& entry_value(d, BITS_PER_COMPONENT@) == Some(ObjView::Integer(8))
            &&& entry_value(d, FILTER@) == Some(filter)
            &&& entry_value(d, DECODE_PARMS@) == parms
            &&& entry_value(d, DECODE@) is None
            &&& entry_value(d, LENGTH@) == Some(ObjView::Integer(len as i64))
            &&& entry_value(d, TYPE@) == Some(ObjView::Name(XOBJECT@))
            &&& entry_value(d, SUBTYPE@) == Some(ObjView::Name(IMAGE@))
            &&& (q != WIDTH@ && q != HEIGHT@ && q != COLOR_SPACE@ && q != BITS_PER_COMPONENT@ && q != FILTER@
                && q != DECODE_PARMS@ && q != DECODE@ && q != LENGTH@ && q != TYPE@ && q != SUBTYPE@
                ==> entry_value(d, q) == entry_value(old, q))
            &&& keys_unique(d)
        }),
{
    let keys = seq![WIDTH@, HEIGHT@, COLOR_SPACE@, BITS_PER_COMPONENT@, FILTER@, DECODE_PARMS@, DECODE@, LENGTH@, TYPE@, SUBTYPE@];
    assert(WIDTH@.len() == 5 && HEIGHT@.len() == 6 && COLOR_SPACE@.len() == 10 && BITS_PER_COMPONENT@.len() == 16
        && FILTER@.len() == 6 && DECODE_PARMS@.len() == 11 && DECODE@.len() == 6 && LENGTH@.len() == 6
        && TYPE@.len() == 4 && SUBTYPE@.len() == 7);
    assert(HEIGHT@[0] == 72 && FILTER@[0] == 70 && DECODE@[0] == 68 && LENGTH@[0] == 76);
    assert(HEIGHT@ != FILTER@ && HEIGHT@ != DECODE@ && HEIGHT@ != LENGTH@ && FILTER@ != DECODE@
        && FILTER@ != LENGTH@ && DECODE@ != LENGTH@);
    lemma_image_dict_lookup(old, width, height, len, filter, parms, WIDTH@);
    lemma_image_dict_lookup(old, width, height, len, filter, parms, HEIGHT@);
    lemma_image_dict_lookup(old, width, height, len, filter, parms, COLOR_SPACE@);
    lemma_image_dict_lookup(old, width, height, len, filter, parms, BITS_PER_COMPONENT@);
    lemma_image_dict_lookup(old, width, height, len, filter, parms, FILTER@);
    lemma_image_dict_lookup(old, width, height, len, filter, parms, DECODE_PARMS@);
    lemma_image_dict_lookup(old, width, height, len, filter, parms, DECODE@);
    lemma_image_dict_lookup(old, width, height, len, filter, parms, LENGTH@);
    lemma_image_dict_lookup(old, width, height, len, filter, parms, TYPE@);
    lemma_image_dict_lookup(old, width, height, len, filter, parms, SUBTYPE@);
    lemma_image_dict_lookup(old, width, height, len, filter, parms, q);
}

/// A new image stream: the content under the rewritten dictionary, not to be recompressed.
pub fn image_stream(old_dict: &PdfDict, width: u32, height: u32, content: Vec<u8>, filter: PdfObject,
    decode_parms: Option<PdfObject>) -> (s: PdfStream)
    ensures
        dview(s.dict) == image_dict_spec(dview(*old_dict), width, height, content@.len(), obj_view(filter),
            match decode_parms { Some(p) => Some(obj_view(p)), None => None }),
        s.content@ == content@,
        !s.allows_compression,
        s.start_position is None,
{
    let mut dict = copy_dict(old_dict);
    dict_set(&mut dict, &TYPE, PdfObject::Name(copy_bytes(&XOBJECT)));
    dict_set(&mut dict, &SUBTYPE, PdfObject::Name(copy_bytes(&IMAGE)));
    dict_set(&mut dict, &WIDTH, PdfObject::Integer(width as i64));
    dict_set(&mut dict, &HEIGHT, PdfObject::Integer(height as i64));
    dict_set(&mut dict, &COLOR_SPACE, PdfObject::Name(copy_bytes(&DEVICE_RGB)));
    dict_set(&mut dict, &BITS_PER_COMPONENT, PdfObject::Integer(8));
    dict_set(&mut dict, &FILTER, filter);
    match decode_parms {
        Some(p) => dict_set(&mut dict, &DECODE_PARMS, p),
        None => dict_remove(&mut dict, &DECODE_PARMS),
    }
    dict_remove(&mut dict, &DECODE);
    let ghost d9 = dview(dict);
    dict_set(&mut dict, &LENGTH, PdfObject::Integer(content.len() as i64));
    dict_set(&mut dict, &LENGTH, PdfObject::Integer(content.len() as i64));
    proof {
        super::object::lemma_set_idempotent(d9, LENGTH@, ObjView::Integer(content@.len() as i64));
    }
    PdfStream { dict, content, allows_compression: false, start_position: None }
}

/// Decode parameters of a rewritten predictor image: PNG predictors, 3 colours, 8 bits, `width` columns.
pub open spec fn png_parms_spec(width: u32) -> Seq<(Seq<u8>, ObjView)> {
    let e = Seq::<(Seq<u8>, ObjView)>::empty();
    let p1 = dict_set_spec(e, PREDICTOR@, ObjView::Integer(15));
    let p2 = dict_set_spec(p1, COLORS@, ObjView::Integer(3));
    let p3 = dict_set_spec(p2, BITS_PER_COMPONENT@, ObjView::Integer(8));
    dict_set_spec(p3, COLUMNS@, ObjView::Integer(width as i64))
}

/// `content` is the zlib stream of the RGB samples under the best PNG filter per row.
pub open spec fn png_flate(content: Seq<u8>, rgb: Seq<u8>, width: u32) -> bool {
    exists|f: Seq<u8>| png_encoded(f, rgb, width * 3, 3) && zlib_of(content, f)
}

/// Lossless fallback: PNG-predicted, deflated RGB.
fn recompress_predictor(rgb: &Vec<u8>, width: u32, height: u32, old_dict: &PdfDict) -> (s: PdfStream)
    requires
        rgb@.len() == width as int * height * 3,
        width as int * height <= 6400,
    ensures
        dview(s.dict) == image_dict_spec(dview(*old_dict), width, height, s.content@.len(),
            ObjView::Name(FLATE_DECODE@), Some(ObjView::Dictionary(png_parms_spec(width)))),
        png_flate(s.content@, rgb@, width),
{
    proof {
        if width > 0 && height > 0 {
            assert(width <= 6400) by (nonlinear_arith)
                requires
                    width as int * height <= 6400,
                    height >= 1,
            ;
            assert(rgb@.len() == height as int * (width as int * 3)) by (nonlinear_arith)
                requires
                    rgb@.len() == width as int * height * 3,
            ;
            vstd::arithmetic::div_mod::lemma_mod_multiples_basic(height as int, width as int * 3);
        }
        if height == 0 || width == 0 {
            assert(rgb@.len() == 0) by (nonlinear_arith)
                requires
                    rgb@.len() == width as int * height * 3,
                    height == 0 || width == 0,
            ;
        }
    }
    let filtered = if width == 0 || height == 0 {
        encode_png_best(rgb.as_slice(), 0, 3)
    } else {
        encode_png_best(rgb.as_slice(), width as usize, 3)
    };
    proof {
        let stride = width as int * 3;
        let h = if stride == 0 { 0 } else { rgb@.len() as int / stride };
        assert(filtered@.len() <= 4 * 6400) by {
            if width > 0 && height > 0 {
                assert(rgb@.len() as int / stride == height as int) by (nonlinear_arith)
                    requires
                        rgb@.len() == height as int * stride,
                        stride > 0,
                ;
                assert((stride + 1) * height <= 4 * 6400) by (nonlinear_arith)
                    requires
                        stride == width as int * 3,
                        width as int * height <= 6400,
                        height >= 1,
                        width >= 1,
                ;
                assert(filtered@.len() == (stride + 1) * height);
            }
        }
    }
    let compressed = compress(filtered.as_slice());
    let mut parms = PdfDict { entries: Vec::new() };
    proof {
        assert(dview(parms) =~= Seq::<(Seq<u8>, ObjView)>::empty());
    }
    dict_set(&mut parms, &PREDICTOR, PdfObject::Integer(15));
    dict_set(&mut parms, &COLORS, PdfObject::Integer(3));
    dict_set(&mut parms, &BITS_PER_COMPONENT, PdfObject::Integer(8));
    dict_set(&mut parms, &COLUMNS, PdfObject::Integer(width as i64));
    let ghost pv = dview(parms);
    let s = image_stream(old_dict, width, height, compressed, PdfObject::Name(copy_bytes(&FLATE_DECODE)),
        Some(PdfObject::Dictionary(parms)));
    proof {
        if width == 0 || height == 0 {
            assert(filtered@.len() == 0);
            assert(png_encoded(filtered@, rgb@, width * 3, 3));
        }
        assert(png_encoded(filtered@, rgb@, width * 3, 3));
    }
    s
}

/// The pixels that are re-encoded: the image scaled to the size `fit` gives, when that
/// differs from its own.
pub open spec fn fitted_rgb(rgb: Seq<u8>, width: u32, height: u32) -> Seq<u8> {
    let (tw, th) = fit_spec(width, height, MAX_EDGE);
    if tw != width || th != height {
        resized(rgb, width as int, height as int, tw as int, th as int, 3)
    } else {
        rgb
    }
}

/// `encode_jpeg`, called on the size and the pixels, may give the bytes `out`.
pub open spec fn jpeg_gives<J: Fn(u32, u32, &[u8]) -> Vec<u8>>(encode_jpeg: J, width: u32, height: u32,
    rgb: Seq<u8>, out: Seq<u8>) -> bool {
    exists|a: &[u8], j: Vec<u8>| a@ == rgb && call_ensures(encode_jpeg, (width, height, a), j) && j@ == out
}

/// `encode_jpeg`, on the image scaled to fit, may give a JPEG no smaller than the original.
pub open spec fn jpeg_not_smaller<J: Fn(u32, u32, &[u8]) -> Vec<u8>>(encode_jpeg: J, img: DecodedImage) -> bool {
    let (tw, th) = fit_spec(img.width, img.height, MAX_EDGE);
    exists|c: Seq<u8>| jpeg_gives(encode_jpeg, tw, th, fitted_rgb(img.rgb@, img.width, img.height), c)
        && c.len() >= img.original_len as nat
}

/// Neither re-encoding beats the original: the JPEG is no smaller, and the image scaled to fit
/// has more than 80x80 pixels or its lossless encoding is no smaller either.
pub open spec fn recompress_declines<J: Fn(u32, u32, &[u8]) -> Vec<u8>>(encode_jpeg: J, img: DecodedImage) -> bool {
    let (tw, th) = fit_spec(img.width, img.height, MAX_EDGE);
    &&& jpeg_not_smaller(encode_jpeg, img)
    &&& tw as int * th > 6400 || exists|c: Seq<u8>| png_flate(c, fitted_rgb(img.rgb@, img.width, img.height), tw)
        && c.len() >= img.original_len as nat
}

/// A replacement `recompress` may give for the image, whose dictionary had entries `old`:
/// shorter than the original, sized as `fit` says, and either what `encode_jpeg` gives for
/// the scaled pixels under a DCT dictionary, or (when that JPEG is no smaller and the image
/// has at most 80x80 pixels) their PNG-predicted deflate under a Flate dictionary.
pub open spec fn image_rewrite<J: Fn(u32, u32, &[u8]) -> Vec<u8>>(encode_jpeg: J, img: DecodedImage,
    old: Seq<(Seq<u8>, ObjView)>, s: PdfStream) -> bool {
    let (tw, th) = fit_spec(img.width, img.height, MAX_EDGE);
    let px = fitted_rgb(img.rgb@, img.width, img.height);
    &&& s.content@.len() < img.original_len as nat
    &&& (jpeg_gives(encode_jpeg, tw, th, px, s.content@)
        && dview(s.dict) == image_dict_spec(old, tw, th, s.content@.len(), ObjView::Name(DCTDECODE@), None))
        || (jpeg_not_smaller(encode_jpeg, img) && tw as int * th <= 6400 && png_flate(s.content@, px, tw)
        && dview(s.dict) == image_dict_spec(old, tw, th, s.content@.len(), ObjView::Name(FLATE_DECODE@),
            Some(ObjView::Dictionary(png_parms_spec(tw)))))
}

/// A replacement `recompress` may give carries its own size: `/Width` and `/Height` are the
/// size its content was encoded at (the JPEG from `encode_jpeg`, or the PNG-predicted rows of
/// that width), which for an image within `MAX_EDGE` on both sides is the image's own size.
pub proof fn lemma_replacement_size<J: Fn(u32, u32, &[u8]) -> Vec<u8>>(encode_jpeg: J, img: DecodedImage,
    old: Seq<(Seq<u8>, ObjView)>, s: PdfStream)
    requires
        image_rewrite(encode_jpeg, img, old, s),
        keys_unique(old),
    ensures
        ({
            let (tw, th) = fit_spec(img.width, img.height, MAX_EDGE);
            let px = fitted_rgb(img.rgb@, img.width, img.height);
            &&& dict_value(s.dict, WIDTH@) == Some(ObjView::Integer(tw as i64))
            &&& dict_value(s.dict, HEIGHT@) == Some(ObjView::Integer(th as i64))
            &&& jpeg_gives(encode_jpeg, tw, th, px, s.content@) || png_flate(s.content@, px, tw)
            &&& (img.width <= MAX_EDGE && img.height <= MAX_EDGE ==> tw == img.width && th == img.height)
        }),
{
    let (tw, th) = fit_spec(img.width, img.height, MAX_EDGE);
    let len = s.content@.len();
    lemma_image_dict_entries(old, tw, th, len, ObjView::Name(DCTDECODE@), None, WIDTH@);
    lemma_image_dict_entries(old, tw, th, len, ObjView::Name(FLATE_DECODE@),
        Some(ObjView::Dictionary(png_parms_spec(tw))), WIDTH@);
}

/// Re-encode decoded pixels: scaled to fit `MAX_EDGE`, as JPEG by `encode_jpeg` when
/// that is smaller than the original, else (for at most 80x80 pixels) losslessly when that
/// is smaller. `None` when neither beats the original.
fn recompress<J: Fn(u32, u32, &[u8]) -> Vec<u8>>(img: &DecodedImage, old_dict: &PdfDict, encode_jpeg: &J) -> (r: Option<PdfStream>)
    requires
        img.width >= 1,
        img.height >= 1,
        img.rgb@.len() == img.width as int * img.height * 3,
        forall|w: u32, h: u32, rgb: &[u8]| encode_jpeg.requires((w, h, rgb)),
    ensures
        match r {
            Some(s) => image_rewrite(*encode_jpeg, *img, dview(*old_dict), s),
            None => recompress_declines(*encode_jpeg, *img),
        },
{
    let (tw, th) = fit(img.width, img.height, MAX_EDGE);
    proof {
        super::resample::lemma_fit_bounds(img.width, img.height, MAX_EDGE);
    }
    let resized_rgb: Vec<u8>;
    let (w, h, rgb): (u32, u32, &Vec<u8>) = if tw != img.width || th != img.height {
        proof {
            assert(tw as int * th * 3 <= img.width as int * img.height * 3) by (nonlinear_arith)
                requires
                    tw <= img.width,
                    th <= img.height,
            ;
            let n = img.rgb.len();
            assert(img.rgb@.len() == n);
        }
        resized_rgb = resize_rgb(img.rgb.as_slice(), img.width, img.height, tw, th);
        proof {
            assert(resized_rgb@.len() == tw as int * th * 3);
        }
        (tw, th, &resized_rgb)
    } else {
        (img.width, img.height, &img.rgb)
    };
    let ghost px = fitted_rgb(img.rgb@, img.width, img.height);
    proof {
        assert(rgb@ == px);
        assert(w == tw && h == th);
    }
    let arg = rgb.as_slice();
    let jpeg = encode_jpeg(w, h, arg);
    proof {
        assert(jpeg_gives(*encode_jpeg, tw, th, px, jpeg@));
    }
    if jpeg.len() < img.original_len {
        let s = image_stream(old_dict, w, h, jpeg, PdfObject::Name(copy_bytes(&DCTDECODE)), None);
        return Some(s);
    }
    proof {
        assert(w as int * h <= u32::MAX as int * u32::MAX) by (nonlinear_arith);
    }
    let pixels: u32 = if w as u64 * h as u64 > u32::MAX as u64 { u32::MAX } else { w * h };
    if pixels <= 80 * 80 {
        let pred = recompress_predictor(rgb, w, h, old_dict);
        if pred.content.len() < img.original_len {
            return Some(pred);
        }
        proof {
            assert(png_flate(pred.content@, px, tw));
        }
    }
    None
}

/// Gray samples of a soft mask: JPEG-coded (gray, or the first channel of RGB) or raw.
pub open spec fn decode_gray_spec(s: PdfStream) -> Option<Seq<u8>> {
    let d = s.dict;
    match (int_value(dict_value(d, WIDTH@)), int_value(dict_value(d, HEIGHT@))) {
        (Some(wv), Some(hv)) => {
            let w = wv as u32;
            let h = hv as u32;
            let n = w * h;
            if n == 0 || n * 3 > usize::MAX {
                None
            } else if leaf_filter_spec(d) == Some(DCTDECODE@) {
                match jpeg_pixels(s.content@) {
                    None => None,
                    Some(p) => if p.len() == n {
                        Some(p)
                    } else if p.len() == 3 * n {
                        Some(Seq::new(n as nat, |i: int| p[3 * i]))
                    } else {
                        None
                    },
                }
            } else {
                raw_gray_spec(s, w as int, h as int)
            }
        },
        _ => None,
    }
}

/// Decode a soft mask's gray samples.
pub fn decode_gray(stream: &PdfStream) -> (r: Option<Vec<u8>>)
    ensures
        match r {
            Some(v) => decode_gray_spec(*stream) == Some(v@)
                && v@.len() == dim_of(stream.dict, WIDTH@) as int * dim_of(stream.dict, HEIGHT@),
            None => decode_gray_spec(*stream) is None,
        },
{
    let width = match dict_int(&stream.dict, &WIDTH) {
        Some(v) => v as u32,
        None => {
            return None;
        },
    };
    let height = match dict_int(&stream.dict, &HEIGHT) {
        Some(v) => v as u32,
        None => {
            return None;
        },
    };
    proof {
        assert(width as u128 * height as u128 <= u32::MAX as u128 * u32::MAX as u128) by (nonlinear_arith);
    }
    if width as u128 * height as u128 * 3 > usize::MAX as u128 {
        return None;
    }
    let n = width as usize * height as usize;
    if n == 0 {
        return None;
    }
    let filter = leaf_filter(&stream.dict);
    let is_dct = match &filter {
        Some(f) => bytes_equal(f.as_slice(), &DCTDECODE),
        None => false,
    };
    if is_dct {
        let pixels = match decode_jpeg(stream.content.as_slice()) {
            Some(p) => p,
            None => {
                return None;
            },
        };
        if pixels.len() == n {
            return Some(pixels);
        }
        if pixels.len() == n * 3 {
            let mut gray: Vec<u8> = Vec::new();
            let mut i: usize = 0;
            while i < n
                invariant
                    i <= n,
                    n * 3 <= usize::MAX,
                    pixels@.len() == 3 * n,
                    gray@.len() == i,
                    forall|j: int| 0 <= j < i ==> #[trigger] gray@[j] == pixels@[3 * j],
                decreases n - i,
            {
                gray.push(pixels[i * 3]);
                i = i + 1;
            }
            proof {
                assert(gray@ =~= Seq::new(n as nat, |i: int| pixels@[3 * i]));
            }
            return Some(gray);
        }
        return None;
    }
    raw_to_gray(stream, width, height)
}

/// The object is a stream or dictionary whose `/SMask` refers to `target`.
pub open spec fn has_smask(o: ObjView, target: ObjId) -> bool {
    match o {
        ObjView::Stream(e, _, _, _) => entry_value(e, super::names::SMASK@) == Some(ObjView::Reference(target)),
        ObjView::Dictionary(e) => entry_value(e, super::names::SMASK@) == Some(ObjView::Reference(target)),
        _ => false,
    }
}

/// How many objects name `target` as their soft mask.
pub open spec fn smask_count(ov: Seq<(ObjId, ObjView)>, target: ObjId) -> nat
    decreases ov.len(),
{
    if ov.len() == 0 {
        0
    } else {
        smask_count(ov.drop_last(), target) + (if has_smask(ov.last().1, target) { 1nat } else { 0nat })
    }
}

fn object_smask<'a>(o: &'a PdfObject) -> (r: Option<&'a PdfObject>)
    ensures
        match obj_view(*o) {
            ObjView::Stream(e, _, _, _) => match r {
                Some(v) => entry_value(e, super::names::SMASK@) == Some(obj_view(*v)),
                None => entry_value(e, super::names::SMASK@) is None,
            },
            ObjView::Dictionary(e) => match r {
                Some(v) => entry_value(e, super::names::SMASK@) == Some(obj_view(*v)),
                None => entry_value(e, super::names::SMASK@) is None,
            },
            _ => r is None,
        },
{
    match o {
        PdfObject::Stream(s) => dict_get(&s.dict, &super::names::SMASK),
        PdfObject::Dictionary(d) => dict_get(d, &super::names::SMASK),
        _ => None,
    }
}

/// Count the objects whose `/SMask` refers to `target`.
pub fn smask_refcount(objects: &Vec<(ObjId, PdfObject)>, target: ObjId) -> (n: usize)
    ensures
        n == smask_count(super::object::objects_view(objects@), target),
{
    let ghost ov = super::object::objects_view(objects@);
    proof {
        super::object::lemma_objects_view(objects@);
        assert(ov.take(0) =~= Seq::<(ObjId, ObjView)>::empty());
    }
    let mut n: usize = 0;
    let mut i: usize = 0;
    while i < objects.len()
        invariant
            i <= objects.len(),
            ov == super::object::objects_view(objects@),
            ov.len() == objects@.len(),
            forall|j: int| 0 <= j < objects@.len() ==> #[trigger] ov[j] == (objects@[j].0, obj_view(objects@[j].1)),
            n == smask_count(ov.take(i as int), target),
            n <= i,
        decreases objects.len() - i,
    {
        proof {
            assert(ov.take(i + 1).drop_last() =~= ov.take(i as int));
        }
        let hit = match object_smask(&objects[i].1) {
            Some(PdfObject::Reference(id)) => id.0 == target.0 && id.1 == target.1,
            _ => false,
        };
        if hit {
            n = n + 1;
        }
        i = i + 1;
    }
    proof {
        assert(ov.take(i as int) =~= ov);
    }
    n
}

/// Where `remap` sends `id` (its first entry for `id`), if anywhere.
pub open spec fn remap_lookup(remap: Seq<(ObjId, ObjId)>, id: ObjId) -> Option<ObjId>
    decreases remap.len(),
{
    if remap.len() == 0 {
        None
    } else if remap[0].0 == id {
        Some(remap[0].1)
    } else {
        remap_lookup(remap.drop_first(), id)
    }
}

/// A value with every reference that `remap` names sent to its target.
pub open spec fn remapped(o: ObjView, remap: Seq<(ObjId, ObjId)>) -> ObjView
    decreases o,
{
    match o {
        ObjView::Reference(id) => match remap_lookup(remap, id) {
            Some(n) => ObjView::Reference(n),
            None => o,
        },
        ObjView::Array(v) => ObjView::Array(remapped_list(v, remap)),
        ObjView::Dictionary(e) => ObjView::Dictionary(remapped_entries(e, remap)),
        ObjView::Stream(e, c, a, p) => ObjView::Stream(remapped_entries(e, remap), c, a, p),
        _ => o,
    }
}

/// A list with its references remapped.
pub open spec fn remapped_list(s: Seq<ObjView>, remap: Seq<(ObjId, ObjId)>) -> Seq<ObjView>
    decreases s,
{
    if s.len() == 0 {
        Seq::empty()
    } else {
        remapped_list(s.drop_last(), remap).push(remapped(s.last(), remap))
    }
}

/// Dictionary entries with their references remapped.
pub open spec fn remapped_entries(s: Seq<(Seq<u8>, ObjView)>, remap: Seq<(ObjId, ObjId)>) -> Seq<(Seq<u8>, ObjView)>
    decreases s,
{
    if s.len() == 0 {
        Seq::empty()
    } else {
        remapped_entries(s.drop_last(), remap).push((s.last().0, remapped(s.last().1, remap)))
    }
}

fn lookup_remap(remap: &Vec<(ObjId, ObjId)>, id: ObjId) -> (r: Option<ObjId>)
    ensures
        r == remap_lookup(remap@, id),
{
    let mut i: usize = 0;
    proof {
        assert(remap@.skip(0) =~= remap@);
    }
    while i < remap.len()
        invariant
            i <= remap.len(),
            remap_lookup(remap@, id) == remap_lookup(remap@.skip(i as int), id),
        decreases remap.len() - i,
    {
        proof {
            assert(remap@.skip(i as int)[0] == remap@[i as int]);
            assert(remap@.skip(i as int).drop_first() =~= remap@.skip(i + 1));
        }
        if remap[i].0.0 == id.0 && remap[i].0.1 == id.1 {
            return Some(remap[i].1);
        }
        i = i + 1;
    }
    None
}

/// Send every reference inside `o` that `remap` names to its target.
#[verifier::loop_isolation(false)]
pub fn remap_object(o: PdfObject, remap: &Vec<(ObjId, ObjId)>) -> (r: PdfObject)
    ensures
        obj_view(r) == remapped(obj_view(o), remap@),
    decreases o,
{
    match o {
        PdfObject::Reference(id) => match lookup_remap(remap, id) {
            Some(n) => PdfObject::Reference(n),
            None => PdfObject::Reference(id),
        },
        PdfObject::Array(v) => {
            let ghost orig = v@;
            proof {
                lemma_list_view(orig);
            }
            let mut rest = v;
            let mut rev: Vec<PdfObject> = Vec::new();
            while rest.len() > 0
                invariant
                    rest@ == orig.take(rest@.len() as int),
                    rest@.len() + rev@.len() == orig.len(),
                    forall|j: int| 0 <= j < rev@.len() ==> #[trigger] obj_view(rev@[j])
                        == remapped(obj_view(orig[orig.len() - 1 - j]), remap@),
                decreases rest@.len(),
            {
                let ghost k = rest@.len() - 1;
                let x = rest.pop().unwrap();
                proof {
                    assert(x == orig[k]);
                    vstd::std_specs::vec::axiom_vec_index_decreases(v, k);
                    assert(rest@ =~= orig.take(rest@.len() as int));
                }
                let y = remap_object(x, remap);
                rev.push(y);
            }
            let mut out: Vec<PdfObject> = Vec::new();
            while rev.len() > 0
                invariant
                    rev@.len() + out@.len() == orig.len(),
                    forall|j: int| 0 <= j < rev@.len() ==> #[trigger] obj_view(rev@[j])
                        == remapped(obj_view(orig[orig.len() - 1 - j]), remap@),
                    forall|j: int| 0 <= j < out@.len() ==> #[trigger] obj_view(out@[j]) == remapped(obj_view(orig[j]), remap@),
                decreases rev@.len(),
            {
                let ghost k = rev@.len() - 1;
                let y = rev.pop().unwrap();
                proof {
                    assert(obj_view(y) == remapped(obj_view(orig[orig.len() - 1 - k]), remap@));
                }
                out.push(y);
            }
            proof {
                lemma_list_view(out@);
                lemma_remapped_list(list_view(orig), remap@);
                assert(list_view(out@) =~= remapped_list(list_view(orig), remap@));
            }
            PdfObject::Array(out)
        },
        PdfObject::Dictionary(d) => PdfObject::Dictionary(remap_dict(d, remap)),
        PdfObject::Stream(st) => {
            let PdfStream { dict, content, allows_compression, start_position } = st;
            PdfObject::Stream(PdfStream { dict: remap_dict(dict, remap), content, allows_compression, start_position })
        },
        other => other,
    }
}

proof fn lemma_remapped_list(s: Seq<ObjView>, remap: Seq<(ObjId, ObjId)>)
    ensures
        remapped_list(s, remap).len() == s.len(),
        forall|j: int| 0 <= j < s.len() ==> #[trigger] remapped_list(s, remap)[j] == remapped(s[j], remap),
    decreases s.len(),
{
    if s.len() > 0 {
        lemma_remapped_list(s.drop_last(), remap);
    }
}

proof fn lemma_remapped_entries(s: Seq<(Seq<u8>, ObjView)>, remap: Seq<(ObjId, ObjId)>)
    ensures
        remapped_entries(s, remap).len() == s.len(),
        forall|j: int| 0 <= j < s.len() ==> #[trigger] remapped_entries(s, remap)[j] == (s[j].0, remapped(s[j].1, remap)),
    decreases s.len(),
{
    if s.len() > 0 {
        lemma_remapped_entries(s.drop_last(), remap);
    }
}

/// Send every reference inside a dictionary's values that `remap` names to its target.
#[verifier::loop_isolation(false)]
pub fn remap_dict(d: PdfDict, remap: &Vec<(ObjId, ObjId)>) -> (r: PdfDict)
    ensures
        dview(r) == remapped_entries(dview(d), remap@),
    decreases d,
{
    let ghost orig = d.entries@;
    proof {
        lemma_entries_view(orig);
    }
    let PdfDict { entries } = d;
    let mut rest = entries;
    let mut rev: Vec<(Vec<u8>, PdfObject)> = Vec::new();
    while rest.len() > 0
        invariant
            rest@ == orig.take(rest@.len() as int),
            rest@.len() + rev@.len() == orig.len(),
            forall|j: int| 0 <= j < rev@.len() ==> (#[trigger] rev@[j]).0@ == orig[orig.len() - 1 - j].0@
                && obj_view(rev@[j].1) == remapped(obj_view(orig[orig.len() - 1 - j].1), remap@),
        decreases rest@.len(),
    {
        let ghost k = rest@.len() - 1;
        let (key, x) = rest.pop().unwrap();
        proof {
            assert((key, x) == orig[k]);
            vstd::std_specs::vec::axiom_vec_index_decreases(d.entries, k);
            assert(rest@ =~= orig.take(rest@.len() as int));
        }
        let y = remap_object(x, remap);
        rev.push((key, y));
    }
    let mut out: Vec<(Vec<u8>, PdfObject)> = Vec::new();
    while rev.len() > 0
        invariant
            rev@.len() + out@.len() == orig.len(),
            forall|j: int| 0 <= j < rev@.len() ==> (#[trigger] rev@[j]).0@ == orig[orig.len() - 1 - j].0@
                && obj_view(rev@[j].1) == remapped(obj_view(orig[orig.len() - 1 - j].1), remap@),
            forall|j: int| 0 <= j < out@.len() ==> (#[trigger] out@[j]).0@ == orig[j].0@
                && obj_view(out@[j].1) == remapped(obj_view(orig[j].1), remap@),
        decreases rev@.len(),
    {
        let ghost k = rev@.len() - 1;
        let e = rev.pop().unwrap();
        out.push(e);
    }
    proof {
        lemma_entries_view(out@);
        lemma_remapped_entries(entries_view(orig), remap@);
        assert(entries_view(out@) =~= remapped_entries(entries_view(orig), remap@));
    }
    PdfDict { entries: out }
}

/// What two images must share to be merged: fingerprint, size and every pixel.
pub type DedupKey = (Seq<u8>, u32, u32, Seq<u8>);

/// The key an image takes part in de-duplication with; skipped images take no part.
pub open spec fn dedup_key(d: DecodedView) -> Option<DedupKey> {
    if d.skip_reason is Some { None } else { Some((d.fingerprint, d.width, d.height, d.rgb)) }
}

/// Index of the first of the first `n` images with key `f`.
pub open spec fn first_with(keys: Seq<Option<DedupKey>>, f: DedupKey, n: int) -> Option<int>
    decreases n,
{
    if n <= 0 {
        None
    } else {
        match first_with(keys, f, n - 1) {
            Some(j) => Some(j),
            None => if keys[n - 1] == Some(f) { Some(n - 1) } else { None },
        }
    }
}

/// The de-duplication plan for the first `k` images: each image whose key (fingerprint,
/// size and pixels) an earlier one already has is sent to the first image with that key.
pub open spec fn dedup_spec(ids: Seq<ObjId>, keys: Seq<Option<DedupKey>>, k: nat) -> Seq<(ObjId, ObjId)>
    decreases k,
{
    if k == 0 {
        Seq::empty()
    } else {
        let prev = dedup_spec(ids, keys, (k - 1) as nat);
        match keys[k - 1] {
            None => prev,
            Some(f) => match first_with(keys, f, k - 1) {
                Some(j) => prev.push((ids[k - 1], ids[j])),
                None => prev,
            },
        }
    }
}

/// Number of skipped images among the first `k`.
pub open spec fn skipped_count(keys: Seq<Option<DedupKey>>, k: nat) -> nat
    decreases k,
{
    if k == 0 { 0 } else { skipped_count(keys, (k - 1) as nat) + (if keys[k - 1] is None { 1nat } else { 0nat }) }
}

/// The ids of decoded images.
pub open spec fn image_ids(decoded: Seq<(ObjId, DecodedImage)>) -> Seq<ObjId> {
    decoded.map_values(|e: (ObjId, DecodedImage)| e.0)
}

/// The de-duplication keys of decoded images.
pub open spec fn image_keys(decoded: Seq<(ObjId, DecodedImage)>) -> Seq<Option<DedupKey>> {
    decoded.map_values(|e: (ObjId, DecodedImage)| dedup_key(decoded_view(e.1)))
}

proof fn lemma_first_with_bounds(keys: Seq<Option<DedupKey>>, f: DedupKey, n: int)
    ensures
        match first_with(keys, f, n) {
            Some(j) => 0 <= j < n && keys[j] == Some(f) && forall|i: int| 0 <= i < j ==> keys[i] != Some(f),
            None => forall|i: int| 0 <= i < n ==> keys[i] != Some(f),
        },
    decreases n,
{
    if n > 0 {
        lemma_first_with_bounds(keys, f, n - 1);
    }
}

fn same_fp(a: &[u8; 32], b: &[u8; 32]) -> (r: bool)
    ensures
        r == (a@ == b@),
{
    let mut i: usize = 0;
    while i < 32
        invariant
            i <= 32,
            forall|j: int| 0 <= j < i ==> a@[j] == b@[j],
        decreases 32 - i,
    {
        if a[i] != b[i] {
            return false;
        }
        i = i + 1;
    }
    proof {
        assert(a@ =~= b@);
    }
    true
}

fn same_image(a: &DecodedImage, b: &DecodedImage) -> (r: bool)
    ensures
        r == ((decoded_view(*a).fingerprint, a.width, a.height, decoded_view(*a).rgb)
            == (decoded_view(*b).fingerprint, b.width, b.height, decoded_view(*b).rgb)),
{
    same_fp(&a.fingerprint, &b.fingerprint) && a.width == b.width && a.height == b.height
        && bytes_equal(a.rgb.as_slice(), b.rgb.as_slice())
}

/// Plan the de-duplication: which image goes to which earlier identical image (same
/// fingerprint, size and pixels), and how many images are skipped.
pub fn dedup_plan(decoded: &Vec<(ObjId, DecodedImage)>) -> (r: (Vec<(ObjId, ObjId)>, u32))
    ensures
        r.0@ == dedup_spec(image_ids(decoded@), image_keys(decoded@), decoded@.len()),
        r.1 == skipped_count(image_keys(decoded@), decoded@.len()) as u32,
{
    let ghost ids = image_ids(decoded@);
    let ghost keys = image_keys(decoded@);
    let mut firsts: Vec<usize> = Vec::new();
    let mut remap: Vec<(ObjId, ObjId)> = Vec::new();
    let mut skipped: u64 = 0;
    let mut i: usize = 0;
    while i < decoded.len()
        invariant
            i <= decoded.len(),
            ids == image_ids(decoded@),
            keys == image_keys(decoded@),
            ids.len() == decoded@.len(),
            keys.len() == decoded@.len(),
            remap@ == dedup_spec(ids, keys, i as nat),
            skipped == skipped_count(keys, i as nat),
            skipped <= i,
            forall|t: int| 0 <= t < firsts@.len() ==> #[trigger] firsts@[t] < i && keys[firsts@[t] as int] is Some
                && first_with(keys, keys[firsts@[t] as int]->0, i as int) == Some(firsts@[t] as int),
            forall|j: int| 0 <= j < i && keys[j] is Some ==> exists|t: int| 0 <= t < firsts@.len()
                && keys[#[trigger] firsts@[t] as int] == keys[j],
        decreases decoded.len() - i,
    {
        let ghost k = keys[i as int];
        proof {
            assert(decoded.len() <= u64::MAX);
            assert(k == dedup_key(decoded_view(decoded@[i as int].1)));
            assert(ids[i as int] == decoded@[i as int].0);
        }
        let img = &decoded[i].1;
        if img.skip_reason.is_some() {
            skipped = skipped + 1;
            proof {
                assert forall|t: int| 0 <= t < firsts@.len() implies #[trigger] firsts@[t] < i + 1
                    && keys[firsts@[t] as int] is Some
                    && first_with(keys, keys[firsts@[t] as int]->0, i + 1) == Some(firsts@[t] as int) by {
                    assert(first_with(keys, keys[firsts@[t] as int]->0, i as int) == Some(firsts@[t] as int));
                }
            }
            i = i + 1;
            continue;
        }
        let ghost f = k->0;
        let mut t: usize = 0;
        let mut found: Option<usize> = None;
        while t < firsts.len()
            invariant_except_break
                found is None,
                forall|u: int| 0 <= u < t ==> keys[#[trigger] firsts@[u] as int] != k,
            invariant
                t <= firsts.len(),
                keys == image_keys(decoded@),
                keys.len() == decoded@.len(),
                k == keys[i as int],
                i < decoded.len(),
                k == dedup_key(decoded_view(decoded@[i as int].1)),
                decoded@[i as int].1.skip_reason is None,
                *img == decoded@[i as int].1,
                forall|u: int| 0 <= u < firsts@.len() ==> #[trigger] firsts@[u] < i,
            ensures
                found is None ==> forall|u: int| 0 <= u < firsts@.len() ==> keys[#[trigger] firsts@[u] as int] != k,
                found is Some ==> t < firsts@.len() && keys[firsts@[t as int] as int] == k && found->0 == firsts@[t as int],
            decreases firsts.len() - t,
        {
            let j = firsts[t];
            let same = same_image(&decoded[j].1, img);
            proof {
                assert(keys[j as int] == dedup_key(decoded_view(decoded@[j as int].1)));
                assert(keys[j as int] == k <==> (decoded@[j as int].1.skip_reason is None && same));
            }
            if decoded[j].1.skip_reason.is_none() && same {
                found = Some(j);
                break;
            }
            t = t + 1;
        }
        proof {
            lemma_first_with_bounds(keys, f, i as int);
        }
        match found {
            Some(first) => {
                proof {
                    assert(first_with(keys, f, i as int) == Some(first as int));
                }
                remap.push((decoded[i].0, decoded[first].0));
                proof {
                    assert(ids[first as int] == decoded@[first as int].0);
                    assert forall|u: int| 0 <= u < firsts@.len() implies #[trigger] firsts@[u] < i + 1
                        && keys[firsts@[u] as int] is Some
                        && first_with(keys, keys[firsts@[u] as int]->0, i + 1) == Some(firsts@[u] as int) by {
                        assert(first_with(keys, keys[firsts@[u] as int]->0, i as int) == Some(firsts@[u] as int));
                    }
                }
            },
            None => {
                proof {
                    if first_with(keys, f, i as int) is Some {
                        let j = first_with(keys, f, i as int)->0;
                        let u = choose|u: int| 0 <= u < firsts@.len() && keys[#[trigger] firsts@[u] as int] == keys[j];
                        assert(keys[firsts@[u] as int] != k);
                    }
                }
                let ghost old_firsts = firsts@;
                firsts.push(i);
                proof {
                    assert forall|u: int| 0 <= u < firsts@.len() implies #[trigger] firsts@[u] < i + 1
                        && keys[firsts@[u] as int] is Some
                        && first_with(keys, keys[firsts@[u] as int]->0, i + 1) == Some(firsts@[u] as int) by {
                        if u == old_firsts.len() {
                            assert(firsts@[u] == i);
                            assert(first_with(keys, f, i + 1) == Some(i as int));
                        } else {
                            assert(firsts@[u] == old_firsts[u]);
                            assert(first_with(keys, keys[old_firsts[u] as int]->0, i as int) == Some(old_firsts[u] as int));
                        }
                    }
                    assert forall|j: int| 0 <= j < i + 1 && keys[j] is Some implies exists|u: int| 0 <= u < firsts@.len()
                        && keys[#[trigger] firsts@[u] as int] == keys[j] by {
                        if j == i {
                            assert(firsts@[old_firsts.len() as int] == i);
                        } else {
                            let u = choose|u: int| 0 <= u < old_firsts.len() && keys[#[trigger] old_firsts[u] as int] == keys[j];
                            assert(firsts@[u] == old_firsts[u]);
                        }
                    }
                }
            },
        }
        i = i + 1;
    }
    (remap, skipped as u32)
}

/// The soft mask a stream or dictionary names, if any.
pub open spec fn smask_of(o: ObjView) -> Option<ObjView> {
    match o {
        ObjView::Stream(e, _, _, _) => entry_value(e, super::names::SMASK@),
        ObjView::Dictionary(e) => entry_value(e, super::names::SMASK@),
        _ => None,
    }
}

/// Ids some object names as its soft mask.
pub open spec fn is_smask_target(ov: Seq<(ObjId, ObjView)>, id: ObjId) -> bool {
    exists|i: int| 0 <= i < ov.len() && smask_of(#[trigger] ov[i].1) == Some(ObjView::Reference(id))
}

/// Keys of the ids that some object names as its soft mask.
pub fn collect_smask_ids(objects: &Vec<(ObjId, PdfObject)>) -> (out: HashSet<u64>)
    ensures
        forall|id: ObjId| #[trigger] out@.contains(id_key(id)) <==> is_smask_target(objects_view(objects@), id),
{
    let ghost ov = objects_view(objects@);
    proof {
        lemma_objects_view(objects@);
    }
    let mut out: HashSet<u64> = HashSet::new();
    let mut i: usize = 0;
    while i < objects.len()
        invariant
            i <= objects.len(),
            ov == objects_view(objects@),
            ov.len() == objects@.len(),
            forall|j: int| 0 <= j < objects@.len() ==> #[trigger] ov[j] == (objects@[j].0, obj_view(objects@[j].1)),
            forall|id: ObjId| #[trigger] out@.contains(id_key(id)) <==> exists|j: int| 0 <= j < i
                && smask_of(#[trigger] ov[j].1) == Some(ObjView::Reference(id)),
        decreases objects.len() - i,
    {
        match object_smask(&objects[i].1) {
            Some(PdfObject::Reference(id)) => {
                out.insert(key_of(*id));
                proof {
                    assert(smask_of(ov[i as int].1) == Some(ObjView::Reference(*id)));
                    assert forall|q: ObjId| #[trigger] out@.contains(id_key(q)) <==> exists|j: int| 0 <= j < i + 1
                        && smask_of(#[trigger] ov[j].1) == Some(ObjView::Reference(q)) by {
                        if id_key(q) == id_key(*id) {
                            assert(q == *id);
                        }
                        if exists|j: int| 0 <= j < i + 1 && smask_of(#[trigger] ov[j].1) == Some(ObjView::Reference(q)) {
                            let j = choose|j: int| 0 <= j < i + 1 && smask_of(#[trigger] ov[j].1) == Some(ObjView::Reference(q));
                            if j == i {
                                assert(q == *id);
                            }
                        }
                    }
                }
            },
            _ => {
                proof {
                    assert forall|q: ObjId| #[trigger] out@.contains(id_key(q)) <==> exists|j: int| 0 <= j < i + 1
                        && smask_of(#[trigger] ov[j].1) == Some(ObjView::Reference(q)) by {
                        if exists|j: int| 0 <= j < i + 1 && smask_of(#[trigger] ov[j].1) == Some(ObjView::Reference(q)) {
                            let j = choose|j: int| 0 <= j < i + 1 && smask_of(#[trigger] ov[j].1) == Some(ObjView::Reference(q));
                            if j == i {
                                assert(false);
                            }
                        }
                    }
                }
            },
        }
        i = i + 1;
    }
    out
}

/// lopdf's `get_object`: the object at `id`, following chains of references (at most
/// 128 steps; longer chains and dangling references give nothing).
pub open spec fn deref_spec(ov: Seq<(ObjId, ObjView)>, o: Option<ObjView>, steps: nat) -> Option<ObjView>
    decreases 129 - steps,
{
    match o {
        Some(ObjView::Reference(r)) => if steps >= 128 {
            None
        } else {
            deref_spec(ov, object_at(ov, r), steps + 1)
        },
        _ => o,
    }
}

/// Index of the object that `id` leads to, following references like lopdf's `get_object`.
pub fn get_object(objects: &Vec<(ObjId, PdfObject)>, id: ObjId) -> (r: Option<usize>)
    requires
        view_ids_sorted(objects_view(objects@)),
    ensures
        match r {
            Some(k) => k < objects@.len() && deref_spec(objects_view(objects@), object_at(objects_view(objects@), id), 0)
                == Some(obj_view(objects@[k as int].1)),
            None => deref_spec(objects_view(objects@), object_at(objects_view(objects@), id), 0) is None,
        },
{
    let ghost ov = objects_view(objects@);
    let mut k = match find_object(objects, id) {
        Some(k) => k,
        None => {
            return None;
        },
    };
    let mut steps: usize = 0;
    loop
        invariant
            steps <= 128,
            k < objects@.len(),
            ov == objects_view(objects@),
            view_ids_sorted(ov),
            deref_spec(ov, object_at(ov, id), 0) == deref_spec(ov, Some(obj_view(objects@[k as int].1)), steps as nat),
        decreases 128 - steps,
    {
        match &objects[k].1 {
            PdfObject::Reference(r) => {
                if steps >= 128 {
                    return None;
                }
                match find_object(objects, *r) {
                    Some(k2) => {
                        k = k2;
                    },
                    None => {
                        proof {
                            assert(obj_view(objects@[k as int].1) == ObjView::Reference(*r));
                            assert(deref_spec(ov, Some(ObjView::Reference(*r)), steps as nat)
                                == deref_spec(ov, object_at(ov, *r), (steps + 1) as nat));
                        }
                        return None;
                    },
                }
                steps = steps + 1;
            },
            _ => {
                return Some(k);
            },
        }
    }
}

/// The ids of a list of objects.
pub open spec fn view_ids(ov: Seq<(ObjId, ObjView)>) -> Seq<ObjId> {
    ov.map_values(|e: (ObjId, ObjView)| e.0)
}

/// The target of a dictionary's `/SMask` reference, if it has one.
pub open spec fn smask_target(d: PdfDict) -> Option<ObjId> {
    match dict_value(d, SMASK@) {
        Some(ObjView::Reference(id)) => Some(id),
        _ => None,
    }
}

/// Dictionary of a rewritten soft mask: new size, gray, 8 bits, Flate, no decode parameters.
pub open spec fn mask_dict_spec(old: Seq<(Seq<u8>, ObjView)>, width: u32, height: u32, len: nat) -> Seq<(Seq<u8>, ObjView)> {
    let d1 = dict_set_spec(old, WIDTH@, ObjView::Integer(width as i64));
    let d2 = dict_set_spec(d1, HEIGHT@, ObjView::Integer(height as i64));
    let d3 = dict_set_spec(d2, COLOR_SPACE@, ObjView::Name(DEVICE_GRAY@));
    let d4 = dict_set_spec(d3, BITS_PER_COMPONENT@, ObjView::Integer(8));
    let d5 = dict_set_spec(d4, FILTER@, ObjView::Name(FLATE_DECODE@));
    let d6 = dict_remove_spec(d5, DECODE_PARMS@);
    dict_set_spec(d6, LENGTH@, ObjView::Integer(len as i64))
}

/// `nv` is the soft mask `ms` decoded, scaled to `width` x `height` and deflated.
pub open spec fn mask_ok(ms: PdfStream, nv: ObjView, width: u32, height: u32) -> bool {
    let sw = dim_of(ms.dict, WIDTH@);
    let sh = dim_of(ms.dict, HEIGHT@);
    &&& sw > 0 && sh > 0
    &&& decode_gray_spec(ms) is Some
    &&& nv matches ObjView::Stream(e, c, a, p) && {
        let g = decode_gray_spec(ms)->0;
        let r = if sw == width && sh == height { g } else { resized(g, sw as int, sh as int, width as int, height as int, 1) };
        &&& zlib_of(c, r)
        &&& e == mask_dict_spec(dview(ms.dict), width, height, c.len())
        &&& !a
        &&& p is None
    }
}

/// Whether the soft mask can be brought to the new size: scaled, its samples stay below
/// 2^31 - 1 bytes.
pub open spec fn mask_resizable(ms: PdfStream, width: u32, height: u32) -> bool {
    let sw = dim_of(ms.dict, WIDTH@);
    let sh = dim_of(ms.dict, HEIGHT@);
    &&& sw > 0 && sh > 0
    &&& decode_gray_spec(ms) is Some
    &&& {
        let g = decode_gray_spec(ms)->0;
        let r = if sw == width && sh == height { g } else { resized(g, sw as int, sh as int, width as int, height as int, 1) };
        r.len() < 0x7fff_ffff
    }
}

/// Whether `sync_smask` succeeds: the parent has no `/SMask` reference, or it leads to an
/// object that is a resizable soft mask stream used by at most one image.
pub open spec fn smask_syncable(objs: Seq<(ObjId, PdfObject)>, parent: PdfDict, width: u32, height: u32) -> bool {
    match smask_target(parent) {
        None => true,
        Some(t) => exists|k: int| 0 <= k < objs.len() && #[trigger] objs[k].0 == t
            && (objs[k].1 matches PdfObject::Stream(ms) && mask_resizable(ms, width, height))
            && smask_count(objects_view(objs), t) <= 1,
    }
}

proof fn lemma_unique_index(objs: Seq<(ObjId, PdfObject)>, i: int, k: int)
    requires
        view_ids_sorted(objects_view(objs)),
        0 <= i < objs.len(),
        0 <= k < objs.len(),
        objs[i].0 == objs[k].0,
    ensures
        i == k,
{
    lemma_objects_view(objs);
    let ov = objects_view(objs);
    if i < k {
        assert(super::object::id_lt(ov[i].0, ov[k].0));
    } else if k < i {
        assert(super::object::id_lt(ov[k].0, ov[i].0));
    }
}

/// Bring the parent image's soft mask to the new size. `false` when it cannot (the mask
/// is missing, not decodable, or shared by other images); the objects are then unchanged.
fn sync_smask(objects: &mut Vec<(ObjId, PdfObject)>, parent_dict: &PdfDict, width: u32, height: u32) -> (ok: bool)
    requires
        view_ids_sorted(objects_view(old(objects)@)),
        width as int * height <= usize::MAX,
    ensures
        ok == smask_syncable(old(objects)@, *parent_dict, width, height),
        view_ids(objects_view(final(objects)@)) == view_ids(objects_view(old(objects)@)),
        !ok ==> objects_view(final(objects)@) == objects_view(old(objects)@),
        ok && smask_target(*parent_dict) is None ==> objects_view(final(objects)@) == objects_view(old(objects)@),
        ok && smask_target(*parent_dict) is Some ==> exists|k: int| 0 <= k < old(objects)@.len()
            && old(objects)@[k].0 == smask_target(*parent_dict)->0
            && smask_count(objects_view(old(objects)@), smask_target(*parent_dict)->0) <= 1
            && (old(objects)@[k].1 matches PdfObject::Stream(ms) && mask_ok(ms, objects_view(final(objects)@)[k].1, width, height))
            && objects_view(final(objects)@) == objects_view(old(objects)@).update(k, objects_view(final(objects)@)[k]),
{
    proof {
        lemma_objects_view(objects@);
    }
    let ghost objs = objects@;
    let target = match dict_get(parent_dict, &SMASK) {
        Some(PdfObject::Reference(id)) => *id,
        _ => {
            return true;
        },
    };
    let k = match find_object(objects, target) {
        Some(k) => k,
        None => {
            proof {
                if smask_syncable(objs, *parent_dict, width, height) {
                    let k2 = choose|k2: int| 0 <= k2 < objs.len() && #[trigger] objs[k2].0 == target
                        && (objs[k2].1 matches PdfObject::Stream(ms) && mask_resizable(ms, width, height))
                        && smask_count(objects_view(objs), target) <= 1;
                    super::graph::lemma_object_at_found(objects_view(objs), k2);
                }
            }
            return false;
        },
    };
    proof {
        if smask_syncable(objs, *parent_dict, width, height) {
            let k2 = choose|k2: int| 0 <= k2 < objs.len() && #[trigger] objs[k2].0 == target
                && (objs[k2].1 matches PdfObject::Stream(ms) && mask_resizable(ms, width, height))
                && smask_count(objects_view(objs), target) <= 1;
            lemma_unique_index(objs, k as int, k2);
        }
    }
    let (mask_dict, content) = match &objects[k].1 {
        PdfObject::Stream(ms) => {
            let gray = match decode_gray(ms) {
                Some(g) => g,
                None => {
                    return false;
                },
            };
            let sw = dim(&ms.dict, &WIDTH);
            let sh = dim(&ms.dict, &HEIGHT);
            if sw == 0 || sh == 0 {
                return false;
            }
            let scaled = if sw == width && sh == height {
                gray
            } else {
                resize_gray(gray.as_slice(), sw, sh, width, height)
            };
            if scaled.len() >= 0x7fff_ffff {
                return false;
            }
            let compressed = compress(scaled.as_slice());
            let mut dict = copy_dict(&ms.dict);
            dict_set(&mut dict, &WIDTH, PdfObject::Integer(width as i64));
            dict_set(&mut dict, &HEIGHT, PdfObject::Integer(height as i64));
            dict_set(&mut dict, &COLOR_SPACE, PdfObject::Name(copy_bytes(&DEVICE_GRAY)));
            dict_set(&mut dict, &BITS_PER_COMPONENT, PdfObject::Integer(8));
            dict_set(&mut dict, &FILTER, PdfObject::Name(copy_bytes(&FLATE_DECODE)));
            dict_remove(&mut dict, &DECODE_PARMS);
            let ghost d6 = dview(dict);
            dict_set(&mut dict, &LENGTH, PdfObject::Integer(compressed.len() as i64));
            dict_set(&mut dict, &LENGTH, PdfObject::Integer(compressed.len() as i64));
            proof {
                super::object::lemma_set_idempotent(d6, LENGTH@, ObjView::Integer(compressed@.len() as i64));
            }
            (dict, compressed)
        },
        _ => {
            return false;
        },
    };
    if smask_refcount(objects, target) > 1 {
        return false;
    }
    let ghost old_objects = objects@;
    let new_stream = PdfStream { dict: mask_dict, content, allows_compression: false, start_position: None };
    objects.set(k, (target, PdfObject::Stream(new_stream)));
    proof {
        lemma_objects_view(objects@);
        lemma_objects_view(old_objects);
        assert(objects_view(objects@) =~= objects_view(old_objects).update(k as int, objects_view(objects@)[k as int]));
        assert(view_ids(objects_view(objects@)) =~= view_ids(objects_view(old_objects)));
        assert(objs[k as int].0 == target);
    }
    true
}

pub proof fn lemma_same_ids_sorted(a: Seq<(ObjId, ObjView)>, b: Seq<(ObjId, ObjView)>)
    requires
        view_ids(a) == view_ids(b),
        view_ids_sorted(a),
    ensures
        view_ids_sorted(b),
{
    assert(view_ids(a).len() == a.len());
    assert(view_ids(b).len() == b.len());
    assert forall|i: int, j: int| 0 <= i < j < b.len() implies id_lt_pub(#[trigger] b[i].0, #[trigger] b[j].0) by {
        assert(view_ids(a)[i] == view_ids(b)[i]);
        assert(view_ids(a)[j] == view_ids(b)[j]);
        assert(id_lt_pub(a[i].0, a[j].0));
    }
}

/// Ids ordered as numbers, then generations.
pub open spec fn id_lt_pub(a: ObjId, b: ObjId) -> bool {
    super::object::id_lt(a, b)
}

proof fn lemma_remove_sorted(a: Seq<(ObjId, ObjView)>, k: int)
    requires
        view_ids_sorted(a),
        0 <= k < a.len(),
    ensures
        view_ids_sorted(a.remove(k)),
{
    let b = a.remove(k);
    assert forall|i: int, j: int| 0 <= i < j < b.len() implies super::object::id_lt(#[trigger] b[i].0, #[trigger] b[j].0) by {
        let ai = if i < k { i } else { i + 1 };
        let aj = if j < k { j } else { j + 1 };
        assert(b[i] == a[ai]);
        assert(b[j] == a[aj]);
    }
}

fn remap_all(objects: Vec<(ObjId, PdfObject)>, remap: &Vec<(ObjId, ObjId)>) -> (out: Vec<(ObjId, PdfObject)>)
    ensures
        view_ids(objects_view(out@)) == view_ids(objects_view(objects@)),
        forall|i: int| 0 <= i < out@.len() ==> #[trigger] objects_view(out@)[i].1 == remapped(objects_view(objects@)[i].1, remap@),
{
    let ghost orig = objects@;
    proof {
        lemma_objects_view(orig);
    }
    let mut rest = objects;
    let mut rev: Vec<(ObjId, PdfObject)> = Vec::new();
    while rest.len() > 0
        invariant
            rest@ == orig.take(rest@.len() as int),
            rest@.len() + rev@.len() == orig.len(),
            forall|j: int| 0 <= j < rev@.len() ==> (#[trigger] rev@[j]).0 == orig[orig.len() - 1 - j].0
                && obj_view(rev@[j].1) == remapped(obj_view(orig[orig.len() - 1 - j].1), remap@),
        decreases rest@.len(),
    {
        let ghost k = rest@.len() - 1;
        let (id, x) = rest.pop().unwrap();
        proof {
            assert((id, x) == orig[k]);
            assert(rest@ =~= orig.take(rest@.len() as int));
        }
        let y = remap_object(x, remap);
        rev.push((id, y));
    }
    let mut out: Vec<(ObjId, PdfObject)> = Vec::new();
    while rev.len() > 0
        invariant
            rev@.len() + out@.len() == orig.len(),
            forall|j: int| 0 <= j < rev@.len() ==> (#[trigger] rev@[j]).0 == orig[orig.len() - 1 - j].0
                && obj_view(rev@[j].1) == remapped(obj_view(orig[orig.len() - 1 - j].1), remap@),
            forall|j: int| 0 <= j < out@.len() ==> (#[trigger] out@[j]).0 == orig[j].0
                && obj_view(out@[j].1) == remapped(obj_view(orig[j].1), remap@),
        decreases rev@.len(),
    {
        let e = rev.pop().unwrap();
        out.push(e);
    }
    proof {
        lemma_objects_view(out@);
        assert(view_ids(objects_view(out@)) =~= view_ids(objects_view(orig)));
    }
    out
}

/// Whether the plan sends `id` to another image (and so drops it).
pub open spec fn dropped(remap: Seq<(ObjId, ObjId)>, id: ObjId) -> bool {
    remap_lookup(remap, id) is Some
}

/// A de-duplication plan over the objects: each entry sends an object to a different one,
/// and the one sent to stays.
pub open spec fn plan_ok(ov: Seq<(ObjId, ObjView)>, remap: Seq<(ObjId, ObjId)>) -> bool {
    forall|r: int| 0 <= r < remap.len() ==> {
        &&& (#[trigger] remap[r]).0 != remap[r].1
        &&& !dropped(remap, remap[r].1)
        &&& view_ids(ov).contains(remap[r].0)
        &&& view_ids(ov).contains(remap[r].1)
    }
}

/// What the image pass leaves of the objects under a plan: exactly the planned duplicates
/// are gone, and each remaining object is the old one with its references redirected by
/// the plan, or a rewritten stream.
pub open spec fn images_pass_ok(old: Seq<(ObjId, ObjView)>, new: Seq<(ObjId, ObjView)>, remap: Seq<(ObjId, ObjId)>) -> bool {
    &&& forall|id: ObjId| #[trigger] view_ids(new).contains(id) <==> view_ids(old).contains(id) && !dropped(remap, id)
    &&& forall|k: int| 0 <= k < new.len() ==> exists|j: int| 0 <= j < old.len() && old[j].0 == (#[trigger] new[k]).0
        && (new[k].1 == remapped(old[j].1, remap) || new[k].1 is Stream)
}

proof fn lemma_lookup_some(remap: Seq<(ObjId, ObjId)>, id: ObjId)
    ensures
        dropped(remap, id) <==> exists|r: int| 0 <= r < remap.len() && (#[trigger] remap[r]).0 == id,
    decreases remap.len(),
{
    if remap.len() > 0 {
        lemma_lookup_some(remap.drop_first(), id);
        if remap[0].0 != id {
            assert forall|r: int| 0 <= r < remap.len() && (#[trigger] remap[r]).0 == id implies
                remap.drop_first()[r - 1].0 == id by {}
            assert forall|r: int| 0 <= r < remap.drop_first().len() && (#[trigger] remap.drop_first()[r]).0 == id implies
                remap[r + 1].0 == id by {}
        }
    }
}

proof fn lemma_dropped_take(remap: Seq<(ObjId, ObjId)>, r: int, id: ObjId)
    requires
        0 <= r < remap.len(),
    ensures
        dropped(remap.take(r + 1), id) <==> dropped(remap.take(r), id) || remap[r].0 == id,
{
    lemma_lookup_some(remap.take(r + 1), id);
    lemma_lookup_some(remap.take(r), id);
    if dropped(remap.take(r + 1), id) && remap[r].0 != id {
        let q = choose|q: int| 0 <= q < remap.take(r + 1).len() && (#[trigger] remap.take(r + 1)[q]).0 == id;
        assert(q < r);
        assert(remap.take(r)[q].0 == id);
    }
    if dropped(remap.take(r), id) {
        let q = choose|q: int| 0 <= q < remap.take(r).len() && (#[trigger] remap.take(r)[q]).0 == id;
        assert(remap.take(r + 1)[q].0 == id);
    }
    if remap[r].0 == id {
        assert(remap.take(r + 1)[r].0 == id);
    }
}

proof fn lemma_dedup_entries(ids: Seq<ObjId>, keys: Seq<Option<DedupKey>>, k: nat)
    requires
        k <= keys.len(),
        k <= ids.len(),
    ensures
        forall|r: int| 0 <= r < dedup_spec(ids, keys, k).len() ==> exists|a: int, b: int|
            0 <= b < a < k && #[trigger] dedup_spec(ids, keys, k)[r] == (ids[a], ids[b]) && keys[a] is Some
            && first_with(keys, keys[a]->0, a) == Some(b),
    decreases k,
{
    if k > 0 {
        lemma_dedup_entries(ids, keys, (k - 1) as nat);
        let prev = dedup_spec(ids, keys, (k - 1) as nat);
        let cur = dedup_spec(ids, keys, k);
        assert forall|r: int| 0 <= r < cur.len() implies exists|a: int, b: int|
            0 <= b < a < k && #[trigger] cur[r] == (ids[a], ids[b]) && keys[a] is Some
            && first_with(keys, keys[a]->0, a) == Some(b) by {
            if r < prev.len() {
                match keys[k - 1] {
                    None => {},
                    Some(f) => match first_with(keys, f, k - 1) {
                        Some(j) => { assert(cur[r] == prev[r]); },
                        None => {},
                    },
                }
                let (a, b) = choose|a: int, b: int| 0 <= b < a < k - 1 && #[trigger] prev[r] == (ids[a], ids[b])
                    && keys[a] is Some && first_with(keys, keys[a]->0, a) == Some(b);
                assert(cur[r] == (ids[a], ids[b]));
            } else {
                let f = keys[k - 1]->0;
                let j = first_with(keys, f, k - 1)->0;
                lemma_first_with_bounds(keys, f, k - 1);
                assert(cur[r] == (ids[k - 1], ids[j]));
            }
        }
    }
}

proof fn lemma_plan_ok(ov: Seq<(ObjId, ObjView)>, dec: Seq<(ObjId, DecodedImage)>)
    requires
        forall|t: int, u: int| 0 <= t < u < dec.len() ==> super::object::id_lt(#[trigger] dec[t].0, #[trigger] dec[u].0),
        forall|t: int| 0 <= t < dec.len() ==> view_ids(ov).contains(#[trigger] dec[t].0),
    ensures
        plan_ok(ov, dedup_spec(image_ids(dec), image_keys(dec), dec.len())),
{
    let ids = image_ids(dec);
    let keys = image_keys(dec);
    let remap = dedup_spec(ids, keys, dec.len());
    lemma_dedup_entries(ids, keys, dec.len());
    assert forall|r: int| 0 <= r < remap.len() implies {
        &&& (#[trigger] remap[r]).0 != remap[r].1
        &&& !dropped(remap, remap[r].1)
        &&& view_ids(ov).contains(remap[r].0)
        &&& view_ids(ov).contains(remap[r].1)
    } by {
        let (a, b) = choose|a: int, b: int| 0 <= b < a < dec.len() && #[trigger] remap[r] == (ids[a], ids[b])
            && keys[a] is Some && first_with(keys, keys[a]->0, a) == Some(b);
        assert(ids[a] == dec[a].0 && ids[b] == dec[b].0);
        assert(super::object::id_lt(dec[b].0, dec[a].0));
        let f = keys[a]->0;
        lemma_first_with_bounds(keys, f, a);
        lemma_lookup_some(remap, ids[b]);
        if dropped(remap, ids[b]) {
            let r2 = choose|r2: int| 0 <= r2 < remap.len() && (#[trigger] remap[r2]).0 == ids[b];
            let (a2, b2) = choose|a2: int, b2: int| 0 <= b2 < a2 < dec.len() && #[trigger] remap[r2] == (ids[a2], ids[b2])
                && keys[a2] is Some && first_with(keys, keys[a2]->0, a2) == Some(b2);
            if a2 < b {
                assert(super::object::id_lt(dec[a2].0, dec[b].0));
            } else if b < a2 {
                assert(super::object::id_lt(dec[b].0, dec[a2].0));
            }
            assert(a2 == b);
            lemma_first_with_bounds(keys, keys[a2]->0, a2);
            assert(keys[b2] == keys[b]);
            assert(false);
        }
        assert(dec[a].0 == ids[a]);
        assert(view_ids(ov).contains(dec[a].0));
        assert(view_ids(ov).contains(dec[b].0));
    }
}

proof fn lemma_contains_own<A>(s: Seq<A>)
    ensures
        forall|k: int| 0 <= k < s.len() ==> s.contains(#[trigger] s[k]),
{
    assert forall|k: int| 0 <= k < s.len() implies s.contains(#[trigger] s[k]) by {
        assert(s[k] == s[k]);
    }
}

proof fn lemma_remapped_empty(o: ObjView)
    ensures
        remapped(o, Seq::empty()) == o,
    decreases o,
{
    match o {
        ObjView::Array(v) => lemma_remapped_list_empty(v),
        ObjView::Dictionary(e) => lemma_remapped_entries_empty(e),
        ObjView::Stream(e, c, a, p) => lemma_remapped_entries_empty(e),
        _ => {},
    }
}

proof fn lemma_remapped_list_empty(s: Seq<ObjView>)
    ensures
        remapped_list(s, Seq::empty()) == s,
    decreases s,
{
    if s.len() > 0 {
        lemma_remapped_list_empty(s.drop_last());
        lemma_remapped_empty(s.last());
        assert(remapped_list(s, Seq::empty()) =~= s);
    }
}

proof fn lemma_remapped_entries_empty(s: Seq<(Seq<u8>, ObjView)>)
    ensures
        remapped_entries(s, Seq::empty()) == s,
    decreases s,
{
    if s.len() > 0 {
        lemma_remapped_entries_empty(s.drop_last());
        lemma_remapped_empty(s.last().1);
        assert(remapped_entries(s, Seq::empty()) =~= s);
    }
}

/// Whether the object `id` leads to (following references) is an image stream.
pub open spec fn leads_to_image(ov: Seq<(ObjId, ObjView)>, id: ObjId) -> bool {
    match deref_spec(ov, object_at(ov, id), 0) {
        Some(ObjView::Stream(d, _, _, _)) => is_image_entries(d),
        _ => false,
    }
}

/// The ids, among the first `n` objects, that lead to image streams, in order.
pub open spec fn image_object_ids(ov: Seq<(ObjId, ObjView)>, n: int) -> Seq<ObjId>
    decreases n,
{
    if n <= 0 {
        Seq::empty()
    } else if leads_to_image(ov, ov[n - 1].0) {
        image_object_ids(ov, n - 1).push(ov[n - 1].0)
    } else {
        image_object_ids(ov, n - 1)
    }
}

/// `decoded` holds, in id order, one entry for each of the first `n` objects that leads to an
/// image stream: the stream `ss[t]` it leads to, decoded (as a mask when its id is among
/// `smask`).
#[verifier::opaque]
pub open spec fn decodes_prefix(ov: Seq<(ObjId, ObjView)>, smask: Set<u64>, decoded: Seq<(ObjId, DecodedImage)>,
    ss: Seq<PdfStream>, n: int) -> bool {
    &&& image_ids(decoded) == image_object_ids(ov, n)
    &&& ss.len() == decoded.len()
    &&& forall|t: int| 0 <= t < decoded.len() ==>
        deref_spec(ov, object_at(ov, (#[trigger] decoded[t]).0), 0) == Some(stream_view(ss[t]))
        && decoded_view(decoded[t].1) == decode_spec(ss[t], smask.contains(id_key(decoded[t].0)))
}

/// `decoded` holds, in id order, one entry for each object that leads to an image stream:
/// that stream decoded (as a mask when its id is among `smask`).
pub open spec fn decodes_images(ov: Seq<(ObjId, ObjView)>, smask: Set<u64>, decoded: Seq<(ObjId, DecodedImage)>) -> bool {
    exists|ss: Seq<PdfStream>| decodes_prefix(ov, smask, decoded, ss, ov.len() as int)
}

proof fn lemma_decodes_start(ov: Seq<(ObjId, ObjView)>, smask: Set<u64>)
    ensures
        decodes_prefix(ov, smask, Seq::empty(), Seq::empty(), 0),
{
    reveal(decodes_prefix);
    assert(image_ids(Seq::<(ObjId, DecodedImage)>::empty()) =~= Seq::<ObjId>::empty());
}

proof fn lemma_decodes_skip(ov: Seq<(ObjId, ObjView)>, smask: Set<u64>, decoded: Seq<(ObjId, DecodedImage)>,
    ss: Seq<PdfStream>, i: int)
    requires
        0 <= i < ov.len(),
        decodes_prefix(ov, smask, decoded, ss, i),
        !leads_to_image(ov, ov[i].0),
    ensures
        decodes_prefix(ov, smask, decoded, ss, i + 1),
{
    reveal(decodes_prefix);
    assert(image_object_ids(ov, i + 1) == image_object_ids(ov, i));
}

proof fn lemma_decodes_push(ov: Seq<(ObjId, ObjView)>, smask: Set<u64>, decoded: Seq<(ObjId, DecodedImage)>,
    ss: Seq<PdfStream>, i: int, img: DecodedImage, s: PdfStream)
    requires
        0 <= i < ov.len(),
        decodes_prefix(ov, smask, decoded, ss, i),
        deref_spec(ov, object_at(ov, ov[i].0), 0) == Some(stream_view(s)),
        is_image_entries(dview(s.dict)),
        decoded_view(img) == decode_spec(s, smask.contains(id_key(ov[i].0))),
    ensures
        decodes_prefix(ov, smask, decoded.push((ov[i].0, img)), ss.push(s), i + 1),
{
    reveal(decodes_prefix);
    let d2 = decoded.push((ov[i].0, img));
    let s2 = ss.push(s);
    assert(leads_to_image(ov, ov[i].0));
    assert(image_object_ids(ov, i + 1) == image_object_ids(ov, i).push(ov[i].0));
    assert(image_ids(d2) =~= image_ids(decoded).push(ov[i].0));
    assert forall|t: int| 0 <= t < d2.len() implies
        deref_spec(ov, object_at(ov, (#[trigger] d2[t]).0), 0) == Some(stream_view(s2[t]))
        && decoded_view(d2[t].1) == decode_spec(s2[t], smask.contains(id_key(d2[t].0))) by {
        if t < decoded.len() {
            assert(d2[t] == decoded[t]);
            assert(s2[t] == ss[t]);
        }
    }
}

/// Decode every image XObject (following references), in id order; an image that is some
/// soft mask's target is decoded as a mask.
fn decode_all(objects: &Vec<(ObjId, PdfObject)>, smask_ids: &HashSet<u64>) -> (decoded: Vec<(ObjId, DecodedImage)>)
    requires
        view_ids_sorted(objects_view(objects@)),
    ensures
        forall|t: int, u: int| 0 <= t < u < decoded@.len() ==> super::object::id_lt(#[trigger] decoded@[t].0, #[trigger] decoded@[u].0),
        forall|t: int| 0 <= t < decoded@.len() ==> view_ids(objects_view(objects@)).contains(#[trigger] decoded@[t].0),
        decoded@.len() <= objects@.len(),
        decodes_images(objects_view(objects@), smask_ids@, decoded@),
{
    let ghost ov0 = objects_view(objects@);
    proof {
        lemma_objects_view(objects@);
    }
    let mut decoded: Vec<(ObjId, DecodedImage)> = Vec::new();
    let ghost mut ss: Seq<PdfStream> = Seq::empty();
    proof {
        lemma_decodes_start(ov0, smask_ids@);
    }
    let mut i: usize = 0;
    while i < objects.len()
        invariant
            i <= objects.len(),
            decoded.len() <= i,
            view_ids_sorted(ov0),
            ov0 == objects_view(objects@),
            ov0.len() == objects@.len(),
            forall|j: int| 0 <= j < objects@.len() ==> #[trigger] ov0[j] == (objects@[j].0, obj_view(objects@[j].1)),
            forall|t: int| 0 <= t < decoded@.len() ==> exists|j: int| 0 <= j < i && (#[trigger] decoded@[t]).0 == ov0[j].0,
            forall|t: int, u: int| 0 <= t < u < decoded@.len() ==> super::object::id_lt(#[trigger] decoded@[t].0, #[trigger] decoded@[u].0),
            decodes_prefix(ov0, smask_ids@, decoded@, ss, i as int),
        decreases objects.len() - i,
    {
        let id = objects[i].0;
        let ghost pre0 = decoded@;
        proof {
            assert(ov0[i as int].0 == id);
        }
        match get_object(objects, id) {
            Some(k) => {
                match &objects[k].1 {
                    PdfObject::Stream(s) => {
                        if is_image(&s.dict) {
                            let key = key_of(id);
                            let as_mask = smask_ids.contains(&key);
                            let img = decode_image(s, as_mask);
                            let ghost pre = decoded@;
                            decoded.push((id, img));
                            proof {
                                assert(obj_view(objects@[k as int].1) == stream_view(*s));
                                lemma_decodes_push(ov0, smask_ids@, pre, ss, i as int, img, *s);
                                assert(decoded@ == pre.push((ov0[i as int].0, img)));
                                ss = ss.push(*s);
                                assert forall|t: int| 0 <= t < pre.len() implies super::object::id_lt(#[trigger] decoded@[t].0, id) by {
                                    let j = choose|j: int| 0 <= j < i && (#[trigger] pre[t]).0 == ov0[j].0;
                                    assert(decoded@[t] == pre[t]);
                                    assert(super::object::id_lt(ov0[j].0, ov0[i as int].0));
                                }
                                assert forall|t: int| 0 <= t < decoded@.len() implies exists|j: int| 0 <= j < i + 1 && (#[trigger] decoded@[t]).0 == ov0[j].0 by {
                                    if t < pre.len() {
                                        let j = choose|j: int| 0 <= j < i && (#[trigger] pre[t]).0 == ov0[j].0;
                                        assert(decoded@[t] == pre[t]);
                                    } else {
                                        assert(decoded@[t].0 == ov0[i as int].0);
                                    }
                                }
                            }
                        } else {
                            proof {
                                assert(obj_view(objects@[k as int].1) == stream_view(*s));
                                lemma_decodes_skip(ov0, smask_ids@, decoded@, ss, i as int);
                            }
                        }
                    },
                    _ => {
                        proof {
                            lemma_decodes_skip(ov0, smask_ids@, decoded@, ss, i as int);
                        }
                    },
                }
            },
            None => {
                proof {
                    lemma_decodes_skip(ov0, smask_ids@, decoded@, ss, i as int);
                }
            },
        }
        i = i + 1;
    }
    proof {
        assert forall|t: int| 0 <= t < decoded@.len() implies view_ids(ov0).contains(#[trigger] decoded@[t].0) by {
            let j = choose|j: int| 0 <= j < ov0.len() && (#[trigger] decoded@[t]).0 == ov0[j].0;
            assert(view_ids(ov0)[j] == ov0[j].0);
        }
    }
    decoded
}

/// Remove the objects that the plan drops; returns how many entries the plan has (as a
/// wrapping count).
fn drop_duplicates(objects: &mut Vec<(ObjId, PdfObject)>, remap: &Vec<(ObjId, ObjId)>) -> (n: u32)
    requires
        view_ids_sorted(objects_view(old(objects)@)),
    ensures
        view_ids_sorted(objects_view(final(objects)@)),
        final(objects)@.len() <= old(objects)@.len(),
        n as int == remap@.len() % 0x1_0000_0000,
        forall|id: ObjId| #[trigger] view_ids(objects_view(final(objects)@)).contains(id)
            <==> view_ids(objects_view(old(objects)@)).contains(id) && !dropped(remap@, id),
        forall|k: int| 0 <= k < objects_view(final(objects)@).len()
            ==> objects_view(old(objects)@).contains(#[trigger] objects_view(final(objects)@)[k]),
{
    let ghost start = objects_view(objects@);
    proof {
        lemma_objects_view(objects@);
        assert(remap@.take(0) =~= Seq::<(ObjId, ObjId)>::empty());
        lemma_contains_own(start);
    }
    let mut count: u32 = 0;
    let mut r: usize = 0;
    while r < remap.len()
        invariant
            r <= remap.len(),
            view_ids_sorted(objects_view(objects@)),
            objects@.len() <= start.len(),
            start.len() == old(objects)@.len(),
            start == objects_view(old(objects)@),
            count as int == r as int % 0x1_0000_0000,
            forall|id: ObjId| #[trigger] view_ids(objects_view(objects@)).contains(id)
                <==> view_ids(start).contains(id) && !dropped(remap@.take(r as int), id),
            forall|k: int| 0 <= k < objects_view(objects@).len() ==> start.contains(#[trigger] objects_view(objects@)[k]),
        decreases remap.len() - r,
    {
        let ghost pre = objects_view(objects@);
        let ghost x = remap@[r as int].0;
        proof {
            lemma_objects_view(objects@);
        }
        match find_object(objects, remap[r].0) {
            Some(k) => {
                let ghost prev = objects@;
                let _ = objects.remove(k);
                proof {
                    lemma_objects_view(prev);
                    lemma_objects_view(objects@);
                    assert(objects_view(objects@) =~= pre.remove(k as int));
                    lemma_remove_sorted(pre, k as int);
                    let post = objects_view(objects@);
                    assert forall|id: ObjId| #[trigger] view_ids(post).contains(id)
                        <==> view_ids(pre).contains(id) && id != x by {
                        if view_ids(post).contains(id) {
                            let q = choose|q: int| 0 <= q < view_ids(post).len() && view_ids(post)[q] == id;
                            let pq = if q < k { q } else { q + 1 };
                            assert(post[q] == pre[pq]);
                            assert(view_ids(pre)[pq] == id);
                            if id == x {
                                if pq < k {
                                    assert(super::object::id_lt(pre[pq].0, pre[k as int].0));
                                } else {
                                    assert(super::object::id_lt(pre[k as int].0, pre[pq].0));
                                }
                            }
                        }
                        if view_ids(pre).contains(id) && id != x {
                            let q = choose|q: int| 0 <= q < view_ids(pre).len() && view_ids(pre)[q] == id;
                            assert(q != k);
                            let nq = if q < k { q } else { q - 1 };
                            assert(post[nq] == pre[q]);
                            assert(view_ids(post)[nq] == id);
                        }
                    }
                    assert forall|kk: int| 0 <= kk < post.len() implies start.contains(#[trigger] post[kk]) by {
                        let pk = if kk < k { kk } else { kk + 1 };
                        assert(post[kk] == pre[pk]);
                    }
                }
            },
            None => {
                proof {
                    assert forall|q: int| 0 <= q < pre.len() implies (#[trigger] pre[q]).0 != x by {
                        if pre[q].0 == x {
                            super::graph::lemma_object_at_found(pre, q);
                        }
                    }
                    assert(!view_ids(pre).contains(x)) by {
                        if view_ids(pre).contains(x) {
                            let q = choose|q: int| 0 <= q < view_ids(pre).len() && view_ids(pre)[q] == x;
                            assert(pre[q].0 == x);
                        }
                    }
                }
            },
        }
        proof {
            assert forall|id: ObjId| #[trigger] view_ids(objects_view(objects@)).contains(id)
                <==> view_ids(start).contains(id) && !dropped(remap@.take(r as int + 1), id) by {
                lemma_dropped_take(remap@, r as int, id);
            }
        }
        count = count.wrapping_add(1);
        r = r + 1;
    }
    proof {
        assert(remap@.take(remap@.len() as int) =~= remap@);
    }
    count
}

/// `done` lists, in increasing order, the entries of `decoded` whose images were replaced:
/// each neither dropped by the plan nor skipped, its object now a stream.
pub open spec fn replaced_ok(ov: Seq<(ObjId, ObjView)>, decoded: Seq<(ObjId, DecodedImage)>,
    remap: Seq<(ObjId, ObjId)>, done: Seq<int>) -> bool {
    &&& forall|a: int, b: int| 0 <= a < b < done.len() ==> #[trigger] done[a] < #[trigger] done[b]
    &&& forall|q: int| 0 <= q < done.len() ==> {
        let e = decoded[#[trigger] done[q]];
        &&& 0 <= done[q] < decoded.len()
        &&& remap_lookup(remap, e.0) is None
        &&& e.1.skip_reason is None
        &&& exists|k: int| 0 <= k < ov.len() && ov[k].0 == e.0 && (#[trigger] ov[k]).1 is Stream
    }
}

proof fn lemma_replaced_kept(a: Seq<(ObjId, ObjView)>, b: Seq<(ObjId, ObjView)>, decoded: Seq<(ObjId, DecodedImage)>,
    remap: Seq<(ObjId, ObjId)>, done: Seq<int>)
    requires
        replaced_ok(a, decoded, remap, done),
        b.len() == a.len(),
        forall|k: int| 0 <= k < a.len() ==> (#[trigger] b[k]).0 == a[k].0 && (b[k].1 == a[k].1 || b[k].1 is Stream),
    ensures
        replaced_ok(b, decoded, remap, done),
{
    assert forall|q: int| 0 <= q < done.len() implies
        exists|k: int| 0 <= k < b.len() && b[k].0 == decoded[#[trigger] done[q]].0 && (#[trigger] b[k]).1 is Stream by {
        let e = decoded[done[q]];
        let k = choose|k: int| 0 <= k < a.len() && a[k].0 == e.0 && (#[trigger] a[k]).1 is Stream;
        assert(b[k].0 == e.0 && b[k].1 is Stream);
    }
}

/// The entry is one the pass tries to replace: kept by the plan, decoded, and with as many
/// pixels as its size says.
pub open spec fn image_candidate(remap: Seq<(ObjId, ObjId)>, e: (ObjId, DecodedImage)) -> bool {
    &&& remap_lookup(remap, e.0) is None
    &&& e.1.skip_reason is None
    &&& e.1.width != 0 && e.1.height != 0
    &&& e.1.rgb@.len() == e.1.width as int * e.1.height * 3
}

/// A size the replacement's dictionary gives (truncated to 32 bits), or the image's own
/// when it gives none.
pub open spec fn new_dim(d: PdfDict, key: Seq<u8>, own: u32) -> u32 {
    match int_value(dict_value(d, key)) {
        Some(v) => v as u32,
        None => own,
    }
}

/// `after` is `before` with the object `id` replaced by the stream `s`.
pub open spec fn put_stream(before: Seq<(ObjId, PdfObject)>, id: ObjId, s: PdfStream, after: Seq<(ObjId, PdfObject)>) -> bool {
    exists|k: int| 0 <= k < before.len() && before[k].0 == id && after == before.update(k, (id, PdfObject::Stream(s)))
}

/// What a successful `sync_smask` leaves: the same ids; with no `/SMask` reference the same
/// objects; else the mask, used by at most one image, scaled to the new size in its place.
pub open spec fn mask_synced(before: Seq<(ObjId, PdfObject)>, parent: PdfDict, width: u32, height: u32,
    after: Seq<(ObjId, PdfObject)>) -> bool {
    &&& view_ids(objects_view(after)) == view_ids(objects_view(before))
    &&& smask_target(parent) is None ==> objects_view(after) == objects_view(before)
    &&& smask_target(parent) is Some ==> exists|k: int| 0 <= k < before.len()
        && before[k].0 == smask_target(parent)->0
        && smask_count(objects_view(before), smask_target(parent)->0) <= 1
        && (before[k].1 matches PdfObject::Stream(ms) && mask_ok(ms, objects_view(after)[k].1, width, height))
        && objects_view(after) == objects_view(before).update(k, objects_view(after)[k])
}

/// The stream `s` goes in place of object `id`, or (when no object has that id) nothing changes.
pub open spec fn put_or_missing(before: Seq<(ObjId, PdfObject)>, id: ObjId, s: PdfStream, after: Seq<(ObjId, PdfObject)>,
    replaced: bool) -> bool {
    ||| replaced && put_stream(before, id, s, after)
    ||| !replaced && object_at(objects_view(before), id) is None && after == before
}

/// What happens once a replacement `s` is in hand for image `img` (object `id`, whose stream
/// held `old_len` bytes under the dictionary `parent`): left out when not shorter than that;
/// put in when its size is the image's own; when the size changes, put in after the soft
/// mask is brought to the new size, or left out when that cannot be done.
pub open spec fn replacement_applied(img: DecodedImage, parent: PdfDict, old_len: nat, s: PdfStream, id: ObjId,
    before: Seq<(ObjId, PdfObject)>, after: Seq<(ObjId, PdfObject)>, replaced: bool) -> bool {
    let nw = new_dim(s.dict, WIDTH@, img.width);
    let nh = new_dim(s.dict, HEIGHT@, img.height);
    if s.content@.len() >= old_len {
        !replaced && after == before
    } else if nw == img.width && nh == img.height {
        put_or_missing(before, id, s, after, replaced)
    } else if nw as int * nh > usize::MAX || !smask_syncable(before, parent, nw, nh) {
        !replaced && objects_view(after) == objects_view(before)
    } else {
        exists|mid: Seq<(ObjId, PdfObject)>| #[trigger] mask_synced(before, parent, nw, nh, mid)
            && put_or_missing(mid, id, s, after, replaced)
    }
}

/// One step of the image pass, for the decoded entry `e`: an entry that is not a candidate,
/// or whose id leads to no stream, leaves the objects alone; otherwise either neither
/// re-encoding beats the original, or a replacement that `recompress` may give is applied.
/// `replaced` tells whether the image was replaced.
pub open spec fn image_step<J: Fn(u32, u32, &[u8]) -> Vec<u8>>(encode_jpeg: J, remap: Seq<(ObjId, ObjId)>,
    e: (ObjId, DecodedImage), before: Seq<(ObjId, PdfObject)>, after: Seq<(ObjId, PdfObject)>, replaced: bool) -> bool {
    let ov = objects_view(before);
    if !image_candidate(remap, e) {
        !replaced && after == before
    } else {
        match deref_spec(ov, object_at(ov, e.0), 0) {
            Some(ObjView::Stream(_, _, _, _)) => exists|k: int| 0 <= k < before.len()
                && deref_spec(ov, object_at(ov, e.0), 0) == Some(obj_view(#[trigger] before[k].1))
                && (before[k].1 matches PdfObject::Stream(os) && (
                    (!replaced && after == before && recompress_declines(encode_jpeg, e.1))
                    || exists|s: PdfStream| #[trigger] image_rewrite(encode_jpeg, e.1, dview(os.dict), s)
                        && replacement_applied(e.1, os.dict, os.content@.len(), s, e.0, before, after, replaced))),
            _ => !replaced && after == before,
        }
    }
}

/// How many of the flags are set.
pub open spec fn count_true(s: Seq<bool>) -> nat
    decreases s.len(),
{
    if s.len() == 0 {
        0
    } else {
        count_true(s.drop_last()) + if s.last() { 1nat } else { 0nat }
    }
}

/// The image pass over `decoded`, one step per entry: `states[q]` are the objects before
/// step `q`, `replaced[q]` whether it replaced its image.
#[verifier::opaque]
pub open spec fn image_steps<J: Fn(u32, u32, &[u8]) -> Vec<u8>>(encode_jpeg: J, remap: Seq<(ObjId, ObjId)>,
    decoded: Seq<(ObjId, DecodedImage)>, states: Seq<Seq<(ObjId, PdfObject)>>, replaced: Seq<bool>) -> bool {
    &&& states.len() == decoded.len() + 1
    &&& replaced.len() == decoded.len()
    &&& forall|q: int| 0 <= q < decoded.len() ==> image_step(encode_jpeg, remap, #[trigger] decoded[q], states[q],
        states[q + 1], replaced[q])
}

/// One step of the image pass (see `image_step`); only streams change, ids stay.
#[verifier::rlimit(40)]
fn try_replace<J: Fn(u32, u32, &[u8]) -> Vec<u8>>(
    objects: &mut Vec<(ObjId, PdfObject)>,
    id: ObjId,
    img: &DecodedImage,
    remap: &Vec<(ObjId, ObjId)>,
    encode_jpeg: &J,
) -> (replaced: bool)
    requires
        view_ids_sorted(objects_view(old(objects)@)),
        forall|w: u32, h: u32, rgb: &[u8]| encode_jpeg.requires((w, h, rgb)),
    ensures
        image_step(*encode_jpeg, remap@, (id, *img), old(objects)@, final(objects)@, replaced),
        view_ids_sorted(objects_view(final(objects)@)),
        view_ids(objects_view(final(objects)@)) == view_ids(objects_view(old(objects)@)),
        final(objects)@.len() == old(objects)@.len(),
        forall|k: int| 0 <= k < old(objects)@.len() ==> (#[trigger] objects_view(final(objects)@)[k]).1
            == objects_view(old(objects)@)[k].1 || objects_view(final(objects)@)[k].1 is Stream,
        replaced ==> exists|k: int| 0 <= k < final(objects)@.len() && final(objects)@[k].0 == id
            && (#[trigger] objects_view(final(objects)@)[k]).1 is Stream,
{
    let ghost start = objects@;
    proof {
        lemma_objects_view(objects@);
    }
    if lookup_remap(remap, id).is_some() || img.skip_reason.is_some() {
        return false;
    }
    proof {
        assert(img.width as u128 * img.height as u128 <= u32::MAX as u128 * u32::MAX as u128) by (nonlinear_arith);
    }
    if img.width == 0 || img.height == 0 || img.rgb.len() as u128 != img.width as u128 * img.height as u128 * 3 {
        return false;
    }
    let gk = get_object(objects, id);
    let (old_dict, old_len) = match gk {
        Some(k) => match &objects[k].1 {
            PdfObject::Stream(old) => (copy_dict(&old.dict), old.content.len()),
            _ => {
                return false;
            },
        },
        None => {
            return false;
        },
    };
    let ghost k0: int = gk->0 as int;
    let ghost os = match start[k0].1 { PdfObject::Stream(o) => o, _ => arbitrary() };
    proof {
        assert(start[k0].1 matches PdfObject::Stream(_));
        assert(dview(old_dict) == dview(os.dict));
        assert(smask_target(old_dict) == smask_target(os.dict));
    }
    let new_stream = match recompress(img, &old_dict, encode_jpeg) {
        Some(s) => s,
        None => {
            return false;
        },
    };
    proof {
        assert(image_rewrite(*encode_jpeg, *img, dview(os.dict), new_stream));
    }
    if new_stream.content.len() >= old_len {
        return false;
    }
    let new_w = match dict_int(&new_stream.dict, &WIDTH) {
        Some(v) => v,
        None => img.width as i64,
    } as u32;
    let new_h = match dict_int(&new_stream.dict, &HEIGHT) {
        Some(v) => v,
        None => img.height as i64,
    } as u32;
    proof {
        assert(new_w == new_dim(new_stream.dict, WIDTH@, img.width));
        assert(new_h == new_dim(new_stream.dict, HEIGHT@, img.height));
    }
    if new_w != img.width || new_h != img.height {
        proof {
            assert(new_w as u128 * new_h as u128 <= u32::MAX as u128 * u32::MAX as u128) by (nonlinear_arith);
        }
        if new_w as u128 * new_h as u128 > usize::MAX as u128 {
            return false;
        }
        let ghost pre = objects@;
        let synced = sync_smask(objects, &old_dict, new_w, new_h);
        proof {
            lemma_same_ids_sorted(objects_view(pre), objects_view(objects@));
            lemma_objects_view(pre);
            lemma_objects_view(objects@);
            let a0 = objects_view(pre);
            let b0 = objects_view(objects@);
            assert forall|k: int| 0 <= k < a0.len() implies (#[trigger] b0[k]).1 == a0[k].1 || b0[k].1 is Stream by {
                assert(view_ids(b0)[k] == view_ids(a0)[k]);
                if synced && smask_target(old_dict) is Some {
                    let kk = choose|kk: int| 0 <= kk < pre.len()
                        && pre[kk].0 == smask_target(old_dict)->0
                        && smask_count(objects_view(pre), smask_target(old_dict)->0) <= 1
                        && (pre[kk].1 matches PdfObject::Stream(ms) && mask_ok(ms, b0[kk].1, new_w, new_h))
                        && b0 == objects_view(pre).update(kk, b0[kk]);
                    if k != kk {
                        assert(b0[k] == a0[k]);
                    }
                }
            }
            assert(view_ids(objects_view(objects@)).len() == view_ids(objects_view(pre)).len());
            assert(objects@.len() == pre.len());
        }
        if !synced {
            return false;
        }
        proof {
            assert(mask_synced(start, os.dict, new_w, new_h, objects@));
        }
    }
    let ghost mid = objects@;
    match find_object(objects, id) {
        Some(k) => {
            objects.set(k, (id, PdfObject::Stream(new_stream)));
            proof {
                lemma_objects_view(mid);
                lemma_objects_view(objects@);
                assert(view_ids(objects_view(objects@)) =~= view_ids(objects_view(mid)));
                lemma_same_ids_sorted(objects_view(mid), objects_view(objects@));
                let post = objects_view(objects@);
                assert(post[k as int].1 is Stream);
                assert forall|q: int| 0 <= q < start.len() implies (#[trigger] post[q]).1 == objects_view(start)[q].1
                    || post[q].1 is Stream by {
                    if q != k {
                        assert(post[q] == objects_view(mid)[q]);
                    }
                }
                assert(put_stream(mid, id, new_stream, objects@));
                assert(objects@[k as int].0 == id && post[k as int].1 is Stream);
            }
            true
        },
        None => {
            false
        },
    }
}

/// Replace each image that is neither dropped nor skipped by a smaller re-encoding when
/// `recompress` finds one (scaling its soft mask along when the size changes); returns how
/// many were replaced (as a wrapping count). Only streams change; ids stay.
fn recompress_all<J: Fn(u32, u32, &[u8]) -> Vec<u8>>(
    objects: &mut Vec<(ObjId, PdfObject)>,
    decoded: &Vec<(ObjId, DecodedImage)>,
    remap: &Vec<(ObjId, ObjId)>,
    encode_jpeg: &J,
) -> (n: u32)
    requires
        view_ids_sorted(objects_view(old(objects)@)),
        forall|w: u32, h: u32, rgb: &[u8]| encode_jpeg.requires((w, h, rgb)),
    ensures
        view_ids_sorted(objects_view(final(objects)@)),
        view_ids(objects_view(final(objects)@)) == view_ids(objects_view(old(objects)@)),
        final(objects)@.len() == old(objects)@.len(),
        forall|k: int| 0 <= k < old(objects)@.len() ==> (#[trigger] objects_view(final(objects)@)[k]).1
            == objects_view(old(objects)@)[k].1 || objects_view(final(objects)@)[k].1 is Stream,
        exists|done: Seq<int>| replaced_ok(objects_view(final(objects)@), decoded@, remap@, done)
            && n as int == done.len() % 0x1_0000_0000,
        exists|states: Seq<Seq<(ObjId, PdfObject)>>, reps: Seq<bool>|
            #[trigger] image_steps(*encode_jpeg, remap@, decoded@, states, reps)
            && states[0] == old(objects)@ && states.last() == final(objects)@
            && n as int == count_true(reps) % 0x1_0000_0000,
{
    let ghost start = objects_view(objects@);
    proof {
        lemma_objects_view(objects@);
    }
    let mut rewritten: u32 = 0;
    let ghost mut done: Seq<int> = Seq::empty();
    let ghost mut states: Seq<Seq<(ObjId, PdfObject)>> = seq![objects@];
    let ghost mut reps: Seq<bool> = Seq::empty();
    let mut d: usize = 0;
    while d < decoded.len()
        invariant
            d <= decoded.len(),
            replaced_ok(objects_view(objects@), decoded@, remap@, done),
            rewritten as int == done.len() % 0x1_0000_0000,
            done.len() == count_true(reps),
            forall|q: int| 0 <= q < done.len() ==> #[trigger] done[q] < d,
            view_ids_sorted(objects_view(objects@)),
            start == objects_view(old(objects)@),
            forall|w: u32, h: u32, rgb: &[u8]| encode_jpeg.requires((w, h, rgb)),
            view_ids(objects_view(objects@)) == view_ids(start),
            objects_view(objects@).len() == start.len(),
            objects@.len() == start.len(),
            forall|k: int| 0 <= k < start.len() ==> (#[trigger] objects_view(objects@)[k]).1 == start[k].1
                || objects_view(objects@)[k].1 is Stream,
            states.len() == d + 1,
            reps.len() == d,
            states[0] == old(objects)@,
            states.last() == objects@,
            forall|q: int| 0 <= q < d ==> image_step(*encode_jpeg, remap@, #[trigger] decoded@[q], states[q],
                states[q + 1], reps[q]),
        decreases decoded.len() - d,
    {
        let id = decoded[d].0;
        let img = &decoded[d].1;
        let ghost cur = d as int;
        let ghost pre = objects@;
        let rep = try_replace(objects, id, img, remap, encode_jpeg);
        proof {
            assert(decoded@[cur] == (id, *img));
            lemma_objects_view(pre);
            lemma_objects_view(objects@);
            let a0 = objects_view(pre);
            let post = objects_view(objects@);
            assert forall|k: int| 0 <= k < a0.len() implies (#[trigger] post[k]).0 == a0[k].0
                && (post[k].1 == a0[k].1 || post[k].1 is Stream) by {
                assert(view_ids(post)[k] == view_ids(a0)[k]);
            }
            assert forall|q: int| 0 <= q < start.len() implies (#[trigger] post[q]).1 == start[q].1
                || post[q].1 is Stream by {
                assert(post[q].1 == a0[q].1 || post[q].1 is Stream);
            }
            lemma_replaced_kept(a0, post, decoded@, remap@, done);
            let old_states = states;
            let old_reps = reps;
            states = states.push(objects@);
            reps = reps.push(rep);
            assert(reps.drop_last() =~= old_reps);
            assert forall|q: int| 0 <= q < d + 1 implies image_step(*encode_jpeg, remap@, #[trigger] decoded@[q], states[q],
                states[q + 1], reps[q]) by {
                if q < d {
                    assert(states[q] == old_states[q] && states[q + 1] == old_states[q + 1] && reps[q] == old_reps[q]);
                } else {
                    assert(states[q] == pre && states[q + 1] == objects@ && reps[q] == rep);
                }
            }
            if rep {
                let old_done = done;
                done = done.push(cur);
                let kq = choose|kq: int| 0 <= kq < objects@.len() && objects@[kq].0 == id
                    && (#[trigger] objects_view(objects@)[kq]).1 is Stream;
                assert(post[kq].0 == objects@[kq].0);
                assert(replaced_ok(post, decoded@, remap@, done)) by {
                    assert forall|q: int| 0 <= q < done.len() implies {
                        let e = decoded@[#[trigger] done[q]];
                        &&& 0 <= done[q] < decoded@.len()
                        &&& remap_lookup(remap@, e.0) is None
                        &&& e.1.skip_reason is None
                        &&& exists|kk: int| 0 <= kk < post.len() && post[kk].0 == e.0 && (#[trigger] post[kk]).1 is Stream
                    } by {
                        if q < old_done.len() {
                            assert(done[q] == old_done[q]);
                        } else {
                            assert(done[q] == cur);
                            assert(post[kq].1 is Stream);
                        }
                    }
                    assert forall|x: int, y: int| 0 <= x < y < done.len() implies #[trigger] done[x] < #[trigger] done[y] by {
                        if y == old_done.len() {
                            assert(done[x] == old_done[x]);
                        } else {
                            assert(done[x] == old_done[x] && done[y] == old_done[y]);
                        }
                    }
                }
            }
        }
        if rep {
            rewritten = rewritten.wrapping_add(1);
        }
        d = d + 1;
    }
    proof {
        reveal(image_steps);
        assert(image_steps(*encode_jpeg, remap@, decoded@, states, reps));
    }
    rewritten
}

/// The objects after de-duplication: those the plan does not drop, each with its references
/// to dropped duplicates redirected.
pub open spec fn dedup_applied(old: Seq<(ObjId, ObjView)>, new: Seq<(ObjId, ObjView)>, remap: Seq<(ObjId, ObjId)>) -> bool {
    &&& forall|id: ObjId| #[trigger] view_ids(new).contains(id) <==> view_ids(old).contains(id) && !dropped(remap, id)
    &&& forall|k: int| 0 <= k < new.len() ==> exists|j: int| 0 <= j < old.len() && old[j].0 == (#[trigger] new[k]).0
        && new[k].1 == remapped(old[j].1, remap)
}

/// What the image pass did, for the images `dec` it decoded from the objects `ov` (soft-mask
/// targets as masks): the de-duplication plan for them is fit for the objects and was applied
/// (its count is the number of redirected duplicates), then each entry took one step of the
/// pass (see `image_step`) from the de-duplicated objects to `after`; the counts are those of
/// the plan, of the skipped images, and of the steps that replaced an image.
#[verifier::opaque]
pub open spec fn images_outcome<J: Fn(u32, u32, &[u8]) -> Vec<u8>>(encode_jpeg: J, ov: Seq<(ObjId, ObjView)>,
    after: Seq<(ObjId, PdfObject)>, stats: ImageStats, dec: Seq<(ObjId, DecodedImage)>) -> bool {
    let remap = dedup_spec(image_ids(dec), image_keys(dec), dec.len());
    &&& plan_ok(ov, remap)
    &&& images_pass_ok(ov, objects_view(after), remap)
    &&& stats.deduped as int == remap.len() % 0x1_0000_0000
    &&& stats.skipped == skipped_count(image_keys(dec), dec.len()) as u32
    &&& exists|m: Set<u64>| (forall|id: ObjId| #[trigger] m.contains(id_key(id)) <==> is_smask_target(ov, id))
        && decodes_images(ov, m, dec)
    &&& exists|done: Seq<int>| replaced_ok(objects_view(after), dec, remap, done)
        && stats.rewritten as int == done.len() % 0x1_0000_0000
    &&& exists|states: Seq<Seq<(ObjId, PdfObject)>>, reps: Seq<bool>|
        #[trigger] image_steps(encode_jpeg, remap, dec, states, reps)
        && dedup_applied(ov, objects_view(states[0]), remap)
        && states.last() == after
        && stats.rewritten as int == count_true(reps) % 0x1_0000_0000
}

proof fn lemma_images_outcome<J: Fn(u32, u32, &[u8]) -> Vec<u8>>(encode_jpeg: J, ov: Seq<(ObjId, ObjView)>,
    after: Seq<(ObjId, PdfObject)>, stats: ImageStats, dec: Seq<(ObjId, DecodedImage)>, remap: Seq<(ObjId, ObjId)>,
    m: Set<u64>, mid: Seq<(ObjId, PdfObject)>)
    requires
        remap == dedup_spec(image_ids(dec), image_keys(dec), dec.len()),
        plan_ok(ov, remap),
        images_pass_ok(ov, objects_view(after), remap),
        stats.deduped as int == remap.len() % 0x1_0000_0000,
        stats.skipped == skipped_count(image_keys(dec), dec.len()) as u32,
        forall|id: ObjId| #[trigger] m.contains(id_key(id)) <==> is_smask_target(ov, id),
        decodes_images(ov, m, dec),
        exists|done: Seq<int>| replaced_ok(objects_view(after), dec, remap, done)
            && stats.rewritten as int == done.len() % 0x1_0000_0000,
        exists|states: Seq<Seq<(ObjId, PdfObject)>>, reps: Seq<bool>|
            #[trigger] image_steps(encode_jpeg, remap, dec, states, reps)
            && states[0] == mid && states.last() == after
            && stats.rewritten as int == count_true(reps) % 0x1_0000_0000,
        dedup_applied(ov, objects_view(mid), remap),
    ensures
        images_outcome(encode_jpeg, ov, after, stats, dec),
{
    reveal(images_outcome);
}

/// The image pass: decode every image XObject, point references to byte-identical
/// duplicates at the first copy and drop the copies, then replace each remaining image
/// by a smaller re-encoding (`encode_jpeg` makes the JPEGs) when one is found, scaling
/// its soft mask along.
#[verifier::rlimit(40)]
#[verifier::spinoff_prover]
pub fn process_images<J: Fn(u32, u32, &[u8]) -> Vec<u8>>(doc: &mut PdfDoc, encode_jpeg: &J) -> (stats: ImageStats)
    requires
        view_ids_sorted(objects_view(old(doc).objects@)),
        forall|w: u32, h: u32, rgb: &[u8]| encode_jpeg.requires((w, h, rgb)),
    ensures
        view_ids_sorted(objects_view(final(doc).objects@)),
        final(doc).objects@.len() <= old(doc).objects@.len(),
        dview(final(doc).trailer) == dview(old(doc).trailer),
        final(doc).version@ == old(doc).version@,
        final(doc).binary_mark@ == old(doc).binary_mark@,
        final(doc).max_id == old(doc).max_id,
        final(doc).max_bookmark_id == old(doc).max_bookmark_id,
        exists|dec: Seq<(ObjId, DecodedImage)>| #[trigger] images_outcome(*encode_jpeg, objects_view(old(doc).objects@),
            final(doc).objects@, stats, dec),
{
    let ghost ov0 = objects_view(doc.objects@);
    let smask_ids = collect_smask_ids(&doc.objects);
    let decoded = decode_all(&doc.objects, &smask_ids);
    let (remap, skipped) = dedup_plan(&decoded);
    proof {
        lemma_plan_ok(ov0, decoded@);
    }
    let mut stats = ImageStats { rewritten: 0, deduped: 0, skipped };
    let ghost remapped_all: Seq<(ObjId, ObjView)>;
    if remap.len() > 0 {
        let mut taken: Vec<(ObjId, PdfObject)> = Vec::new();
        std::mem::swap(&mut taken, &mut doc.objects);
        let ghost before = taken@;
        doc.objects = remap_all(taken, &remap);
        proof {
            remapped_all = objects_view(doc.objects@);
            lemma_same_ids_sorted(objects_view(before), objects_view(doc.objects@));
            lemma_objects_view(before);
            lemma_objects_view(doc.objects@);
            assert(objects_view(before) == ov0);
            assert(view_ids(remapped_all).len() == view_ids(ov0).len());
            assert(remapped_all.len() == ov0.len());
            assert forall|j: int| 0 <= j < remapped_all.len() implies (#[trigger] remapped_all[j]).0 == ov0[j].0
                && remapped_all[j].1 == remapped(ov0[j].1, remap@) by {
                assert(view_ids(remapped_all)[j] == view_ids(ov0)[j]);
            }
        }
        stats.deduped = drop_duplicates(&mut doc.objects, &remap);
    } else {
        proof {
            remapped_all = ov0;
            lemma_objects_view(doc.objects@);
            assert(remap@ =~= Seq::<(ObjId, ObjId)>::empty());
            assert forall|j: int| 0 <= j < remapped_all.len() implies (#[trigger] remapped_all[j]).0 == ov0[j].0
                && remapped_all[j].1 == remapped(ov0[j].1, remap@) by {
                lemma_remapped_empty(ov0[j].1);
            }
            assert(remap@.len() == 0);
            assert forall|id: ObjId| !dropped(remap@, id) by {
                lemma_lookup_some(remap@, id);
            }
            lemma_contains_own(ov0);
        }
    }
    let ghost after_dedup = objects_view(doc.objects@);
    proof {
        lemma_objects_view(doc.objects@);
        assert(view_ids(remapped_all) == view_ids(ov0));
        assert forall|id: ObjId| #[trigger] view_ids(after_dedup).contains(id)
            <==> view_ids(ov0).contains(id) && !dropped(remap@, id) by {}
        assert forall|k: int| 0 <= k < after_dedup.len() implies exists|j: int| 0 <= j < ov0.len()
            && ov0[j].0 == (#[trigger] after_dedup[k]).0 && after_dedup[k].1 == remapped(ov0[j].1, remap@) by {
            assert(remapped_all.contains(after_dedup[k]));
            let j = choose|j: int| 0 <= j < remapped_all.len() && remapped_all[j] == after_dedup[k];
            assert(remapped_all[j].0 == ov0[j].0);
        }
        assert(doc.objects@.len() <= old(doc).objects@.len());
    }
    let ghost mid_objs = doc.objects@;
    stats.rewritten = recompress_all(&mut doc.objects, &decoded, &remap, encode_jpeg);
    proof {
        let ov1 = objects_view(doc.objects@);
        lemma_objects_view(doc.objects@);
        assert forall|id: ObjId| #[trigger] view_ids(ov1).contains(id) <==> view_ids(ov0).contains(id) && !dropped(remap@, id) by {
            assert(view_ids(ov1) == view_ids(after_dedup));
        }
        assert forall|k: int| 0 <= k < ov1.len() implies exists|j: int| 0 <= j < ov0.len() && ov0[j].0 == (#[trigger] ov1[k]).0
            && (ov1[k].1 == remapped(ov0[j].1, remap@) || ov1[k].1 is Stream) by {
            assert(view_ids(ov1)[k] == view_ids(after_dedup)[k]);
            assert(ov1[k].0 == after_dedup[k].0);
        }
        assert(images_pass_ok(ov0, ov1, remap@));
        assert(image_ids(decoded@) == image_ids(decoded@));
        assert(decodes_images(ov0, smask_ids@, decoded@));
        lemma_images_outcome(*encode_jpeg, ov0, doc.objects@, stats, decoded@, remap@, smask_ids@, mid_objs);
    }
    stats
}

proof fn lemma_dedup_len(ids: Seq<ObjId>, keys: Seq<Option<DedupKey>>, k: nat)
    ensures
        dedup_spec(ids, keys, k).len() <= k,
    decreases k,
{
    if k > 0 {
        lemma_dedup_len(ids, keys, (k - 1) as nat);
    }
}

} // verus!
