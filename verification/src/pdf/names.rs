//! PDF names the passes look up, as byte strings.

use vstd::prelude::*;

verus! {

/// `/Root`.
pub const ROOT: [u8; 4] = [82, 111, 111, 116];

/// `/Info`.
pub const INFO: [u8; 4] = [73, 110, 102, 111];

/// `/Subtype`.
pub const SUBTYPE: [u8; 7] = [83, 117, 98, 116, 121, 112, 101];

/// `/Image`.
pub const IMAGE: [u8; 5] = [73, 109, 97, 103, 101];

/// `/Width`.
pub const WIDTH: [u8; 5] = [87, 105, 100, 116, 104];

/// `/Height`.
pub const HEIGHT: [u8; 6] = [72, 101, 105, 103, 104, 116];

/// `/BitsPerComponent`.
pub const BITS_PER_COMPONENT: [u8; 16] = [66, 105, 116, 115, 80, 101, 114, 67, 111, 109, 112, 111, 110, 101, 110, 116];

/// `/Filter`.
pub const FILTER: [u8; 6] = [70, 105, 108, 116, 101, 114];

/// `/DecodeParms`.
pub const DECODE_PARMS: [u8; 11] = [68, 101, 99, 111, 100, 101, 80, 97, 114, 109, 115];

/// `/Length`.
pub const LENGTH: [u8; 6] = [76, 101, 110, 103, 116, 104];

/// `/FlateDecode`.
pub const FLATE_DECODE: [u8; 11] = [70, 108, 97, 116, 101, 68, 101, 99, 111, 100, 101];

/// `/LZWDecode`.
pub const LZWDECODE: [u8; 9] = [76, 90, 87, 68, 101, 99, 111, 100, 101];

/// `/ASCII85Decode`.
pub const ASCII85_DECODE: [u8; 13] = [65, 83, 67, 73, 73, 56, 53, 68, 101, 99, 111, 100, 101];

/// `/ASCIIHexDecode`.
pub const ASCIIHEX_DECODE: [u8; 14] = [65, 83, 67, 73, 73, 72, 101, 120, 68, 101, 99, 111, 100, 101];

/// `/DCTDecode`.
pub const DCTDECODE: [u8; 9] = [68, 67, 84, 68, 101, 99, 111, 100, 101];

/// `/JPXDecode`.
pub const JPXDECODE: [u8; 9] = [74, 80, 88, 68, 101, 99, 111, 100, 101];

/// `/JBIG2Decode`.
pub const JBIG2_DECODE: [u8; 11] = [74, 66, 73, 71, 50, 68, 101, 99, 111, 100, 101];

/// `/CCITTFaxDecode`.
pub const CCITTFAX_DECODE: [u8; 14] = [67, 67, 73, 84, 84, 70, 97, 120, 68, 101, 99, 111, 100, 101];

/// `/ColorSpace`.
pub const COLOR_SPACE: [u8; 10] = [67, 111, 108, 111, 114, 83, 112, 97, 99, 101];

/// `/DeviceGray`.
pub const DEVICE_GRAY: [u8; 10] = [68, 101, 118, 105, 99, 101, 71, 114, 97, 121];

/// `/DeviceGrey`.
pub const DEVICE_GREY: [u8; 10] = [68, 101, 118, 105, 99, 101, 71, 114, 101, 121];

/// `/DeviceRGB`.
pub const DEVICE_RGB: [u8; 9] = [68, 101, 118, 105, 99, 101, 82, 71, 66];

/// `/DeviceCMYK`.
pub const DEVICE_CMYK: [u8; 10] = [68, 101, 118, 105, 99, 101, 67, 77, 89, 75];

/// `/CalGray`.
pub const CAL_GRAY: [u8; 7] = [67, 97, 108, 71, 114, 97, 121];

/// `/CalRGB`.
pub const CAL_RGB: [u8; 6] = [67, 97, 108, 82, 71, 66];

/// `/ICCBased`.
pub const ICCBASED: [u8; 8] = [73, 67, 67, 66, 97, 115, 101, 100];

/// `/ImageMask`.
pub const IMAGE_MASK: [u8; 9] = [73, 109, 97, 103, 101, 77, 97, 115, 107];

/// `/Mask`.
pub const MASK: [u8; 4] = [77, 97, 115, 107];

/// `/SMask`.
pub const SMASK: [u8; 5] = [83, 77, 97, 115, 107];

/// `/Predictor`.
pub const PREDICTOR: [u8; 9] = [80, 114, 101, 100, 105, 99, 116, 111, 114];

/// `/Type`.
pub const TYPE: [u8; 4] = [84, 121, 112, 101];

/// `/XObject`.
pub const XOBJECT: [u8; 7] = [88, 79, 98, 106, 101, 99, 116];

/// `/Decode`.
pub const DECODE: [u8; 6] = [68, 101, 99, 111, 100, 101];

/// `/Colors`.
pub const COLORS: [u8; 6] = [67, 111, 108, 111, 114, 115];

/// `/Columns`.
pub const COLUMNS: [u8; 7] = [67, 111, 108, 117, 109, 110, 115];


/// `/T` (a field's name).
pub const T: [u8; 1] = [84];

/// `/Kids`.
pub const KIDS: [u8; 4] = [75, 105, 100, 115];

/// `/Fields`.
pub const FIELDS: [u8; 6] = [70, 105, 101, 108, 100, 115];

/// `/AcroForm`.
pub const ACROFORM: [u8; 8] = [65, 99, 114, 111, 70, 111, 114, 109];


/// `/Annots`.
pub const ANNOTS: [u8; 6] = [65, 110, 110, 111, 116, 115];

/// `/DR`.
pub const DR: [u8; 2] = [68, 82];

/// `/Font`.
pub const FONT: [u8; 4] = [70, 111, 110, 116];

/// `/Helv`.
pub const HELV: [u8; 4] = [72, 101, 108, 118];

/// `/NeedAppearances`.
pub const NEED_APPEARANCES: [u8; 15] = [78, 101, 101, 100, 65, 112, 112, 101, 97, 114, 97, 110, 99, 101, 115];

/// `/DA`.
pub const DA: [u8; 2] = [68, 65];

/// `/Type1`.
pub const TYPE1: [u8; 5] = [84, 121, 112, 101, 49];

/// `/BaseFont`.
pub const BASE_FONT: [u8; 8] = [66, 97, 115, 101, 70, 111, 110, 116];

/// `/Helvetica`.
pub const HELVETICA: [u8; 9] = [72, 101, 108, 118, 101, 116, 105, 99, 97];

/// `/Encoding`.
pub const ENCODING: [u8; 8] = [69, 110, 99, 111, 100, 105, 110, 103];

/// `/WinAnsiEncoding`.
pub const WIN_ANSI_ENCODING: [u8; 15] = [87, 105, 110, 65, 110, 115, 105, 69, 110, 99, 111, 100, 105, 110, 103];

/// The text `/Helv 10 Tf 0 g`: the default appearance of text fields.
pub const DEFAULT_DA: [u8; 15] = [47, 72, 101, 108, 118, 32, 49, 48, 32, 84, 102, 32, 48, 32, 103];

/// `/Parent`.
pub const PARENT: [u8; 6] = [80, 97, 114, 101, 110, 116];

/// `/Resources`.
pub const RESOURCES: [u8; 9] = [82, 101, 115, 111, 117, 114, 99, 101, 115];

} // verus!
