//! Texts of the notes and messages the passes report, as ASCII bytes.

use vstd::prelude::*;

verus! {

/// The text `output not smaller; kept original`.
pub const NOTE_KEPT_ORIGINAL: [u8; 33] = [111, 117, 116, 112, 117, 116, 32, 110, 111, 116, 32, 115, 109, 97, 108, 108, 101, 114, 59, 32, 107, 101, 112, 116, 32, 111, 114, 105, 103, 105, 110, 97, 108];

/// The text `orphans=`.
pub const NOTE_ORPHANS: [u8; 8] = [111, 114, 112, 104, 97, 110, 115, 61];

/// The text ` reflate=`.
pub const NOTE_REFLATE: [u8; 9] = [32, 114, 101, 102, 108, 97, 116, 101, 61];

/// The text ` images=`.
pub const NOTE_IMAGES: [u8; 8] = [32, 105, 109, 97, 103, 101, 115, 61];

/// The text ` dedup=`.
pub const NOTE_DEDUP: [u8; 7] = [32, 100, 101, 100, 117, 112, 61];

/// The text ` skipped=`.
pub const NOTE_SKIPPED: [u8; 9] = [32, 115, 107, 105, 112, 112, 101, 100, 61];

/// The text `images: `.
pub const NOTE_CENSUS_IMAGES: [u8; 8] = [105, 109, 97, 103, 101, 115, 58, 32];

/// The text `  stream_bytes: `.
pub const NOTE_CENSUS_STREAM_BYTES: [u8; 16] = [32, 32, 115, 116, 114, 101, 97, 109, 95, 98, 121, 116, 101, 115, 58, 32];


/// The text `fields=`.
pub const NOTE_FIELDS: [u8; 7] = [102, 105, 101, 108, 100, 115, 61];

/// The text ` text=`.
pub const NOTE_TEXT: [u8; 6] = [32, 116, 101, 120, 116, 61];

/// The text ` checkbox=`.
pub const NOTE_CHECKBOX: [u8; 10] = [32, 99, 104, 101, 99, 107, 98, 111, 120, 61];

/// The text `no empty slots; kept original`.
pub const NOTE_NO_SLOTS: [u8; 29] = [110, 111, 32, 101, 109, 112, 116, 121, 32, 115, 108, 111, 116, 115, 59, 32, 107, 101, 112, 116, 32, 111, 114, 105, 103, 105, 110, 97, 108];


/// Decimal digits of `n`, most significant first.
pub open spec fn decimal_spec(n: nat) -> Seq<u8>
    decreases n,
{
    if n < 10 {
        seq![(48 + n) as u8]
    } else {
        decimal_spec(n / 10).push((48 + n % 10) as u8)
    }
}

/// The decimal text of `n`.
pub fn decimal(n: u64) -> (r: Vec<u8>)
    ensures
        r@ == decimal_spec(n as nat),
    decreases n,
{
    if n < 10 {
        let mut v: Vec<u8> = Vec::new();
        v.push((48 + n) as u8);
        v
    } else {
        let mut v = decimal(n / 10);
        v.push((48 + n % 10) as u8);
        v
    }
}

/// `a` followed by `b`.
pub fn concat(a: &[u8], b: &[u8]) -> (r: Vec<u8>)
    ensures
        r@ == a@ + b@,
{
    let mut r = super::object::copy_bytes(a);
    let mut i: usize = 0;
    while i < b.len()
        invariant
            i <= b.len(),
            r@ == a@ + b@.take(i as int),
        decreases b.len() - i,
    {
        r.push(b[i]);
        i = i + 1;
        proof {
            assert(r@ =~= a@ + b@.take(i as int));
        }
    }
    proof {
        assert(b@.take(i as int) =~= b@);
    }
    r
}

/// The text the bytes spell, one character per byte (the bytes are ASCII).
pub open spec fn ascii_chars(b: Seq<u8>) -> Seq<char> {
    b.map_values(|c: u8| c as char)
}

/// `String::from_utf8` on ASCII bytes: the string spelled byte for byte.
#[verifier::external_body]
pub(crate) fn ascii_string(bytes: Vec<u8>) -> (s: String)
    requires
        forall|i: int| 0 <= i < bytes@.len() ==> bytes@[i] < 128,
    ensures
        s@ == ascii_chars(bytes@),
{
    match String::from_utf8(bytes) {
        Ok(s) => s,
        Err(_) => String::new(),
    }
}

} // verus!
