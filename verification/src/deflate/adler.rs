use vstd::prelude::*;

verus! {

/// The Adler-32 modulus.
pub const BASE: u32 = 65521;

/// First Adler-32 sum: 1 plus every byte, modulo BASE.
pub open spec fn adler_a(data: Seq<u8>) -> nat
    decreases data.len(),
{
    if data.len() == 0 {
        1
    } else {
        ((adler_a(data.drop_last()) + data.last()) as int % (BASE as int)) as nat
    }
}

/// Second Adler-32 sum: the running total of the first sum, modulo BASE.
pub open spec fn adler_b(data: Seq<u8>) -> nat
    decreases data.len(),
{
    if data.len() == 0 {
        0
    } else {
        ((adler_b(data.drop_last()) + adler_a(data)) as int % (BASE as int)) as nat
    }
}

/// The Adler-32 checksum of RFC 1950: `b * 65536 + a`.
pub open spec fn adler32_spec(data: Seq<u8>) -> int {
    (adler_b(data) * 65536 + adler_a(data)) as int
}

proof fn lemma_pack(s1: u32, s2: u32)
    requires
        s1 < 65536,
        s2 < 65536,
    ensures
        (s2 << 16u32) | s1 == s2 * 65536 + s1,
{
    assert((s2 << 16u32) | s1 == s2 * 65536 + s1) by (bit_vector)
        requires
            s1 < 65536,
            s2 < 65536,
    ;
}

/// Adler-32 checksum (RFC 1950) of `data`.
pub fn adler32(data: &[u8]) -> (r: u32)
    ensures
        r as int == adler32_spec(data@),
{
    let mut s1: u32 = 1;
    let mut s2: u32 = 0;
    let n = data.len();
    for i in 0..n
        invariant
            n == data@.len(),
            s1 as nat == adler_a(data@.take(i as int)),
            s2 as nat == adler_b(data@.take(i as int)),
            s1 < BASE,
            s2 < BASE,
    {
        let b = data[i];
        proof {
            assert(data@.take(i + 1).drop_last() =~= data@.take(i as int));
            assert(data@.take(i + 1).last() == b);
        }
        s1 = s1 + b as u32;
        if s1 >= BASE {
            s1 = s1 - BASE;
        }
        s2 = s2 + s1;
        if s2 >= BASE {
            s2 = s2 - BASE;
        }
    }
    proof {
        assert(data@.take(n as int) =~= data@);
        lemma_pack(s1, s2);
    }
    (s2 << 16) | s1
}

} // verus!
