//! Canonical Huffman construction with a length limit (DEFLATE).

use vstd::prelude::*;
use vstd::arithmetic::power2::{pow2, lemma2_to64, lemma_pow2_unfold, lemma_pow2_pos};

verus! {

/// A canonical Huffman table; codes are listed most significant bit first.
pub struct HuffTable {
    pub codes: Vec<u32>,
    pub lengths: Vec<u8>,
}

/// How many entries of `s` equal `l`.
pub open spec fn count_len(s: Seq<u8>, l: int) -> nat
    decreases s.len(),
{
    if s.len() == 0 {
        0
    } else {
        count_len(s.drop_last(), l) + if s.last() as int == l {
            1nat
        } else {
            0nat
        }
    }
}

/// First canonical code of bit length `b` (RFC 1951, 3.2.2); zero lengths take no code.
pub open spec fn first_code(s: Seq<u8>, b: nat) -> nat
    decreases b,
{
    if b == 0 {
        0
    } else {
        2 * (first_code(s, (b - 1) as nat) + if b - 1 == 0 {
            0nat
        } else {
            count_len(s, b - 1)
        })
    }
}

/// The canonical code of symbol `i`: codes of one length are consecutive, in symbol order.
pub open spec fn canonical_code(s: Seq<u8>, i: int) -> int {
    if s[i] == 0 {
        0
    } else {
        (first_code(s, s[i] as nat) + count_len(s.take(i), s[i] as int)) as int
    }
}

pub proof fn lemma_count_len_bound(s: Seq<u8>, l: int)
    ensures
        count_len(s, l) <= s.len(),
    decreases s.len(),
{
    if s.len() > 0 {
        lemma_count_len_bound(s.drop_last(), l);
    }
}

proof fn lemma_count_len_step(s: Seq<u8>, i: int, l: int)
    requires
        0 <= i < s.len(),
    ensures
        count_len(s.take(i + 1), l) == count_len(s.take(i), l) + if s[i] as int == l {
            1nat
        } else {
            0nat
        },
{
    assert(s.take(i + 1).drop_last() =~= s.take(i));
}

proof fn lemma_first_code_bound(s: Seq<u8>, b: nat)
    requires
        b <= 15,
    ensures
        first_code(s, b) + 2 * s.len() <= s.len() * pow2(b + 1),
    decreases b,
{
    let n = s.len();
    lemma_pow2_unfold(b + 1);
    if b == 0 {
        lemma2_to64();
        assert(n * pow2(1) == 2 * n) by (nonlinear_arith)
            requires
                pow2(1) == 2,
        ;
    } else {
        lemma_first_code_bound(s, (b - 1) as nat);
        lemma_count_len_bound(s, b - 1);
        let p = pow2(b);
        assert(n * pow2(b + 1) == 2 * (n * p)) by (nonlinear_arith)
            requires
                pow2(b + 1) == 2 * p,
        ;
    }
}

proof fn lemma_code_room(s: Seq<u8>, b: nat)
    requires
        1 <= b <= 15,
        s.len() < 65536,
    ensures
        first_code(s, b) + s.len() < 0x1_0000_0000,
{
    lemma_first_code_bound(s, b);
    lemma2_to64();
    lemma_pow_mono(b + 1, 16);
    let n = s.len();
    assert(n * pow2(b + 1) <= n * 65536) by (nonlinear_arith)
        requires
            pow2(b + 1) <= 65536,
    ;
}

/// The canonical codes of the lengths fit in 32 bits: for each length, its first code plus
/// the number of codes of that length.
pub open spec fn codes_fit(s: Seq<u8>) -> bool {
    forall|b: int| 1 <= b <= 15 ==> #[trigger] first_code(s, b as nat) + count_len(s, b) <= u32::MAX
}

/// Fewer than 65536 lengths always fit.
pub proof fn lemma_codes_fit_small(s: Seq<u8>)
    requires
        s.len() < 65536,
    ensures
        codes_fit(s),
{
    assert forall|b: int| 1 <= b <= 15 implies #[trigger] first_code(s, b as nat) + count_len(s, b) <= u32::MAX by {
        lemma_code_room(s, b as nat);
        lemma_count_len_bound(s, b);
    }
}

proof fn lemma_count_len_prefix(s: Seq<u8>, k: int, l: int)
    requires
        0 <= k <= s.len(),
    ensures
        count_len(s.take(k), l) <= count_len(s, l),
    decreases s.len(),
{
    if k == s.len() {
        assert(s.take(k) =~= s);
    } else {
        assert(s.drop_last().take(k) =~= s.take(k));
        lemma_count_len_prefix(s.drop_last(), k, l);
    }
}

proof fn lemma_pow_mono(a: nat, b: nat)
    requires
        a <= b,
    ensures
        pow2(a) <= pow2(b),
    decreases b - a,
{
    if a < b {
        lemma_pow_mono(a, (b - 1) as nat);
        lemma_pow2_unfold(b);
        lemma_pow2_pos((b - 1) as nat);
    }
}

impl HuffTable {
    /// Canonical codes for the given bit lengths (RFC 1951, 3.2.2).
    pub fn from_lengths(lengths: &[u8]) -> (t: Self)
        requires
            codes_fit(lengths@),
            forall|i: int| 0 <= i < lengths.len() ==> lengths[i] <= 15,
        ensures
            t.lengths@ == lengths@,
            t.codes.len() == lengths.len(),
            forall|i: int| 0 <= i < lengths.len() ==> t.codes[i] as int == canonical_code(lengths@, i),
    {
        let n = lengths.len();
        let ghost s = lengths@;
        let mut bl_count: Vec<u32> = vec![0u32; 16];
        let mut i: usize = 0;
        while i < n
            invariant
                i <= n,
                n == s.len(),
                s == lengths@,
                codes_fit(s),
                bl_count.len() == 16,
                bl_count[0] == 0,
                forall|l: int| 1 <= l < 16 ==> bl_count[l] as nat == #[trigger] count_len(s.take(i as int), l),
                forall|j: int| 0 <= j < n ==> s[j] <= 15,
            decreases n - i,
        {
            proof {
                assert forall|l: int| 1 <= l < 16 implies #[trigger] count_len(s.take(i + 1), l) == count_len(s.take(i as int), l) + if s[i as int] as int == l { 1nat } else { 0nat } by {
                    lemma_count_len_step(s, i as int, l);
                }
                lemma_count_len_bound(s.take(i as int), s[i as int] as int);
            }
            let l = lengths[i];
            assert(s[i as int] == l);
            if l > 0 {
                let c = bl_count[l as usize];
                assert(c as nat == count_len(s.take(i as int), l as int));
                proof {
                    let b = l as int;
                    assert(first_code(s, b as nat) + count_len(s, b) <= u32::MAX);
                    lemma_count_len_prefix(s, i + 1, b);
                    lemma_count_len_step(s, i as int, b);
                }
                bl_count.set(l as usize, c + 1);
            }
            i = i + 1;
        }
        proof {
            assert(s.take(n as int) =~= s);
            assert forall|l: int| 1 <= l < 16 implies bl_count[l] as nat == #[trigger] count_len(s, l) by {
                assert(bl_count[l] as nat == count_len(s.take(n as int), l));
            }
        }
        let mut next_code: Vec<u32> = vec![0u32; 16];
        let mut code: u32 = 0;
        for bits in 1..16usize
            invariant
                n == s.len(),
                codes_fit(s),
                bl_count.len() == 16,
                bl_count[0] == 0,
                forall|l: int| 1 <= l < 16 ==> bl_count[l] as nat == #[trigger] count_len(s, l),
                next_code.len() == 16,
                code as nat == first_code(s, (bits - 1) as nat),
                forall|b: int| 1 <= b < bits ==> next_code[b] as nat == first_code(s, b as nat),
        {
            proof {
                assert(first_code(s, bits as nat) + count_len(s, bits as int) <= u32::MAX);
                lemma_u32_shl_one((code + bl_count[bits - 1]) as u32);
            }
            code = (code + bl_count[bits - 1]) << 1;
            next_code.set(bits, code);
        }
        let mut codes: Vec<u32> = vec![0u32; n];
        let mut i: usize = 0;
        while i < n
            invariant
                i <= n,
                n == s.len(),
                s == lengths@,
                codes_fit(s),
                forall|j: int| 0 <= j < n ==> s[j] <= 15,
                next_code.len() == 16,
                codes.len() == n,
                forall|l: int| 1 <= l < 16 ==> next_code[l] as nat == first_code(s, l as nat) + #[trigger] count_len(s.take(i as int), l),
                forall|j: int| 0 <= j < i ==> codes[j] as int == canonical_code(s, j),
                forall|j: int| i <= j < n ==> codes[j] == 0,
            decreases n - i,
        {
            let len = lengths[i];
            assert(s[i as int] == len);
            proof {
                assert forall|l: int| 1 <= l < 16 implies #[trigger] count_len(s.take(i + 1), l) == count_len(s.take(i as int), l) + if s[i as int] as int == l { 1nat } else { 0nat } by {
                    lemma_count_len_step(s, i as int, l);
                }
                if len > 0 {
                    let b = len as int;
                    assert(first_code(s, b as nat) + count_len(s, b) <= u32::MAX);
                    lemma_count_len_prefix(s, i + 1, b);
                }
            }
            if len != 0 {
                let c = next_code[len as usize];
                assert(c as nat == first_code(s, len as nat) + count_len(s.take(i as int), len as int));
                codes.set(i, c);
                next_code.set(len as usize, c + 1);
            }
            proof {
                assert forall|l: int| 1 <= l < 16 implies next_code[l] as nat == first_code(s, l as nat) + #[trigger] count_len(s.take(i + 1), l) by {
                    assert(count_len(s.take(i + 1), l) == count_len(s.take(i as int), l) + if s[i as int] as int == l { 1nat } else { 0nat });
                }
            }
            i = i + 1;
        }
        HuffTable { codes, lengths: vstd::slice::slice_to_vec(lengths) }
    }
}

proof fn lemma_u32_shl_one(x: u32)
    requires
        x <= 0x7fff_ffff,
    ensures
        x << 1u32 == 2 * x,
{
    lemma2_to64();
    vstd::bits::lemma_u32_shl_is_mul(x, 1);
}

} // verus!

verus! {

/// Order in which code-length code lengths are sent (RFC 1951, 3.2.7).
pub const CODE_LENGTH_ORDER: [usize; 19] = [
    16, 17, 18, 0, 8, 7, 9, 6, 10, 5, 11, 4, 12, 3, 13, 2, 14, 1, 15,
];

/// `n` copies of `b`.
pub open spec fn repeat_byte(b: u8, n: nat) -> Seq<u8> {
    Seq::new(n, |k: int| b)
}

/// What a decoder rebuilds from code-length entries `(symbol, extra bits, extra value)`:
/// 0..=15 is a length, 16 repeats the previous length 3..=6 times,
/// 17 gives 3..=10 zeros and 18 gives 11..=138 zeros.
pub open spec fn rle_expand(e: Seq<(u8, u8, u8)>) -> Seq<u8>
    decreases e.len(),
{
    if e.len() == 0 {
        Seq::empty()
    } else {
        let prev = rle_expand(e.drop_last());
        let sym = e.last().0;
        let v = e.last().2;
        if sym == 16 {
            prev + repeat_byte(prev.last(), (3 + v) as nat)
        } else if sym == 17 {
            prev + repeat_byte(0, (3 + v) as nat)
        } else if sym == 18 {
            prev + repeat_byte(0, (11 + v) as nat)
        } else {
            prev.push(sym)
        }
    }
}

/// A code-length entry carries the extra-bit width its symbol calls for, and a value that fits.
pub open spec fn rle_entry_ok(e: (u8, u8, u8)) -> bool {
    ||| (e.0 <= 15 && e.1 == 0 && e.2 == 0)
    ||| (e.0 == 16 && e.1 == 2 && e.2 < 4)
    ||| (e.0 == 17 && e.1 == 3 && e.2 < 8)
    ||| (e.0 == 18 && e.1 == 7 && e.2 < 128)
}

proof fn lemma_rle_push(e: Seq<(u8, u8, u8)>, x: (u8, u8, u8))
    ensures
        rle_expand(e.push(x)) == {
            let prev = rle_expand(e);
            if x.0 == 16 {
                prev + repeat_byte(prev.last(), (3 + x.2) as nat)
            } else if x.0 == 17 {
                prev + repeat_byte(0, (3 + x.2) as nat)
            } else if x.0 == 18 {
                prev + repeat_byte(0, (11 + x.2) as nat)
            } else {
                prev.push(x.0)
            }
        },
{
    assert(e.push(x).drop_last() =~= e);
}

/// How many entries from `i` on equal `v`, counting at most `cap`.
pub open spec fn run_of(s: Seq<u8>, i: int, v: u8, cap: nat) -> nat
    decreases cap,
{
    if cap == 0 || i < 0 || i >= s.len() || s[i] != v {
        0
    } else {
        1 + run_of(s, i + 1, v, (cap - 1) as nat)
    }
}

pub proof fn lemma_run_of_bound(s: Seq<u8>, i: int, v: u8, cap: nat)
    requires
        0 <= i,
    ensures
        run_of(s, i, v, cap) <= if i <= s.len() { s.len() - i } else { 0 },
        run_of(s, i, v, cap) <= cap,
    decreases cap,
{
    if cap > 0 && i < s.len() {
        lemma_run_of_bound(s, i + 1, v, (cap - 1) as nat);
    }
}

/// The run-length items for the lengths from `i` on: a run of zeros (at most 138) is one
/// 18 item (11 or more), one 17 item (3 to 10), or that many 0 items; a nonzero length is
/// sent as itself, followed by one 16 item when it repeats 3 to 6 more times.
#[verifier::opaque]
pub open spec fn rle_from(s: Seq<u8>, i: int) -> Seq<(u8, u8, u8)>
    decreases s.len() - i,
{
    if i < 0 || i >= s.len() {
        Seq::empty()
    } else if s[i] == 0 {
        let run = run_of(s, i, 0, 138);
        if run == 0 {
            Seq::empty()
        } else {
            let items = if run >= 11 {
                seq![(18u8, 7u8, (run - 11) as u8)]
            } else if run >= 3 {
                seq![(17u8, 3u8, (run - 3) as u8)]
            } else {
                Seq::new(run, |k: int| (0u8, 0u8, 0u8))
            };
            proof {
                lemma_run_of_bound(s, i, 0, 138);
            }
            items + rle_from(s, i + run)
        }
    } else {
        let r = run_of(s, i + 1, s[i], 6);
        proof {
            lemma_run_of_bound(s, i + 1, s[i], 6);
        }
        if r >= 3 {
            seq![(s[i], 0u8, 0u8), (16u8, 2u8, (r - 3) as u8)] + rle_from(s, i + 1 + r)
        } else {
            seq![(s[i], 0u8, 0u8)] + rle_from(s, i + 1)
        }
    }
}

proof fn lemma_run_of_split(s: Seq<u8>, i: int, v: u8, cap: nat, k: nat)
    requires
        0 <= i,
        k <= cap,
        i + k <= s.len(),
        forall|j: int| i <= j < i + k ==> s[j] == v,
    ensures
        run_of(s, i, v, cap) == k + run_of(s, i + k, v, (cap - k) as nat),
    decreases k,
{
    if k > 0 {
        lemma_run_of_split(s, i + 1, v, (cap - 1) as nat, (k - 1) as nat);
    }
}

/// Run-length code the bit lengths for the dynamic header (RFC 1951, 3.2.7).
pub fn encode_code_lengths(lengths: &[u8]) -> (out: Vec<(u8, u8, u8)>)
    ensures
        out@ == rle_from(lengths@, 0),
        (forall|i: int| 0 <= i < lengths.len() ==> lengths[i] <= 15) ==> {
            &&& rle_expand(out@) == lengths@
            &&& forall|k: int| 0 <= k < out.len() && #[trigger] out[k].0 == 16 ==> k > 0 && 1 <= out[k - 1].0 <= 15
            &&& forall|k: int| 0 <= k < out.len() ==> rle_entry_ok(#[trigger] out[k])
        },
{
    proof {
        reveal(rle_from);
    }
    let ghost s = lengths@;
    let ghost all15 = forall|i: int| 0 <= i < lengths.len() ==> lengths[i] <= 15;
    let mut out: Vec<(u8, u8, u8)> = Vec::new();
    let mut i: usize = 0;
    while i < lengths.len()
        invariant
            s == lengths@,
            all15 == (forall|j: int| 0 <= j < lengths.len() ==> lengths[j] <= 15),
            i <= lengths.len(),
            out@ + rle_from(s, i as int) == rle_from(s, 0),
            all15 ==> forall|k: int| 0 <= k < out.len() && #[trigger] out[k].0 == 16 ==> k > 0 && 1 <= out[k - 1].0 <= 15,
            all15 ==> rle_expand(out@) == s.take(i as int),
            all15 ==> forall|k: int| 0 <= k < out.len() ==> rle_entry_ok(#[trigger] out[k]),
        decreases lengths.len() - i,
    {
        let len = lengths[i];
        let start = i;
        if len == 0 {
            let mut run: usize = 1;
            i = i + 1;
            while i < lengths.len() && lengths[i] == 0 && run < 138
                invariant
                    s == lengths@,
                    start < i <= lengths.len(),
                    run == i - start,
                    1 <= run <= 138,
                    forall|j: int| start <= j < i ==> s[j] == 0,
                decreases lengths.len() - i,
            {
                run = run + 1;
                i = i + 1;
            }
            let ghost prev = out@;
            proof {
                assert(s.take(i as int) =~= s.take(start as int) + repeat_byte(0, run as nat));
                lemma_run_of_split(s, start as int, 0, 138, run as nat);
                assert(run_of(s, start as int, 0, 138) == run);
                let items = if run >= 11 {
                    seq![(18u8, 7u8, (run - 11) as u8)]
                } else if run >= 3 {
                    seq![(17u8, 3u8, (run - 3) as u8)]
                } else {
                    Seq::new(run as nat, |k: int| (0u8, 0u8, 0u8))
                };
                reveal(rle_from);
                assert(rle_from(s, start as int) == items + rle_from(s, i as int));
            }
            if run >= 11 {
                proof {
                    lemma_rle_push(out@, (18u8, 7u8, (run - 11) as u8));
                }
                out.push((18, 7, (run - 11) as u8));
                proof {
                    assert(out@ + rle_from(s, i as int) =~= prev + rle_from(s, start as int));
                }
            } else if run >= 3 {
                proof {
                    lemma_rle_push(out@, (17u8, 3u8, (run - 3) as u8));
                }
                out.push((17, 3, (run - 3) as u8));
                proof {
                    assert(out@ + rle_from(s, i as int) =~= prev + rle_from(s, start as int));
                }
            } else {
                let mut k: usize = 0;
                while k < run
                    invariant
                        k <= run <= 2,
                        out@.len() == prev.len() + k,
                        forall|m: int| 0 <= m < prev.len() ==> out@[m] == prev[m],
                        forall|m: int| prev.len() <= m < out@.len() ==> out@[m] == (0u8, 0u8, 0u8),
                        rle_expand(out@) == rle_expand(prev) + repeat_byte(0, k as nat),
                        all15 ==> forall|m: int| 0 <= m < out.len() && #[trigger] out[m].0 == 16 ==> m > 0 && 1 <= out[m - 1].0 <= 15,
                        all15 ==> forall|m: int| 0 <= m < out.len() ==> rle_entry_ok(#[trigger] out[m]),
                    decreases run - k,
                {
                    proof {
                        lemma_rle_push(out@, (0u8, 0u8, 0u8));
                        assert(rle_expand(prev) + repeat_byte(0, k as nat) + seq![0u8] =~= rle_expand(prev) + repeat_byte(0, (k + 1) as nat));
                        assert((rle_expand(prev) + repeat_byte(0, k as nat)).push(0u8) =~= rle_expand(prev) + repeat_byte(0, k as nat) + seq![0u8]);
                    }
                    out.push((0, 0, 0));
                    k = k + 1;
                }
                proof {
                    assert(out@ =~= prev + Seq::new(run as nat, |k: int| (0u8, 0u8, 0u8)));
                    assert(out@ + rle_from(s, i as int) =~= prev + rle_from(s, start as int));
                }
            }
        } else {
            let ghost prev = out@;
            proof {
                lemma_rle_push(out@, (len, 0u8, 0u8));
                assert(s.take(i + 1) =~= s.take(i as int).push(len));
            }
            out.push((len, 0, 0));
            i = i + 1;
            let mut run: usize = 0;
            while i < lengths.len() && lengths[i] == len && run < 6
                invariant
                    s == lengths@,
                    start + 1 <= i <= lengths.len(),
                    run == i - start - 1,
                    run <= 6,
                    forall|j: int| start < j < i ==> s[j] == len,
                decreases lengths.len() - i,
            {
                run = run + 1;
                i = i + 1;
            }
            proof {
                lemma_run_of_split(s, start + 1, len, 6, run as nat);
                assert(run_of(s, start + 1, len, 6) == run);
            }
            if run >= 3 {
                proof {
                    lemma_rle_push(out@, (16u8, 2u8, (run - 3) as u8));
                    if all15 {
                        assert(rle_expand(out@).last() == len);
                    }
                    assert(s.take(i as int) =~= s.take(start + 1) + repeat_byte(len, run as nat));
                    reveal(rle_from);
                    assert(rle_from(s, start as int) == seq![(len, 0u8, 0u8), (16u8, 2u8, (run - 3) as u8)] + rle_from(s, i as int));
                }
                out.push((16, 2, (run - 3) as u8));
                proof {
                    assert(out@ + rle_from(s, i as int) =~= prev + rle_from(s, start as int));
                }
            } else {
                i = i - run;
                proof {
                    reveal(rle_from);
                    assert(rle_from(s, start as int) == seq![(len, 0u8, 0u8)] + rle_from(s, i as int));
                    assert(out@ + rle_from(s, i as int) =~= prev + rle_from(s, start as int));
                }
            }
        }
    }
    proof {
        assert(s.take(lengths.len() as int) =~= s);
        reveal(rle_from);
        assert(out@ + rle_from(s, i as int) =~= out@);
    }
    out
}

} // verus!

verus! {

/// Sum of a sequence of counts.
pub open spec fn sum_u32(s: Seq<u32>) -> int
    decreases s.len(),
{
    if s.len() == 0 {
        0
    } else {
        sum_u32(s.drop_last()) + s.last()
    }
}

/// How many entries are nonzero.
pub open spec fn count_nonzero(s: Seq<u8>) -> nat
    decreases s.len(),
{
    if s.len() == 0 {
        0
    } else {
        count_nonzero(s.drop_last()) + if s.last() != 0 {
            1nat
        } else {
            0nat
        }
    }
}

/// How many counts are nonzero.
pub open spec fn count_used(s: Seq<u32>) -> nat
    decreases s.len(),
{
    if s.len() == 0 {
        0
    } else {
        count_used(s.drop_last()) + if s.last() != 0 {
            1nat
        } else {
            0nat
        }
    }
}

/// Kraft sum scaled by `2^max`: each code of length `l` weighs `2^(max - l)`.
/// A prefix code with these lengths exists exactly when it is at most `2^max`.
pub open spec fn kraft_sum(s: Seq<u8>, max: nat) -> nat
    decreases s.len(),
{
    if s.len() == 0 {
        0
    } else {
        kraft_sum(s.drop_last(), max) + if s.last() != 0 {
            pow2((max - s.last()) as nat)
        } else {
            0nat
        }
    }
}

/// Room left to lengthen codes: the sum of `max - l` over nonzero lengths.
spec fn slack(s: Seq<u8>, max: nat) -> nat
    decreases s.len(),
{
    if s.len() == 0 {
        0
    } else {
        slack(s.drop_last(), max) + if s.last() != 0 && s.last() < max {
            (max - s.last()) as nat
        } else {
            0nat
        }
    }
}

proof fn lemma_update_counts(s: Seq<u8>, i: int, x: u8, max: nat)
    requires
        0 <= i < s.len(),
    ensures
        count_nonzero(s.update(i, x)) + (if s[i] != 0 { 1int } else { 0int }) == count_nonzero(s)
            + (if x != 0 { 1int } else { 0int }),
        kraft_sum(s.update(i, x), max) + (if s[i] != 0 { pow2((max - s[i]) as nat) as int } else { 0int })
            == kraft_sum(s, max) + (if x != 0 { pow2((max - x) as nat) as int } else { 0int }),
        slack(s.update(i, x), max) + (if s[i] != 0 && s[i] < max { (max - s[i]) as int } else { 0int })
            == slack(s, max) + (if x != 0 && x < max { (max - x) as int } else { 0int }),
    decreases s.len(),
{
    if i < s.len() - 1 {
        assert(s.update(i, x).drop_last() =~= s.drop_last().update(i, x));
        lemma_update_counts(s.drop_last(), i, x, max);
    } else {
        assert(s.update(i, x).drop_last() =~= s.drop_last());
    }
}

proof fn lemma_kraft_all_max(s: Seq<u8>, max: nat)
    requires
        forall|i: int| 0 <= i < s.len() ==> s[i] == 0 || s[i] == max,
    ensures
        kraft_sum(s, max) == count_nonzero(s),
    decreases s.len(),
{
    if s.len() > 0 {
        lemma_kraft_all_max(s.drop_last(), max);
        vstd::arithmetic::power2::lemma2_to64();
    }
}

proof fn lemma_count_nonzero_bound(s: Seq<u8>)
    ensures
        count_nonzero(s) <= s.len(),
    decreases s.len(),
{
    if s.len() > 0 {
        lemma_count_nonzero_bound(s.drop_last());
    }
}

proof fn lemma_kraft_bound(s: Seq<u8>, max: nat)
    requires
        max <= 15,
        forall|i: int| 0 <= i < s.len() ==> s[i] <= max,
    ensures
        kraft_sum(s, max) <= s.len() * 16384 || max == 15 && kraft_sum(s, max) <= s.len() * 32768,
        kraft_sum(s, max) <= s.len() * 32768,
    decreases s.len(),
{
    if s.len() > 0 {
        lemma_kraft_bound(s.drop_last(), max);
        if s.last() != 0 {
            lemma_pow_mono((max - s.last()) as nat, 15);
            lemma2_to64();
        }
    }
}

proof fn lemma_kraft_prefix(s: Seq<u8>, i: int, max: nat)
    requires
        0 <= i < s.len(),
    ensures
        kraft_sum(s.take(i + 1), max) == kraft_sum(s.take(i), max) + if s[i] != 0 {
            pow2((max - s[i]) as nat)
        } else {
            0nat
        },
{
    assert(s.take(i + 1).drop_last() =~= s.take(i));
}

proof fn lemma_u128_weight(k: u8)
    requires
        k <= 15,
    ensures
        (1u128 << k) as int == pow2(k as nat),
{
    assert((1u128 << k) as int == (1u32 << k) as int) by (bit_vector)
        requires
            k <= 15,
    ;
    lemma2_to64();
    vstd::bits::lemma_u32_shl_is_mul(1, k as u32);
}

/// Lengthen the shortest codes until the Kraft sum fits under `2^max_bits`.
fn limit_lengths(lengths: &mut Vec<u8>, max_bits: u8)
    requires
        1 <= max_bits <= 15,
        forall|i: int| 0 <= i < old(lengths).len() ==> old(lengths)[i] <= max_bits,
    ensures
        final(lengths).len() == old(lengths).len(),
        forall|i: int| 0 <= i < final(lengths).len() ==> final(lengths)[i] <= max_bits,
        forall|i: int| 0 <= i < final(lengths).len() ==> (final(lengths)[i] == 0 <==> old(lengths)[i] == 0),
        count_nonzero(old(lengths)@) <= pow2(max_bits as nat) ==> kraft_sum(final(lengths)@, max_bits as nat) <= pow2(max_bits as nat),
{
    let n = lengths.len();
    let ghost orig = lengths@;
    let ghost mx = max_bits as nat;
    loop
        invariant
            1 <= max_bits <= 15,
            mx == max_bits as nat,
            n == lengths.len(),
            n == orig.len(),
            forall|i: int| 0 <= i < n ==> lengths[i] <= max_bits,
            forall|i: int| 0 <= i < n ==> (lengths[i] == 0 <==> orig[i] == 0),
            count_nonzero(lengths@) == count_nonzero(orig),
        ensures
            n == lengths.len(),
            forall|i: int| 0 <= i < n ==> lengths[i] <= max_bits,
            forall|i: int| 0 <= i < n ==> (lengths[i] == 0 <==> orig[i] == 0),
            count_nonzero(orig) <= pow2(mx) ==> kraft_sum(lengths@, mx) <= pow2(mx),
        decreases slack(lengths@, mx),
    {
        let mut kraft: u128 = 0;
        let mut i: usize = 0;
        while i < n
            invariant
                1 <= max_bits <= 15,
                mx == max_bits as nat,
                n == lengths.len(),
                i <= n,
                forall|j: int| 0 <= j < n ==> lengths[j] <= max_bits,
                kraft as int == kraft_sum(lengths@.take(i as int), mx),
                kraft_sum(lengths@.take(i as int), mx) <= i * 32768,
            decreases n - i,
        {
            let l = lengths[i];
            proof {
                lemma_kraft_prefix(lengths@, i as int, mx);
                if l > 0 {
                    lemma_pow_mono((mx - l) as nat, 15);
                    lemma2_to64();
                }
            }
            if l > 0 {
                proof {
                    lemma_u128_weight((max_bits - l) as u8);
                    assert(i * 32768 + 32768 < 0x1_0000_0000_0000_0000_0000_0000_0000_0000) by (nonlinear_arith)
                        requires
                            i <= usize::MAX,
                    ;
                }
                kraft = kraft + (1u128 << (max_bits - l));
            }
            i = i + 1;
        }
        proof {
            assert(lengths@.take(n as int) =~= lengths@);
            lemma_u128_weight(max_bits);
        }
        let limit: u128 = 1u128 << max_bits;
        if kraft <= limit {
            break;
        }
        let mut found = false;
        let mut bi: usize = 0;
        let mut bl: u8 = 0;
        let mut k: usize = 0;
        while k < n
            invariant
                n == lengths.len(),
                k <= n,
                found ==> bi < n && lengths[bi as int] == bl && 0 < bl < max_bits,
                !found ==> forall|j: int| 0 <= j < k ==> !(lengths[j] != 0 && lengths[j] < max_bits),
            decreases n - k,
        {
            let l = lengths[k];
            if l > 0 && l < max_bits && (!found || l < bl) {
                found = true;
                bi = k;
                bl = l;
            }
            k = k + 1;
        }
        if found {
            proof {
                lemma_update_counts(lengths@, bi as int, (bl + 1) as u8, mx);
            }
            lengths.set(bi, bl + 1);
        } else {
            proof {
                lemma_kraft_all_max(lengths@, mx);
            }
            break;
        }
    }
}

} // verus!

verus! {

/// A node of the Huffman tree: a symbol, or two earlier nodes merged.
#[derive(Clone, Copy)]
enum Node {
    Leaf { freq: u32, sym: usize },
    Inner { freq: u32, left: usize, right: usize },
}

spec fn node_freq(n: Node) -> u32 {
    match n {
        Node::Leaf { freq, .. } => freq,
        Node::Inner { freq, .. } => freq,
    }
}

fn freq_of(node: &Node) -> (f: u32)
    ensures
        f == node_freq(*node),
{
    match node {
        Node::Leaf { freq, .. } => *freq,
        Node::Inner { freq, .. } => *freq,
    }
}

/// Leaves name symbols below `n`; an inner node only points at earlier nodes.
spec fn tree_wf(tree: Seq<Node>, n: nat) -> bool {
    forall|k: int|
        0 <= k < tree.len() ==> match #[trigger] tree[k] {
            Node::Leaf { sym, .. } => sym < n,
            Node::Inner { left, right, .. } => left < k && right < k,
        }
}

/// Symbol `s` is a leaf of the subtree rooted at `id`.
spec fn covers(tree: Seq<Node>, id: int, s: int) -> bool
    decreases id,
{
    if 0 <= id < tree.len() {
        match tree[id] {
            Node::Leaf { sym, .. } => sym == s,
            Node::Inner { left, right, .. } => (left < id && covers(tree, left as int, s)) || (
            right < id && covers(tree, right as int, s)),
        }
    } else {
        false
    }
}

proof fn lemma_covers_push(tree: Seq<Node>, x: Node, id: int, s: int)
    requires
        0 <= id < tree.len(),
    ensures
        covers(tree.push(x), id, s) == covers(tree, id, s),
    decreases id,
{
    assert(tree.push(x)[id] == tree[id]);
    match tree[id] {
        Node::Leaf { .. } => {},
        Node::Inner { left, right, .. } => {
            if left < id {
                lemma_covers_push(tree, x, left as int, s);
            }
            if right < id {
                lemma_covers_push(tree, x, right as int, s);
            }
        },
    }
}

/// Sum of the weights in a heap.
spec fn heap_sum(h: Seq<(u32, usize)>) -> int
    decreases h.len(),
{
    if h.len() == 0 {
        0
    } else {
        h[0].0 + heap_sum(h.drop_first())
    }
}

proof fn lemma_heap_sum_push(h: Seq<(u32, usize)>, x: (u32, usize))
    ensures
        heap_sum(h.push(x)) == heap_sum(h) + x.0,
    decreases h.len(),
{
    if h.len() > 0 {
        assert(h.push(x).drop_first() =~= h.drop_first().push(x));
        assert(h.push(x)[0] == h[0]);
        lemma_heap_sum_push(h.drop_first(), x);
    } else {
        assert(h.push(x).drop_first() =~= Seq::<(u32, usize)>::empty());
        assert(h.push(x)[0] == x);
        assert(heap_sum(Seq::<(u32, usize)>::empty()) == 0);
    }
}

proof fn lemma_heap_sum_swap(h: Seq<(u32, usize)>, j: int)
    requires
        0 <= j,
        j + 1 < h.len(),
    ensures
        heap_sum(h.update(j, h[j + 1]).update(j + 1, h[j])) == heap_sum(h),
    decreases j,
{
    let g = h.update(j, h[j + 1]).update(j + 1, h[j]);
    if j == 0 {
        assert(g.drop_first().drop_first() =~= h.drop_first().drop_first());
        assert(heap_sum(g.drop_first()) == g[1].0 + heap_sum(g.drop_first().drop_first()));
        assert(heap_sum(h.drop_first()) == h[1].0 + heap_sum(h.drop_first().drop_first()));
    } else {
        let t = h.drop_first();
        assert(g.drop_first() =~= t.update(j - 1, t[j]).update(j, t[j - 1]));
        lemma_heap_sum_swap(t, j - 1);
    }
}

spec fn in_heap(h: Seq<(u32, usize)>, id: int) -> bool {
    exists|k: int| 0 <= k < h.len() && #[trigger] h[k].1 == id
}

spec fn heap_ok(h: Seq<(u32, usize)>, tree: Seq<Node>) -> bool {
    &&& forall|k: int| 0 <= k < h.len() ==> (#[trigger] h[k]).1 < tree.len() && h[k].0 == node_freq(tree[h[k].1 as int])
    &&& forall|a: int, b: int| 0 <= a < b < h.len() ==> (#[trigger] h[a]).1 != (#[trigger] h[b]).1
}

/// `h` is `orig` stably sorted by weight: weights never decrease, and `p` maps each position
/// to the item's position in `orig`, one for one, keeping the order of equal weights.
pub open spec fn stably_sorted(h: Seq<(u32, usize)>, orig: Seq<(u32, usize)>, p: Seq<int>) -> bool {
    &&& h.len() == orig.len() && p.len() == h.len()
    &&& forall|a: int, b: int| 0 <= a < b < h.len() ==> (#[trigger] h[a]).0 <= (#[trigger] h[b]).0
    &&& forall|k: int| 0 <= k < h.len() ==> 0 <= #[trigger] p[k] < h.len() && h[k] == orig[p[k]]
    &&& forall|a: int, b: int| 0 <= a < b < h.len() ==> #[trigger] p[a] != #[trigger] p[b]
    &&& forall|a: int, b: int| 0 <= a < b < h.len() && (#[trigger] h[a]).0 == (#[trigger] h[b]).0 ==> p[a] < p[b]
}

/// Stable sort by weight (the order `sort_by_key` gives).
fn sort_by_freq(heap: &mut Vec<(u32, usize)>, Ghost(tree): Ghost<Seq<Node>>)
    requires
        heap_ok(old(heap)@, tree),
    ensures
        final(heap).len() == old(heap).len(),
        heap_ok(final(heap)@, tree),
        heap_sum(final(heap)@) == heap_sum(old(heap)@),
        forall|id: int| in_heap(final(heap)@, id) == in_heap(old(heap)@, id),
        exists|p: Seq<int>| stably_sorted(final(heap)@, old(heap)@, p),
{
    let n = heap.len();
    let ghost orig = heap@;
    let ghost mut p: Seq<int> = Seq::new(n as nat, |k: int| k);
    let mut i: usize = if n == 0 { 0 } else { 1 };
    while i < n
        invariant
            n == heap.len(),
            n == old(heap).len(),
            orig == old(heap)@,
            1 <= i <= n || (i == 0 && n == 0),
            heap_ok(heap@, tree),
            heap_sum(heap@) == heap_sum(old(heap)@),
            forall|id: int| in_heap(heap@, id) == in_heap(old(heap)@, id),
            p.len() == n,
            forall|a: int, b: int| 0 <= a < b < i ==> (#[trigger] heap@[a]).0 <= (#[trigger] heap@[b]).0,
            forall|k: int| 0 <= k < n ==> 0 <= #[trigger] p[k] < n && heap@[k] == orig[p[k]],
            forall|k: int| i <= k < n ==> #[trigger] p[k] == k,
            forall|k: int| 0 <= k < i ==> #[trigger] p[k] < i,
            forall|a: int, b: int| 0 <= a < b < n ==> #[trigger] p[a] != #[trigger] p[b],
            forall|a: int, b: int| 0 <= a < b < i && (#[trigger] heap@[a]).0 == (#[trigger] heap@[b]).0 ==> p[a] < p[b],
        decreases n - i,
    {
        let mut j: usize = i;
        while j > 0 && heap[j - 1].0 > heap[j].0
            invariant
                n == heap.len(),
                j <= i < n,
                orig == old(heap)@,
                heap_ok(heap@, tree),
                heap_sum(heap@) == heap_sum(old(heap)@),
                forall|id: int| in_heap(heap@, id) == in_heap(old(heap)@, id),
                p.len() == n,
                forall|a: int, b: int| 0 <= a < b <= i && a != j && b != j ==> (#[trigger] heap@[a]).0 <= (#[trigger] heap@[b]).0,
                forall|b: int| j < b <= i ==> heap@[j as int].0 < (#[trigger] heap@[b]).0,
                forall|k: int| 0 <= k < n ==> 0 <= #[trigger] p[k] < n && heap@[k] == orig[p[k]],
                forall|k: int| i < k < n ==> #[trigger] p[k] == k,
                p[j as int] == i,
                forall|k: int| 0 <= k <= i && k != j ==> #[trigger] p[k] < i,
                forall|a: int, b: int| 0 <= a < b < n ==> #[trigger] p[a] != #[trigger] p[b],
                forall|a: int, b: int| 0 <= a < b <= i && a != j && b != j && (#[trigger] heap@[a]).0 == (#[trigger] heap@[b]).0
                    ==> p[a] < p[b],
            decreases j,
        {
            let a = heap[j - 1];
            let b = heap[j];
            let ghost h0 = heap@;
            let ghost p0 = p;
            proof {
                lemma_heap_sum_swap(h0, j - 1);
            }
            heap.set(j - 1, b);
            heap.set(j, a);
            proof {
                assert(heap@ == h0.update(j - 1, h0[j as int]).update(j as int, h0[j - 1]));
                assert forall|id: int| in_heap(heap@, id) == in_heap(h0, id) by {
                    if in_heap(h0, id) {
                        let k = choose|k: int| 0 <= k < h0.len() && #[trigger] h0[k].1 == id;
                        let k2 = if k == j - 1 { j as int } else if k == j { j - 1 } else { k };
                        assert(heap@[k2].1 == id);
                    }
                    if in_heap(heap@, id) {
                        let k = choose|k: int| 0 <= k < heap@.len() && #[trigger] heap@[k].1 == id;
                        let k2 = if k == j - 1 { j as int } else if k == j { j - 1 } else { k };
                        assert(h0[k2].1 == id);
                    }
                }
                assert forall|x: int, y: int| 0 <= x < y < heap@.len() implies (#[trigger] heap@[x]).1 != (#[trigger] heap@[y]).1 by {
                    let x2 = if x == j - 1 { j as int } else if x == j { j - 1 } else { x };
                    let y2 = if y == j - 1 { j as int } else if y == j { j - 1 } else { y };
                    assert(heap@[x] == h0[x2]);
                    assert(heap@[y] == h0[y2]);
                    if x2 < y2 {
                        assert(h0[x2].1 != h0[y2].1);
                    } else {
                        assert(h0[y2].1 != h0[x2].1);
                    }
                }
                p = p0.update(j - 1, p0[j as int]).update(j as int, p0[j - 1]);
                assert forall|x: int, y: int| 0 <= x < y < n implies #[trigger] p[x] != #[trigger] p[y] by {
                    let x2 = if x == j - 1 { j as int } else if x == j { j - 1 } else { x };
                    let y2 = if y == j - 1 { j as int } else if y == j { j - 1 } else { y };
                    assert(p[x] == p0[x2] && p[y] == p0[y2]);
                    if x2 < y2 {
                        assert(p0[x2] != p0[y2]);
                    } else {
                        assert(p0[y2] != p0[x2]);
                    }
                }
                assert forall|k: int| 0 <= k < n implies 0 <= #[trigger] p[k] < n && heap@[k] == orig[p[k]] by {
                    let k2 = if k == j - 1 { j as int } else if k == j { j - 1 } else { k };
                    assert(p[k] == p0[k2] && heap@[k] == h0[k2]);
                }
                assert forall|x: int, y: int| 0 <= x < y <= i && x != j - 1 && y != j - 1 implies
                    (#[trigger] heap@[x]).0 <= (#[trigger] heap@[y]).0 by {
                    let x2 = if x == j { j - 1 } else { x };
                    let y2 = if y == j { j - 1 } else { y };
                    assert(heap@[x] == h0[x2] && heap@[y] == h0[y2]);
                }
                assert forall|x: int, y: int| 0 <= x < y <= i && x != j - 1 && y != j - 1
                    && (#[trigger] heap@[x]).0 == (#[trigger] heap@[y]).0 implies p[x] < p[y] by {
                    let x2 = if x == j { j - 1 } else { x };
                    let y2 = if y == j { j - 1 } else { y };
                    assert(heap@[x] == h0[x2] && heap@[y] == h0[y2]);
                    assert(p[x] == p0[x2] && p[y] == p0[y2]);
                }
                assert forall|y: int| j - 1 < y <= i implies heap@[j - 1].0 < (#[trigger] heap@[y]).0 by {
                    if y == j {
                        assert(heap@[y] == h0[j - 1]);
                    } else {
                        assert(heap@[y] == h0[y]);
                    }
                }
                assert forall|k: int| 0 <= k <= i && k != j - 1 implies #[trigger] p[k] < i by {
                    let k2 = if k == j { j - 1 } else { k };
                    assert(p[k] == p0[k2]);
                }
            }
            j = j - 1;
        }
        proof {
            assert forall|x: int, y: int| 0 <= x < y < i + 1 implies (#[trigger] heap@[x]).0 <= (#[trigger] heap@[y]).0 by {
                if x == j && y > j {
                } else if y == j && x < j {
                    if x < j - 1 {
                        assert(heap@[x].0 <= heap@[j - 1].0);
                    }
                }
            }
            assert forall|x: int, y: int| 0 <= x < y < i + 1 && (#[trigger] heap@[x]).0 == (#[trigger] heap@[y]).0
                implies p[x] < p[y] by {
                if y == j {
                    assert(p[x] < i);
                }
            }
        }
        i = i + 1;
    }
    proof {
        assert(stably_sorted(heap@, orig, p));
    }
}

/// Give every leaf under `id` a length: its depth, at least 1, at most `max_bits`.
fn walk(tree: &Vec<Node>, id: usize, depth: u8, lengths: &mut Vec<u8>, max_bits: u8)
    requires
        tree_wf(tree@, old(lengths).len() as nat),
        id < tree.len(),
        1 <= max_bits,
    ensures
        final(lengths).len() == old(lengths).len(),
        forall|s: int| 0 <= s < final(lengths).len() ==> if covers(tree@, id as int, s) {
            1 <= final(lengths)[s] <= max_bits
        } else {
            final(lengths)[s] == old(lengths)[s]
        },
    decreases id,
{
    let node = tree[id];
    match node {
        Node::Leaf { sym, .. } => {
            let l = depth.max(1).min(max_bits);
            lengths.set(sym, l);
        },
        Node::Inner { left, right, .. } => {
            let d = depth.saturating_add(1);
            walk(tree, left, d, lengths, max_bits);
            walk(tree, right, d, lengths, max_bits);
        },
    }
}

/// Build Huffman code lengths, at most `max_bits` long, from symbol frequencies.
pub fn build_lengths(freqs: &[u32], max_bits: u8) -> (lengths: Vec<u8>)
    requires
        1 <= max_bits <= 15,
        sum_u32(freqs@) <= u32::MAX,
    ensures
        lengths.len() == freqs.len(),
        forall|i: int| 0 <= i < lengths.len() ==> lengths[i] <= max_bits,
        count_used(freqs@) >= 2 ==> forall|i: int| 0 <= i < lengths.len() ==> (lengths[i] != 0 <==> freqs[i] != 0),
        forall|i: int| 0 <= i < lengths.len() && freqs[i] != 0 ==> lengths[i] != 0,
        count_used(freqs@) == 0 ==> forall|i: int| 0 <= i < lengths.len() ==> lengths[i] == (if i < 2 { 1u8 } else { 0u8 }),
        count_used(freqs@) == 1 ==> forall|i: int| 0 <= i < lengths.len() ==> lengths[i] == (if freqs[i] != 0 || (i == 0 && freqs[0] == 0) || (i == 1 && freqs[0] != 0) { 1u8 } else { 0u8 }),
        count_used(freqs@) <= pow2(max_bits as nat) ==> kraft_sum(lengths@, max_bits as nat) <= pow2(max_bits as nat),
{
    let n = freqs.len();
    let ghost fs = freqs@;
    let mut nodes: Vec<(u32, usize)> = Vec::new();
    let ghost mut owner: Seq<int> = Seq::new(n as nat, |s: int| 0int);
    let mut i: usize = 0;
    while i < n
        invariant
            n == freqs.len(),
            fs == freqs@,
            i <= n,
            owner.len() == n,
            nodes.len() == count_used(fs.take(i as int)),
            nodes.len() <= i,
            heap_sum(nodes@) == sum_u32(fs.take(i as int)),
            forall|k: int| 0 <= k < nodes.len() ==> (#[trigger] nodes[k]).1 < i && nodes[k].0 == fs[nodes[k].1 as int] && nodes[k].0 != 0,
            forall|s: int| 0 <= s < i && fs[s] != 0 ==> 0 <= #[trigger] owner[s] < nodes.len() && nodes[owner[s]].1 == s,
        decreases n - i,
    {
        let f = freqs[i];
        proof {
            assert(fs.take(i + 1).drop_last() =~= fs.take(i as int));
        }
        if f > 0 {
            proof {
                lemma_heap_sum_push(nodes@, (f, i));
                owner = owner.update(i as int, nodes.len() as int);
            }
            nodes.push((f, i));
        }
        i = i + 1;
    }
    proof {
        assert(fs.take(n as int) =~= fs);
    }
    if nodes.len() == 0 {
        let mut lengths: Vec<u8> = vec![0u8; n];
        proof {
            lemma_count_nonzero_zeros(n as nat);
            assert(lengths@ =~= Seq::new(n as nat, |i: int| 0u8));
        }
        if n > 0 {
            proof {
                lemma_update_counts(lengths@, 0, 1, max_bits as nat);
            }
            lengths.set(0, 1);
        }
        if n > 1 {
            proof {
                lemma_update_counts(lengths@, 1, 1, max_bits as nat);
            }
            lengths.set(1, 1);
        }
        proof {
            lemma_small_kraft(lengths@, max_bits as nat);
            assert forall|j: int| 0 <= j < n implies fs[j] == 0 by {
                if fs[j] != 0 {
                    assert(owner[j] < nodes.len());
                }
            }
        }
        return lengths;
    }
    if nodes.len() == 1 {
        let sym = nodes[0].1;
        let mut lengths: Vec<u8> = vec![0u8; n];
        proof {
            lemma_count_nonzero_zeros(n as nat);
            assert(lengths@ =~= Seq::new(n as nat, |i: int| 0u8));
            lemma_update_counts(lengths@, sym as int, 1, max_bits as nat);
            assert forall|j: int| 0 <= j < n && fs[j] != 0 implies j == sym by {
                assert(owner[j] == 0);
            }
        }
        lengths.set(sym, 1);
        let other = if sym == 0 {
            1usize.min(n - 1)
        } else {
            0
        };
        if n > 1 {
            proof {
                lemma_update_counts(lengths@, other as int, 1, max_bits as nat);
            }
            lengths.set(other, 1);
        }
        proof {
            lemma_small_kraft(lengths@, max_bits as nat);
        }
        return lengths;
    }
    let mut tree: Vec<Node> = Vec::new();
    let mut heap: Vec<(u32, usize)> = Vec::new();
    let mut k: usize = 0;
    while k < nodes.len()
        invariant
            n == freqs.len(),
            fs == freqs@,
            k <= nodes.len(),
            tree.len() == k,
            heap.len() == k,
            forall|q: int| 0 <= q < nodes.len() ==> (#[trigger] nodes[q]).1 < n && nodes[q].0 == fs[nodes[q].1 as int] && nodes[q].0 != 0,
            forall|q: int| 0 <= q < k ==> (#[trigger] heap[q]) == (nodes[q].0, q as usize) && tree[q] == (Node::Leaf { freq: nodes[q].0, sym: nodes[q].1 }),
            heap_sum(heap@) == heap_sum(nodes@.take(k as int)),
        decreases nodes.len() - k,
    {
        let (f, s) = nodes[k];
        proof {
            lemma_heap_sum_push(heap@, (f, k));
            lemma_heap_sum_take(nodes@, k as int);
        }
        tree.push(Node::Leaf { freq: f, sym: s });
        heap.push((f, k));
        k = k + 1;
    }
    proof {
        assert(nodes@.take(nodes.len() as int) =~= nodes@);
        assert forall|s: int| 0 <= s < n && fs[s] != 0 implies in_heap(heap@, owner[s]) && covers(tree@, owner[s], s) by {
            assert(heap@[owner[s]].1 == owner[s]);
        }
        assert forall|a: int, b: int| 0 <= a < b < heap@.len() implies (#[trigger] heap@[a]).1 != (#[trigger] heap@[b]).1 by {}
        assert forall|q: int| 0 <= q < tree@.len() implies match #[trigger] tree@[q] {
            Node::Leaf { sym, .. } => sym < n,
            Node::Inner { left, right, .. } => left < q && right < q,
        } by {
            assert(heap@[q] == (nodes@[q].0, q as usize));
            assert(tree@[q] == (Node::Leaf { freq: nodes@[q].0, sym: nodes@[q].1 }));
        }
        assert forall|q: int| 0 <= q < tree@.len() implies leaf_used(#[trigger] tree@[q], fs) by {
            assert(heap@[q] == (nodes@[q].0, q as usize));
            assert(tree@[q] == (Node::Leaf { freq: nodes@[q].0, sym: nodes@[q].1 }));
        }
    }
    while heap.len() > 1
        invariant
            n == freqs.len(),
            fs == freqs@,
            1 <= max_bits <= 15,
            sum_u32(fs) <= u32::MAX,
            heap.len() >= 1,
            tree_wf(tree@, n as nat),
            leaves_used(tree@, fs),
            heap_ok(heap@, tree@),
            heap_sum(heap@) == sum_u32(fs),
            owner.len() == n,
            forall|s: int| 0 <= s < n && fs[s] != 0 ==> in_heap(heap@, #[trigger] owner[s]) && covers(tree@, owner[s], s),
        decreases heap.len(),
    {
        sort_by_freq(&mut heap, Ghost(tree@));
        let ghost h0 = heap@;
        let (_, a) = heap.remove(0);
        let (_, b) = heap.remove(0);
        proof {
            assert(h0.remove(0) =~= h0.drop_first());
            assert(h0.drop_first().remove(0) =~= h0.drop_first().drop_first());
            lemma_heap_sum_nonneg(heap@);
            assert(h0[0].1 == a && h0[1].1 == b);
            assert(heap_sum(h0) == h0[0].0 + heap_sum(h0.drop_first()));
            assert(heap_sum(h0.drop_first()) == h0.drop_first()[0].0 + heap_sum(h0.drop_first().drop_first()));
            assert(heap@ =~= h0.drop_first().drop_first());
            assert(h0[0].0 == node_freq(tree@[a as int]));
            assert(h0[1].0 == node_freq(tree@[b as int]));
        }
        let f = freq_of(&tree[a]) + freq_of(&tree[b]);
        let id = tree.len();
        let ghost t0 = tree@;
        let ghost own0 = owner;
        let ghost h1 = heap@;
        tree.push(Node::Inner { freq: f, left: a, right: b });
        heap.push((f, id));
        proof {
            lemma_heap_sum_push(h1, (f, id));
            owner = Seq::new(n as nat, |s: int| if own0[s] == a || own0[s] == b { id as int } else { own0[s] });
            assert forall|s: int| 0 <= s < n && fs[s] != 0 implies in_heap(heap@, #[trigger] owner[s]) && covers(tree@, owner[s], s) by {
                assert(in_heap(h0, own0[s]));
                let q = choose|q: int| 0 <= q < h0.len() && #[trigger] h0[q].1 == own0[s];
                if own0[s] == a || own0[s] == b {
                    assert(heap@[heap@.len() - 1].1 == id);
                    lemma_covers_push(t0, Node::Inner { freq: f, left: a, right: b }, a as int, s);
                    lemma_covers_push(t0, Node::Inner { freq: f, left: a, right: b }, b as int, s);
                } else {
                    assert(q >= 2);
                    assert(heap@[q - 2] == h0[q]);
                    lemma_covers_push(t0, Node::Inner { freq: f, left: a, right: b }, own0[s], s);
                }
            }
            assert forall|x: int, y: int| 0 <= x < y < heap@.len() implies (#[trigger] heap@[x]).1 != (#[trigger] heap@[y]).1 by {
                if y == heap@.len() - 1 {
                    assert(heap@[x] == h0[x + 2]);
                } else {
                    assert(heap@[x] == h0[x + 2]);
                    assert(heap@[y] == h0[y + 2]);
                }
            }
            assert forall|q: int| 0 <= q < heap@.len() implies (#[trigger] heap@[q]).1 < tree@.len() && heap@[q].0 == node_freq(tree@[heap@[q].1 as int]) by {
                if q < heap@.len() - 1 {
                    assert(heap@[q] == h0[q + 2]);
                }
            }
            assert forall|q: int| 0 <= q < tree@.len() implies match #[trigger] tree@[q] {
                Node::Leaf { sym, .. } => sym < n,
                Node::Inner { left, right, .. } => left < q && right < q,
            } by {
                if q < t0.len() {
                    assert(tree@[q] == t0[q]);
                }
            }
            assert forall|q: int| 0 <= q < tree@.len() implies leaf_used(#[trigger] tree@[q], fs) by {
                if q < t0.len() {
                    assert(tree@[q] == t0[q]);
                }
            }
        }
    }
    let root = heap[0].1;
    proof {
        assert forall|s: int| 0 <= s < n && fs[s] != 0 implies covers(tree@, root as int, s) by {
            let q = choose|q: int| 0 <= q < heap@.len() && #[trigger] heap@[q].1 == owner[s];
            assert(q == 0);
        }
    }
    let mut lengths: Vec<u8> = vec![0u8; n];
    walk(&tree, root, 0, &mut lengths, max_bits);
    proof {
        assert forall|s: int| 0 <= s < n && covers(tree@, root as int, s) implies fs[s] != 0 by {
            lemma_covers_used(tree@, fs, root as int, s);
        }
        lemma_count_nonzero_bound(lengths@);
        assert forall|q: int| 0 <= q < n implies (lengths@[q] != 0 <==> #[trigger] fs[q] != 0) by {
            if fs[q] != 0 {
                let qq = choose|qq: int| 0 <= qq < heap@.len() && #[trigger] heap@[qq].1 == owner[q];
                assert(covers(tree@, root as int, q));
            }
            if covers(tree@, root as int, q) {
                lemma_covers_used(tree@, fs, root as int, q);
            }
        }
        lemma_count_match(lengths@, fs);
    }
    limit_lengths(&mut lengths, max_bits);
    lengths
}

/// No more symbols are used than the table has.
pub proof fn lemma_count_used_bound(s: Seq<u32>)
    ensures
        count_used(s) <= s.len(),
    decreases s.len(),
{
    if s.len() > 0 {
        lemma_count_used_bound(s.drop_last());
    }
}

proof fn lemma_count_match(a: Seq<u8>, b: Seq<u32>)
    requires
        a.len() == b.len(),
        forall|q: int| 0 <= q < a.len() ==> (a[q] != 0 <==> #[trigger] b[q] != 0),
    ensures
        count_nonzero(a) == count_used(b),
    decreases a.len(),
{
    if a.len() > 0 {
        lemma_count_match(a.drop_last(), b.drop_last());
    }
}

spec fn leaf_used(node: Node, fs: Seq<u32>) -> bool {
    match node {
        Node::Leaf { sym, .. } => 0 <= sym < fs.len() && fs[sym as int] != 0,
        Node::Inner { .. } => true,
    }
}

spec fn leaves_used(tree: Seq<Node>, fs: Seq<u32>) -> bool {
    forall|q: int| 0 <= q < tree.len() ==> leaf_used(#[trigger] tree[q], fs)
}

proof fn lemma_covers_used(tree: Seq<Node>, fs: Seq<u32>, id: int, s: int)
    requires
        leaves_used(tree, fs),
        covers(tree, id, s),
    ensures
        0 <= s < fs.len(),
        fs[s] != 0,
    decreases id,
{
    assert(leaf_used(tree[id], fs));
    match tree[id] {
        Node::Leaf { .. } => {},
        Node::Inner { left, right, .. } => {
            if left < id && covers(tree, left as int, s) {
                lemma_covers_used(tree, fs, left as int, s);
            } else {
                lemma_covers_used(tree, fs, right as int, s);
            }
        },
    }
}

proof fn lemma_heap_sum_nonneg(h: Seq<(u32, usize)>)
    ensures
        heap_sum(h) >= 0,
    decreases h.len(),
{
    if h.len() > 0 {
        lemma_heap_sum_nonneg(h.drop_first());
    }
}

proof fn lemma_heap_sum_take(h: Seq<(u32, usize)>, k: int)
    requires
        0 <= k < h.len(),
    ensures
        heap_sum(h.take(k + 1)) == heap_sum(h.take(k)) + h[k].0,
{
    lemma_heap_sum_push(h.take(k), h[k]);
    assert(h.take(k + 1) =~= h.take(k).push(h[k]));
}

proof fn lemma_count_nonzero_zeros(n: nat)
    ensures
        count_nonzero(Seq::new(n, |i: int| 0u8)) == 0,
    decreases n,
{
    if n > 0 {
        assert(Seq::new(n, |i: int| 0u8).drop_last() =~= Seq::new((n - 1) as nat, |i: int| 0u8));
        lemma_count_nonzero_zeros((n - 1) as nat);
    }
}

proof fn lemma_ones_kraft(s: Seq<u8>, max: nat)
    requires
        1 <= max,
        forall|i: int| 0 <= i < s.len() ==> s[i] == 0 || s[i] == 1,
    ensures
        kraft_sum(s, max) == count_nonzero(s) * pow2((max - 1) as nat),
    decreases s.len(),
{
    if s.len() > 0 {
        lemma_ones_kraft(s.drop_last(), max);
        let p = pow2((max - 1) as nat);
        let c = count_nonzero(s.drop_last());
        assert(c * p + p == (c + 1) * p) by (nonlinear_arith);
        if s.last() == 1 {
            assert(kraft_sum(s, max) == kraft_sum(s.drop_last(), max) + p);
            assert(count_nonzero(s) == c + 1);
        } else {
            assert(kraft_sum(s, max) == kraft_sum(s.drop_last(), max));
            assert(count_nonzero(s) == c);
        }
    } else {
        let p = pow2((max - 1) as nat);
        assert(0 * p == 0) by (nonlinear_arith);
    }
}

proof fn lemma_small_kraft(s: Seq<u8>, max: nat)
    requires
        1 <= max,
        forall|i: int| 0 <= i < s.len() ==> s[i] == 0 || s[i] == 1,
        count_nonzero(s) <= 2,
    ensures
        kraft_sum(s, max) <= pow2(max),
{
    lemma_ones_kraft(s, max);
    lemma_pow2_unfold(max);
    let p = pow2((max - 1) as nat);
    let c = count_nonzero(s);
    assert(c * p <= 2 * p) by (nonlinear_arith)
        requires
            c <= 2,
            p >= 0,
    ;
}

} // verus!
