//! Hash-chain match finder and optimal parse over longest-match candidates.

use vstd::prelude::*;
use vstd::arithmetic::power2::{pow2, lemma2_to64};

verus! {

pub const MIN_MATCH: usize = 3;
pub const MAX_MATCH: usize = 258;
pub const WINDOW: usize = 32768;

/// One LZ77 step: a byte, or a copy of `length` bytes from `distance` back.
#[derive(Clone, Copy, Debug, PartialEq, Eq)]
pub enum Token {
    Literal(u8),
    Match { length: u16, distance: u16 },
}

/// Bytes a token stands for.
pub open spec fn token_len(t: Token) -> int {
    match t {
        Token::Literal(_) => 1,
        Token::Match { length, .. } => length as int,
    }
}

/// `data[pos..pos + length]` repeats the bytes `distance` back, within DEFLATE's limits.
pub open spec fn match_ok(data: Seq<u8>, pos: int, length: int, distance: int) -> bool {
    &&& 3 <= length <= 258
    &&& 1 <= distance <= 32768
    &&& distance <= pos
    &&& pos + length <= data.len()
    &&& forall|k: int| 0 <= k < length ==> #[trigger] data[pos + k] == data[pos + k - distance]
}

/// The token says what `data` holds at `pos`.
pub open spec fn token_ok(data: Seq<u8>, pos: int, t: Token) -> bool {
    match t {
        Token::Literal(b) => 0 <= pos < data.len() && data[pos] == b,
        Token::Match { length, distance } => match_ok(data, pos, length as int, distance as int),
    }
}

/// The tokens, one after another, describe `data[from..to]`.
pub open spec fn valid_span(data: Seq<u8>, toks: Seq<Token>, from: int, to: int) -> bool
    decreases toks.len(),
{
    if toks.len() == 0 {
        from == to
    } else {
        let t = toks.last();
        let s = to - token_len(t);
        from <= s && token_ok(data, s, t) && valid_span(data, toks.drop_last(), from, s)
    }
}

/// The tokens describe all of `data`.
pub open spec fn parses(data: Seq<u8>, toks: Seq<Token>) -> bool {
    valid_span(data, toks, 0, data.len() as int)
}

/// A decoder's copy: `n` bytes, each taken `d` back from the end of what is out so far.
pub open spec fn copy_back(out: Seq<u8>, d: int, n: nat) -> Seq<u8>
    decreases n,
{
    if n == 0 {
        out
    } else {
        let o = copy_back(out, d, (n - 1) as nat);
        o.push(o[o.len() - d])
    }
}

/// What a decoder appends for one token.
pub open spec fn apply_token(out: Seq<u8>, t: Token) -> Seq<u8> {
    match t {
        Token::Literal(b) => out.push(b),
        Token::Match { length, distance } => copy_back(out, distance as int, length as nat),
    }
}

/// What a decoder rebuilds from the tokens.
pub open spec fn inflate_tokens(toks: Seq<Token>) -> Seq<u8>
    decreases toks.len(),
{
    if toks.len() == 0 {
        Seq::empty()
    } else {
        apply_token(inflate_tokens(toks.drop_last()), toks.last())
    }
}

proof fn lemma_copy_back(data: Seq<u8>, pos: int, length: int, distance: int, k: nat)
    requires
        match_ok(data, pos, length, distance),
        k <= length,
    ensures
        copy_back(data.take(pos), distance, k) == data.take(pos + k),
    decreases k,
{
    if k > 0 {
        lemma_copy_back(data, pos, length, distance, (k - 1) as nat);
        let o = data.take(pos + k - 1);
        assert(data[pos + (k - 1)] == data[pos + (k - 1) - distance]);
        assert(o.push(o[o.len() - distance]) =~= data.take(pos + k));
    } else {
        assert(data.take(pos) =~= data.take(pos + 0));
    }
}

proof fn lemma_inflate_span(data: Seq<u8>, toks: Seq<Token>, to: int)
    requires
        valid_span(data, toks, 0, to),
    ensures
        inflate_tokens(toks) == data.take(to),
    decreases toks.len(),
{
    if toks.len() == 0 {
        assert(data.take(0) =~= Seq::<u8>::empty());
    } else {
        let t = toks.last();
        let s = to - token_len(t);
        lemma_inflate_span(data, toks.drop_last(), s);
        match t {
            Token::Literal(b) => {
                assert(data.take(s).push(b) =~= data.take(to));
            },
            Token::Match { length, distance } => {
                lemma_copy_back(data, s, length as int, distance as int, length as nat);
            },
        }
    }
}

/// Replaying a parse gives the data back: what a decoder rebuilds from the tokens is the input.
pub proof fn lemma_parse_inflates(data: Seq<u8>, toks: Seq<Token>)
    requires
        parses(data, toks),
    ensures
        inflate_tokens(toks) == data,
{
    lemma_inflate_span(data, toks, data.len() as int);
    assert(data.take(data.len() as int) =~= data);
}

proof fn lemma_span_push(data: Seq<u8>, toks: Seq<Token>, from: int, to: int, t: Token)
    requires
        valid_span(data, toks, from, to),
        token_ok(data, to, t),
    ensures
        valid_span(data, toks.push(t), from, to + token_len(t)),
{
    assert(toks.push(t).drop_last() =~= toks);
}

proof fn lemma_span_prepend(data: Seq<u8>, toks: Seq<Token>, p: int, to: int, t: Token)
    requires
        token_ok(data, p, t),
        token_len(t) >= 1,
        valid_span(data, toks, p + token_len(t), to),
    ensures
        valid_span(data, seq![t] + toks, p, to),
    decreases toks.len(),
{
    if toks.len() == 0 {
        assert(seq![t] + toks =~= seq![t]);
        assert(seq![t].drop_last() =~= Seq::<Token>::empty());
        assert(seq![t].last() == t);
        assert(valid_span(data, Seq::<Token>::empty(), p, p));
        assert(valid_span(data, seq![t], p, to));
    } else {
        let last = toks.last();
        let s = to - token_len(last);
        lemma_span_prepend(data, toks.drop_last(), p, s, t);
        assert((seq![t] + toks).drop_last() =~= seq![t] + toks.drop_last());
        assert((seq![t] + toks).last() == last);
    }
}

/// The longest match found at a position: its length and distance.
#[derive(Clone, Copy)]
pub struct MatchCand {
    pub length: u16,
    pub distance: u16,
}

/// Every candidate is a real match at its position.
pub open spec fn cands_ok(data: Seq<u8>, longest: Seq<Option<MatchCand>>) -> bool {
    &&& longest.len() == data.len()
    &&& forall|i: int|
        0 <= i < longest.len() && (#[trigger] longest[i]) is Some ==> match_ok(
            data,
            i,
            longest[i]->0.length as int,
            longest[i]->0.distance as int,
        )
}

const HASH_BITS: u32 = 15;
const HASH_SIZE: usize = 32768;
const MAX_CHAIN: usize = 64;

/// The tokens `parse` gives for `data`: a parse of it, empty only for empty input, and for
/// inputs of at most 16 KiB a cheapest one among those that the match candidates allow.
pub open spec fn chosen_parse(data: Seq<u8>, toks: Seq<Token>) -> bool {
    &&& parses(data, toks)
    &&& (toks.len() == 0 <==> data.len() == 0)
    &&& data.len() <= 16 * 1024 ==> exists|longest: Seq<Option<MatchCand>>|
        cands_ok(data, longest) && #[trigger] least_cost(data, longest, toks)
}

/// Split `data` into literals and matches.
pub fn parse(data: &[u8]) -> (tokens: Vec<Token>)
    requires
        data.len() < 0x8000_0000,
    ensures
        chosen_parse(data@, tokens@),
{
    if data.len() == 0 {
        let none: Vec<Token> = Vec::new();
        proof {
            let e = Seq::<Option<MatchCand>>::empty();
            assert forall|t: Seq<Token>| #[trigger] allowed_span(data@, e, t, 0, 0)
                implies tokens_cost(none@) <= tokens_cost(t) by {
                if t.len() > 0 {
                    assert(token_ok(data@, 0 - token_len(t.last()), t.last()));
                }
            }
            assert(cands_ok(data@, e));
            assert(least_cost(data@, e, none@));
        }
        return none;
    }
    let longest = find_longest_matches(data);
    if data.len() > 16 * 1024 {
        greedy_parse(data, &longest)
    } else {
        optimal_parse(data, &longest)
    }
}

fn find_longest_matches(data: &[u8]) -> (out: Vec<Option<MatchCand>>)
    requires
        data.len() < 0x8000_0000,
    ensures
        cands_ok(data@, out@),
{
    let n = data.len();
    let mut out: Vec<Option<MatchCand>> = Vec::new();
    let mut z: usize = 0;
    while z < n
        invariant
            z <= n,
            out.len() == z,
            forall|j: int| 0 <= j < z ==> out[j] is None,
        decreases n - z,
    {
        out.push(None);
        z = z + 1;
    }
    if n < MIN_MATCH {
        return out;
    }
    let mut head: Vec<i32> = vec![-1i32; HASH_SIZE];
    let mut prev: Vec<i32> = vec![-1i32; n];
    let end = n.saturating_sub(MIN_MATCH - 1);
    let mut i: usize = 0;
    while i < end
        invariant
            n == data.len(),
            n < 0x8000_0000,
            end == n - 2,
            i <= end,
            out.len() == n,
            head.len() == HASH_SIZE,
            prev.len() == n,
            forall|h: int| 0 <= h < HASH_SIZE ==> -1 <= #[trigger] head[h] < i,
            forall|q: int| 0 <= q < n ==> -1 <= #[trigger] prev[q] < q,
            cands_ok(data@, out@),
        decreases end - i,
    {
        let h = hash3(data, i);
        let mut p = head[h];
        prev.set(i, p);
        head.set(h, i as i32);
        let mut best_len: u16 = 0;
        let mut best_dist: u16 = 0;
        let mut chain: usize = 0;
        let chain_limit = if n > 64 * 1024 {
            16
        } else {
            MAX_CHAIN
        };
        while p >= 0 && chain < chain_limit
            invariant
                n == data.len(),
                i + 2 < n,
                prev.len() == n,
                forall|q: int| 0 <= q < n ==> -1 <= #[trigger] prev[q] < q,
                -1 <= p < i,
                best_len == 0 || (best_len >= 3 && match_ok(data@, i as int, best_len as int, best_dist as int)),
            decreases chain_limit - chain,
        {
            let pos = p as usize;
            if i - pos > WINDOW {
                break;
            }
            let dist = (i - pos) as u16;
            let len = match_len(data, pos, i);
            proof {
                assert forall|k: int| 0 <= k < len implies #[trigger] data@[i + k] == data@[i + k - dist] by {
                    assert(data@[pos + k] == data@[i + k]);
                }
            }
            if len >= MIN_MATCH as u16 && len > best_len {
                best_len = len;
                best_dist = dist;
                if best_len as usize == MAX_MATCH {
                    break;
                }
            }
            p = prev[pos];
            chain = chain + 1;
        }
        if best_len >= MIN_MATCH as u16 {
            out.set(i, Some(MatchCand { length: best_len, distance: best_dist }));
        }
        i = i + 1;
    }
    out
}

/// The hash of three bytes: their little-endian value times 0x1E35A7BD, modulo 2^32, keeping
/// the top 15 bits.
pub open spec fn hash3_spec(a: u8, b: u8, c: u8) -> int {
    ((a + 256 * b + 65536 * c) * 0x1E35_A7BD) % 0x1_0000_0000 / 0x2_0000
}

/// Hash of the three bytes at `i`.
fn hash3(data: &[u8], i: usize) -> (h: usize)
    requires
        i + 2 < data.len(),
    ensures
        h < HASH_SIZE,
        h == hash3_spec(data[i as int], data[i + 1], data[i + 2]),
{
    let a = data[i];
    let b = data[i + 1];
    let c = data[i + 2];
    let v = (a as u32) | ((b as u32) << 8) | ((c as u32) << 16);
    assert(v == a as u32 + 256 * (b as u32) + 65536 * (c as u32)) by (bit_vector)
        requires
            v == (a as u32) | ((b as u32) << 8) | ((c as u32) << 16),
    ;
    let x = v.wrapping_mul(0x1E35_A7BD);
    proof {
        vstd::bits::lemma_u32_shr_is_div(x, 17);
        lemma2_to64();
    }
    (x >> (32 - HASH_BITS)) as usize
}

/// Length of the common run at `a` and `b`, at most 258 and not past the end.
fn match_len(data: &[u8], a: usize, b: usize) -> (n: u16)
    requires
        a < b < data.len(),
    ensures
        n <= MAX_MATCH,
        b + n <= data.len(),
        forall|k: int| 0 <= k < n ==> #[trigger] data[a + k] == data[b + k],
        n < MAX_MATCH && b + n < data.len() ==> data[a + n as int] != data[b + n as int],
{
    let max = if data.len() - b < MAX_MATCH {
        data.len() - b
    } else {
        MAX_MATCH
    };
    let mut n: usize = 0;
    while n < max && data[a + n] == data[b + n]
        invariant
            a < b < data.len(),
            max <= MAX_MATCH,
            max == data.len() - b || max == MAX_MATCH,
            b + max <= data.len(),
            n <= max,
            forall|k: int| 0 <= k < n ==> #[trigger] data[a + k] == data[b + k],
        decreases max - n,
    {
        n = n + 1;
    }
    n as u16
}

fn greedy_parse(data: &[u8], longest: &Vec<Option<MatchCand>>) -> (tokens: Vec<Token>)
    requires
        cands_ok(data@, longest@),
    ensures
        parses(data@, tokens@),
{
    let n = data.len();
    let mut tokens: Vec<Token> = Vec::new();
    let mut i: usize = 0;
    while i < n
        invariant
            n == data.len(),
            cands_ok(data@, longest@),
            i <= n,
            valid_span(data@, tokens@, 0, i as int),
        decreases n - i,
    {
        if let Some(m) = longest[i] {
            let take = if i + 1 < n {
                match longest[i + 1] {
                    Some(next) => !(next.length > m.length),
                    None => true,
                }
            } else {
                true
            };
            if take && m.length >= MIN_MATCH as u16 {
                let t = Token::Match { length: m.length, distance: m.distance };
                proof {
                    assert(longest@[i as int] is Some);
                    lemma_span_push(data@, tokens@, 0, i as int, t);
                }
                tokens.push(t);
                i = i + m.length as usize;
                continue;
            }
        }
        let t = Token::Literal(data[i]);
        proof {
            lemma_span_push(data@, tokens@, 0, i as int, t);
        }
        tokens.push(t);
        i = i + 1;
    }
    tokens
}

const CANDS: [usize; 8] = [3, 4, 5, 8, 16, 32, 64, 128];

/// The candidate sizes the optimal parse tries.
pub open spec fn cand_sizes() -> Seq<usize> {
    seq![3usize, 4, 5, 8, 16, 32, 64, 128]
}

/// The first `k` candidate sizes that are below `max_len`, in order.
pub open spec fn cands_below(max_len: usize, k: int) -> Seq<usize>
    decreases k,
{
    if k <= 0 {
        Seq::empty()
    } else if cand_sizes()[k - 1] < max_len {
        cands_below(max_len, k - 1).push(cand_sizes()[k - 1])
    } else {
        cands_below(max_len, k - 1)
    }
}

/// Match lengths the optimal parse tries: the candidate sizes below `max_len`, then `max_len`.
fn interesting_lengths(max_len: usize) -> (out: Vec<usize>)
    requires
        max_len >= 3,
    ensures
        forall|k: int| 0 <= k < out.len() ==> 3 <= #[trigger] out[k] <= max_len,
        out@ == cands_below(max_len, 8).push(max_len),
{
    proof {
        assert(CANDS@ =~= cand_sizes());
    }
    let mut out: Vec<usize> = Vec::new();
    let mut k: usize = 0;
    while k < 8
        invariant
            k <= 8,
            max_len >= 3,
            CANDS@ == cand_sizes(),
            forall|q: int| 0 <= q < out.len() ==> 3 <= #[trigger] out[q] <= max_len,
            out@ == cands_below(max_len, k as int),
        decreases 8 - k,
    {
        let l = CANDS[k];
        if l < max_len {
            out.push(l);
        }
        k = k + 1;
    }
    out.push(max_len);
    out
}

/// Cost in bits of a literal under the fixed code.
fn literal_bits(b: u8) -> (r: u32)
    ensures
        r == 8 || r == 9,
        r == (if b <= 143 { 8u32 } else { 9u32 }),
{
    if b <= 143 {
        8
    } else {
        9
    }
}

/// Bits a match costs under the fixed code: 7 or 8 for the length symbol (8 from symbol 280
/// on), its extra bits, 5 for the distance symbol, and its extra bits.
pub open spec fn match_bits_spec(length: int, distance: int) -> int {
    let ls = length_symbol(length);
    (if ls <= 279 { 7int } else { 8int }) + length_extra_spec(ls) + 5 + distance_extra_spec(distance_symbol(distance))
}

/// Cost in bits of a match under the fixed code.
fn match_bits(length: u16, distance: u16) -> (r: u32)
    requires
        3 <= length <= 258,
        1 <= distance <= 32768,
    ensures
        r <= 31,
        r == match_bits_spec(length as int, distance as int),
{
    let (len_code, extra_l) = length_code(length);
    let (_dist_code, extra_d) = distance_code(distance);
    let len_bits = if len_code <= 279 {
        7
    } else {
        8
    };
    len_bits + extra_l + 5 + extra_d
}

/// Bits a token costs under the fixed code.
pub open spec fn token_cost(t: Token) -> int {
    match t {
        Token::Literal(b) => if b <= 143 { 8int } else { 9int },
        Token::Match { length, distance } => match_bits_spec(length as int, distance as int),
    }
}

/// Bits the tokens cost under the fixed code.
pub open spec fn tokens_cost(toks: Seq<Token>) -> int
    decreases toks.len(),
{
    if toks.len() == 0 {
        0
    } else {
        tokens_cost(toks.drop_last()) + token_cost(toks.last())
    }
}

/// The match lengths tried at a position whose longest match has length `max_len`.
pub open spec fn tried_lengths(max_len: u16) -> Seq<usize> {
    cands_below(max_len as usize, 8).push(max_len as usize)
}

/// A token the optimal parse may take at `pos`: any literal, or a match at the distance of
/// the candidate there whose length is one of the tried lengths.
pub open spec fn token_allowed(longest: Seq<Option<MatchCand>>, pos: int, t: Token) -> bool {
    match t {
        Token::Literal(_) => true,
        Token::Match { length, distance } => 0 <= pos < longest.len() && longest[pos] is Some
            && distance == longest[pos]->0.distance && tried_lengths(longest[pos]->0.length).contains(
            length as usize),
    }
}

/// Like `valid_span`, with every token allowed by the candidates.
pub open spec fn allowed_span(data: Seq<u8>, longest: Seq<Option<MatchCand>>, toks: Seq<Token>, from: int, to: int) -> bool
    decreases toks.len(),
{
    if toks.len() == 0 {
        from == to
    } else {
        let t = toks.last();
        let s = to - token_len(t);
        from <= s && token_ok(data, s, t) && token_allowed(longest, s, t) && allowed_span(
            data,
            longest,
            toks.drop_last(),
            from,
            s,
        )
    }
}

/// `toks` is a parse of all of `data` by allowed tokens, and no such parse costs fewer bits.
pub open spec fn least_cost(data: Seq<u8>, longest: Seq<Option<MatchCand>>, toks: Seq<Token>) -> bool {
    &&& allowed_span(data, longest, toks, 0, data.len() as int)
    &&& forall|t: Seq<Token>| #[trigger] allowed_span(data, longest, t, 0, data.len() as int)
        ==> tokens_cost(toks) <= tokens_cost(t)
}

proof fn lemma_allowed_valid(data: Seq<u8>, longest: Seq<Option<MatchCand>>, toks: Seq<Token>, from: int, to: int)
    requires
        allowed_span(data, longest, toks, from, to),
    ensures
        valid_span(data, toks, from, to),
    decreases toks.len(),
{
    if toks.len() > 0 {
        lemma_allowed_valid(data, longest, toks.drop_last(), from, to - token_len(toks.last()));
    }
}

proof fn lemma_allowed_prepend(data: Seq<u8>, longest: Seq<Option<MatchCand>>, toks: Seq<Token>, p: int, to: int, t: Token)
    requires
        token_ok(data, p, t),
        token_allowed(longest, p, t),
        token_len(t) >= 1,
        allowed_span(data, longest, toks, p + token_len(t), to),
    ensures
        allowed_span(data, longest, seq![t] + toks, p, to),
        tokens_cost(seq![t] + toks) == token_cost(t) + tokens_cost(toks),
    decreases toks.len(),
{
    if toks.len() == 0 {
        assert(seq![t] + toks =~= seq![t]);
        assert(seq![t].drop_last() =~= Seq::<Token>::empty());
        assert(seq![t].last() == t);
        assert(allowed_span(data, longest, Seq::<Token>::empty(), p, p));
        assert(tokens_cost(Seq::<Token>::empty()) == 0);
    } else {
        let last = toks.last();
        let s = to - token_len(last);
        lemma_allowed_prepend(data, longest, toks.drop_last(), p, s, t);
        assert((seq![t] + toks).drop_last() =~= seq![t] + toks.drop_last());
        assert((seq![t] + toks).last() == last);
    }
}

/// Every parse by allowed tokens of `data[0..j]` whose last token starts before `i` costs
/// at least `cost[j]`.
spec fn dp_bounded(data: Seq<u8>, longest: Seq<Option<MatchCand>>, cost: Seq<u32>, i: int) -> bool {
    forall|t: Seq<Token>, j: int|
        #![trigger allowed_span(data, longest, t, 0, j)]
        0 <= j < cost.len() && allowed_span(data, longest, t, 0, j) && (t.len() > 0 ==> j - token_len(t.last()) < i)
            ==> cost[j] <= tokens_cost(t)
}

/// Each back-pointer names an allowed token from an earlier position, and the cost at its
/// end is the cost at its start plus the token's.
spec fn dp_linked(data: Seq<u8>, longest: Seq<Option<MatchCand>>, cost: Seq<u32>, prev: Seq<Option<(usize, Token)>>, i: int) -> bool {
    forall|j: int|
        1 <= j < prev.len() && (#[trigger] prev[j]) is Some ==> {
            let (p, t) = prev[j]->0;
            &&& p < j
            &&& p < i
            &&& p + token_len(t) == j
            &&& token_ok(data, p as int, t)
            &&& token_allowed(longest, p as int, t)
            &&& cost[j] == cost[p as int] + token_cost(t)
        }
}

proof fn lemma_link_update(data: Seq<u8>, longest: Seq<Option<MatchCand>>, cost: Seq<u32>,
    prev: Seq<Option<(usize, Token)>>, i1: int, next: int, c: u32, p: usize, t: Token)
    requires
        dp_linked(data, longest, cost, prev, i1),
        cost.len() == prev.len(),
        1 <= next < prev.len(),
        i1 <= next,
        p < i1,
        p + token_len(t) == next,
        token_ok(data, p as int, t),
        token_allowed(longest, p as int, t),
        c == cost[p as int] + token_cost(t),
    ensures
        dp_linked(data, longest, cost.update(next, c), prev.update(next, Some((p, t))), i1),
{
    let cost2 = cost.update(next, c);
    let prev2 = prev.update(next, Some((p, t)));
    assert forall|j: int| 1 <= j < prev2.len() && (#[trigger] prev2[j]) is Some implies {
        let (q, u) = prev2[j]->0;
        &&& q < j
        &&& q < i1
        &&& q + token_len(u) == j
        &&& token_ok(data, q as int, u)
        &&& token_allowed(longest, q as int, u)
        &&& cost2[j] == cost2[q as int] + token_cost(u)
    } by {
        if j != next {
            assert(prev2[j] == prev[j]);
            let (q, u) = prev[j]->0;
            assert(cost2[q as int] == cost[q as int]);
        }
    }
}

proof fn lemma_bounded_step(data: Seq<u8>, longest: Seq<Option<MatchCand>>, cost0: Seq<u32>, cost: Seq<u32>, i: int,
    lens: Seq<usize>)
    requires
        cost.len() == cost0.len() == data.len() + 1,
        longest.len() == data.len(),
        0 <= i < data.len(),
        dp_bounded(data, longest, cost0, i),
        forall|j: int| 0 <= j < cost.len() ==> #[trigger] cost[j] <= cost0[j],
        cost[i] == cost0[i],
        cost[i + 1] <= cost[i] + token_cost(Token::Literal(data[i])),
        longest[i] is Some ==> lens == tried_lengths(longest[i]->0.length),
        longest[i] is Some ==> forall|q: int| 0 <= q < lens.len() && i + lens[q] <= data.len() ==>
            cost[i + #[trigger] lens[q]] <= cost[i] + match_bits_spec(lens[q] as int, longest[i]->0.distance as int),
    ensures
        dp_bounded(data, longest, cost, i + 1),
{
    assert forall|t: Seq<Token>, j: int|
        0 <= j < cost.len() && #[trigger] allowed_span(data, longest, t, 0, j) && (t.len() > 0 ==> j - token_len(t.last()) < i + 1)
        implies cost[j] <= tokens_cost(t) by {
        if t.len() > 0 && j - token_len(t.last()) == i {
            let last = t.last();
            let pre = t.drop_last();
            assert(allowed_span(data, longest, pre, 0, i));
            assert(cost0[i] <= tokens_cost(pre));
            match last {
                Token::Literal(b) => {
                    assert(b == data[i]);
                },
                Token::Match { length, distance } => {
                    let q = choose|q: int| 0 <= q < lens.len() && lens[q] == length as usize;
                    assert(lens[q] == length as usize);
                    assert(cost[i + lens[q]] <= cost[i] + match_bits_spec(lens[q] as int, longest[i]->0.distance as int));
                },
            }
        } else {
            assert(cost0[j] <= tokens_cost(t));
        }
    }
}

/// Forward dynamic program: at each position take a literal or a prefix of the longest match.
/// The result is a cheapest parse among those the candidates allow.
fn optimal_parse(data: &[u8], longest: &Vec<Option<MatchCand>>) -> (tokens: Vec<Token>)
    requires
        cands_ok(data@, longest@),
        data.len() < 0x0100_0000,
    ensures
        parses(data@, tokens@),
        least_cost(data@, longest@, tokens@),
{
    let n = data.len();
    let mut cost: Vec<u32> = vec![u32::MAX / 4; n + 1];
    let mut prev: Vec<Option<(usize, Token)>> = Vec::new();
    let mut z: usize = 0;
    while z < n + 1
        invariant
            n < 0x0100_0000,
            z <= n + 1,
            prev.len() == z,
            forall|j: int| 0 <= j < z ==> prev[j] is None,
        decreases n + 1 - z,
    {
        prev.push(None);
        z = z + 1;
    }
    cost.set(0, 0);
    proof {
        assert forall|t: Seq<Token>, j: int|
            0 <= j < cost@.len() && #[trigger] allowed_span(data@, longest@, t, 0, j) && (t.len() > 0 ==> j - token_len(t.last()) < 0)
            implies cost@[j] <= tokens_cost(t) by {
            if t.len() > 0 {
                assert(allowed_span(data@, longest@, t.drop_last(), 0, j - token_len(t.last())));
                assert(0 <= j - token_len(t.last())) by {
                    lemma_span_from_le(data@, longest@, t.drop_last(), 0, j - token_len(t.last()));
                }
            }
        }
    }
    let mut i: usize = 0;
    while i < n
        invariant
            n == data.len(),
            n < 0x0100_0000,
            cands_ok(data@, longest@),
            i <= n,
            cost.len() == n + 1,
            prev.len() == n + 1,
            cost[0] == 0,
            forall|j: int| 0 <= j <= n ==> #[trigger] cost[j] <= u32::MAX / 4,
            forall|j: int| 0 <= j <= i ==> #[trigger] cost[j] <= 9 * j,
            forall|j: int| 1 <= j <= n && #[trigger] cost[j] < u32::MAX / 4 ==> prev[j] is Some,
            dp_linked(data@, longest@, cost@, prev@, i as int),
            dp_bounded(data@, longest@, cost@, i as int),
        decreases n - i,
    {
        let ghost cost0 = cost@;
        let c = cost[i];
        let lit = Token::Literal(data[i]);
        let lit_c = c + literal_bits(data[i]);
        if lit_c < cost[i + 1] {
            cost.set(i + 1, lit_c);
            prev.set(i + 1, Some((i, lit)));
        }
        let ghost mut lens_g: Seq<usize> = Seq::empty();
        if let Some(m) = longest[i] {
            proof {
                assert(longest@[i as int] is Some);
            }
            let lens = interesting_lengths(m.length as usize);
            proof {
                lens_g = lens@;
                assert(m.length as usize as u16 == m.length);
            }
            let mut k: usize = 0;
            while k < lens.len()
                invariant
                    n == data.len(),
                    i < n,
                    cost.len() == n + 1,
                    prev.len() == n + 1,
                    cost0.len() == n + 1,
                    longest@.len() == n,
                    longest@[i as int] == Some(m),
                    lens@ == tried_lengths(m.length),
                    c == cost[i as int],
                    c == cost0[i as int],
                    c <= 9 * i,
                    cost[0] == 0,
                    match_ok(data@, i as int, m.length as int, m.distance as int),
                    forall|q: int| 0 <= q < lens.len() ==> 3 <= #[trigger] lens[q] <= m.length,
                    forall|j: int| 0 <= j <= n ==> #[trigger] cost[j] <= u32::MAX / 4,
                    forall|j: int| 0 <= j <= i ==> #[trigger] cost[j] <= 9 * j,
                    forall|j: int| 0 <= j <= n ==> #[trigger] cost[j] <= cost0[j],
                    cost[i + 1] <= 9 * (i + 1),
                    cost[i + 1] <= c + token_cost(Token::Literal(data@[i as int])),
                    forall|q: int| 0 <= q < k && i + lens[q] <= n ==>
                        cost[i + #[trigger] lens[q]] <= c + match_bits_spec(lens[q] as int, m.distance as int),
                    forall|j: int| 1 <= j <= n && #[trigger] cost[j] < u32::MAX / 4 ==> prev[j] is Some,
                    dp_linked(data@, longest@, cost@, prev@, i + 1),
                decreases lens.len() - k,
            {
                let len = lens[k];
                let next = i + len;
                if next > n {
                    k = k + 1;
                    continue;
                }
                let tok = Token::Match { length: len as u16, distance: m.distance };
                let mc = c + match_bits(len as u16, m.distance);
                if mc < cost[next] {
                    proof {
                        assert forall|q: int| 0 <= q < len implies #[trigger] data@[i + q] == data@[i + q - m.distance] by {
                            assert(data@[i + q] == data@[i + q - m.distance]);
                        }
                        assert(lens@[k as int] == len);
                        assert(lens@.contains(len));
                        assert(len as u16 as usize == len);
                        assert(tried_lengths(m.length).contains((len as u16) as usize));
                        assert(token_allowed(longest@, i as int, tok));
                    }
                    let ghost cost_b = cost@;
                    let ghost prev_b = prev@;
                    cost.set(next, mc);
                    prev.set(next, Some((i, tok)));
                    proof {
                        lemma_link_update(data@, longest@, cost_b, prev_b, i + 1, next as int, mc, i, tok);
                    }
                }
                k = k + 1;
            }
        }
        proof {
            lemma_bounded_step(data@, longest@, cost0, cost@, i as int, lens_g);
        }
        i = i + 1;
    }
    let mut rev: Vec<Token> = Vec::new();
    proof {
        assert(rev@.reverse() =~= Seq::<Token>::empty());
    }
    let mut i: usize = n;
    while i > 0
        invariant
            n == data.len(),
            n < 0x0100_0000,
            i <= n,
            prev.len() == n + 1,
            cost.len() == n + 1,
            forall|j: int| 0 <= j <= n ==> #[trigger] cost[j] <= 9 * j,
            forall|j: int| 1 <= j <= n && #[trigger] cost[j] < u32::MAX / 4 ==> prev[j] is Some,
            cost[0] == 0,
            dp_linked(data@, longest@, cost@, prev@, n as int),
            dp_bounded(data@, longest@, cost@, n as int),
            allowed_span(data@, longest@, rev@.reverse(), i as int, n as int),
            cost[i as int] + tokens_cost(rev@.reverse()) == cost[n as int],
        decreases i,
    {
        assert(cost[i as int] < u32::MAX / 4);
        let (p, tok) = prev[i].expect("DP reached start");
        proof {
            lemma_allowed_prepend(data@, longest@, rev@.reverse(), p as int, n as int, tok);
            assert(rev@.push(tok).reverse() =~= seq![tok] + rev@.reverse());
        }
        rev.push(tok);
        i = p;
    }
    let mut tokens: Vec<Token> = Vec::new();
    let mut k: usize = rev.len();
    while k > 0
        invariant
            k <= rev.len(),
            tokens@ == rev@.reverse().take((rev.len() - k) as int),
        decreases k,
    {
        k = k - 1;
        proof {
            assert(rev@.reverse().take((rev.len() - k) as int) =~= tokens@.push(rev@[k as int]));
        }
        tokens.push(rev[k]);
    }
    proof {
        assert(rev@.reverse().take(rev.len() as int) =~= rev@.reverse());
        lemma_allowed_valid(data@, longest@, tokens@, 0, n as int);
        assert forall|t: Seq<Token>| #[trigger] allowed_span(data@, longest@, t, 0, n as int)
            implies tokens_cost(tokens@) <= tokens_cost(t) by {
            if t.len() > 0 {
                let last = t.last();
                assert(token_ok(data@, n - token_len(last), last));
                assert(token_len(last) >= 1);
            }
            assert(cost@[n as int] <= tokens_cost(t));
        }
    }
    tokens
}

proof fn lemma_span_from_le(data: Seq<u8>, longest: Seq<Option<MatchCand>>, toks: Seq<Token>, from: int, to: int)
    requires
        allowed_span(data, longest, toks, from, to),
    ensures
        from <= to,
    decreases toks.len(),
{
    if toks.len() > 0 {
        lemma_span_from_le(data, longest, toks.drop_last(), from, to - token_len(toks.last()));
    }
}

} // verus!

verus! {

pub const LENGTH_TABLE: [(u16, u16, u32); 29] = [
    (3, 257, 0),
    (4, 258, 0),
    (5, 259, 0),
    (6, 260, 0),
    (7, 261, 0),
    (8, 262, 0),
    (9, 263, 0),
    (10, 264, 0),
    (11, 265, 1),
    (13, 266, 1),
    (15, 267, 1),
    (17, 268, 1),
    (19, 269, 2),
    (23, 270, 2),
    (27, 271, 2),
    (31, 272, 2),
    (35, 273, 3),
    (43, 274, 3),
    (51, 275, 3),
    (59, 276, 3),
    (67, 277, 4),
    (83, 278, 4),
    (99, 279, 4),
    (115, 280, 4),
    (131, 281, 5),
    (163, 282, 5),
    (195, 283, 5),
    (227, 284, 5),
    (258, 285, 0),
];

pub const LENGTH_BASES: [u16; 29] = [
    3, 4, 5, 6, 7, 8, 9, 10, 11, 13, 15, 17, 19, 23, 27, 31, 35, 43, 51, 59, 67, 83, 99, 115,
    131, 163, 195, 227, 258,
];

pub const LENGTH_EXTRA: [u32; 29] = [
    0, 0, 0, 0, 0, 0, 0, 0, 1, 1, 1, 1, 2, 2, 2, 2, 3, 3, 3, 3, 4, 4, 4, 4, 5, 5, 5, 5, 0,
];

pub const DIST_TABLE: [(u16, u16, u32); 30] = [
    (1, 0, 0),
    (2, 1, 0),
    (3, 2, 0),
    (4, 3, 0),
    (5, 4, 1),
    (7, 5, 1),
    (9, 6, 2),
    (13, 7, 2),
    (17, 8, 3),
    (25, 9, 3),
    (33, 10, 4),
    (49, 11, 4),
    (65, 12, 5),
    (97, 13, 5),
    (129, 14, 6),
    (193, 15, 6),
    (257, 16, 7),
    (385, 17, 7),
    (513, 18, 8),
    (769, 19, 8),
    (1025, 20, 9),
    (1537, 21, 9),
    (2049, 22, 10),
    (3073, 23, 10),
    (4097, 24, 11),
    (6145, 25, 11),
    (8193, 26, 12),
    (12289, 27, 12),
    (16385, 28, 13),
    (24577, 29, 13),
];

pub const DIST_BASES: [u16; 30] = [
    1, 2, 3, 4, 5, 7, 9, 13, 17, 25, 33, 49, 65, 97, 129, 193, 257, 385, 513, 769, 1025, 1537,
    2049, 3073, 4097, 6145, 8193, 12289, 16385, 24577,
];

pub const DIST_EXTRA: [u32; 30] = [
    0, 0, 0, 0, 1, 1, 2, 2, 3, 3, 4, 4, 5, 5, 6, 6, 7, 7, 8, 8, 9, 9, 10, 10, 11, 11, 12, 12,
    13, 13,
];

/// Base length of length symbol `code` (257..=285).
pub open spec fn length_base_spec(code: int) -> int {
    LENGTH_BASES@[code - 257] as int
}

/// Extra bits of length symbol `code` (257..=285).
pub open spec fn length_extra_spec(code: int) -> int {
    LENGTH_EXTRA@[code - 257] as int
}

/// Base distance of distance symbol `code` (0..=29).
pub open spec fn distance_base_spec(code: int) -> int {
    DIST_BASES@[code] as int
}

/// Extra bits of distance symbol `code` (0..=29).
pub open spec fn distance_extra_spec(code: int) -> int {
    DIST_EXTRA@[code] as int
}

/// The length symbol whose range holds `length` (RFC 1951, 3.2.5).
pub open spec fn length_symbol_ok(length: int, code: int) -> bool {
    &&& 257 <= code <= 285
    &&& length_base_spec(code) <= length
    &&& code < 285 ==> length < length_base_spec(code + 1)
    &&& length - length_base_spec(code) < pow2(length_extra_spec(code) as nat)
}

/// The distance symbol whose range holds `distance` (RFC 1951, 3.2.5).
pub open spec fn distance_symbol_ok(distance: int, code: int) -> bool {
    &&& 0 <= code <= 29
    &&& distance_base_spec(code) <= distance
    &&& code < 29 ==> distance < distance_base_spec(code + 1)
    &&& distance - distance_base_spec(code) < pow2(distance_extra_spec(code) as nat)
}

/// The length symbol for `length`: the one whose range holds it.
pub open spec fn length_symbol(length: int) -> int {
    choose|c: int| length_symbol_ok(length, c)
}

/// The distance symbol for `distance`: the one whose range holds it.
pub open spec fn distance_symbol(distance: int) -> int {
    choose|c: int| distance_symbol_ok(distance, c)
}

proof fn lemma_length_bases_increase(j: int, k: int)
    requires
        0 <= j < k < 29,
    ensures
        LENGTH_BASES@[j] < LENGTH_BASES@[k],
    decreases k - j,
{
    lemma_length_bases_step();
    if j + 1 < k {
        lemma_length_bases_increase(j + 1, k);
    }
}

proof fn lemma_length_bases_step()
    ensures
        forall|k: int| 0 <= k < 28 ==> #[trigger] LENGTH_BASES@[k] < LENGTH_BASES@[k + 1],
{
}

proof fn lemma_dist_bases_step()
    ensures
        forall|k: int| 0 <= k < 29 ==> #[trigger] DIST_BASES@[k] < DIST_BASES@[k + 1],
{
}

proof fn lemma_dist_bases_increase(j: int, k: int)
    requires
        0 <= j < k < 30,
    ensures
        DIST_BASES@[j] < DIST_BASES@[k],
    decreases k - j,
{
    lemma_dist_bases_step();
    if j + 1 < k {
        lemma_dist_bases_increase(j + 1, k);
    }
}

proof fn lemma_length_symbol_unique(length: int, c: int)
    requires
        length_symbol_ok(length, c),
    ensures
        length_symbol(length) == c,
{
    let d = length_symbol(length);
    assert(length_symbol_ok(length, d));
    if d < c {
        lemma_length_bases_increase(d + 1 - 257, c - 257);
        if d + 1 < c {
            assert(LENGTH_BASES@[d + 1 - 257] < LENGTH_BASES@[c - 257]);
        }
    } else if c < d {
        if c + 1 < d {
            lemma_length_bases_increase(c + 1 - 257, d - 257);
        }
    }
}

proof fn lemma_distance_symbol_unique(distance: int, c: int)
    requires
        distance_symbol_ok(distance, c),
    ensures
        distance_symbol(distance) == c,
{
    let d = distance_symbol(distance);
    assert(distance_symbol_ok(distance, d));
    if d < c {
        if d + 1 < c {
            lemma_dist_bases_increase(d + 1, c);
        }
    } else if c < d {
        if c + 1 < d {
            lemma_dist_bases_increase(c + 1, d);
        }
    }
}

proof fn lemma_length_tables()
    ensures
        forall|k: int| 0 <= k < 29 ==> (#[trigger] LENGTH_TABLE@[k]).0 == LENGTH_BASES@[k] && LENGTH_TABLE@[k].1 == 257 + k && LENGTH_TABLE@[k].2 == LENGTH_EXTRA@[k],
        forall|k: int| 0 <= k < 28 ==> #[trigger] LENGTH_BASES@[k] < LENGTH_BASES@[k + 1],
        forall|k: int| 0 <= k < 27 ==> #[trigger] LENGTH_BASES@[k + 1] == LENGTH_BASES@[k] + pow2(LENGTH_EXTRA@[k] as nat),
        forall|k: int| 0 <= k < 29 ==> #[trigger] LENGTH_EXTRA@[k] <= 5,
{
    lemma2_to64();
}

proof fn lemma_dist_tables()
    ensures
        forall|k: int| 0 <= k < 30 ==> (#[trigger] DIST_TABLE@[k]).0 == DIST_BASES@[k] && DIST_TABLE@[k].1 == k && DIST_TABLE@[k].2 == DIST_EXTRA@[k],
        forall|k: int| 0 <= k < 29 ==> #[trigger] DIST_BASES@[k] < DIST_BASES@[k + 1],
        forall|k: int| 0 <= k < 29 ==> #[trigger] DIST_BASES@[k + 1] == DIST_BASES@[k] + pow2(DIST_EXTRA@[k] as nat),
        forall|k: int| 0 <= k < 30 ==> #[trigger] DIST_EXTRA@[k] <= 13,
        DIST_BASES@[29] + pow2(DIST_EXTRA@[29] as nat) == 32769,
{
    lemma2_to64();
}

/// Length symbol and number of extra bits for a match length.
pub fn length_code(length: u16) -> (r: (u16, u32))
    ensures
        257 <= r.0 <= 285,
        r.1 as int == length_extra_spec(r.0 as int),
        r.1 <= 5,
        3 <= length <= 258 ==> length_symbol_ok(length as int, r.0 as int),
        3 <= length <= 258 ==> r.0 == length_symbol(length as int),
{
    proof {
        lemma_length_tables();
    }
    let mut best = LENGTH_TABLE[0];
    let ghost mut bi: int = 0;
    let mut k: usize = 0;
    while k < 29
        invariant
            k <= 29,
            0 <= bi < 29,
            bi < k || (k == 0 && bi == 0),
            best == LENGTH_TABLE@[bi],
            bi == 0 || LENGTH_TABLE@[bi].0 <= length,
            forall|j: int| bi < j < k ==> #[trigger] LENGTH_TABLE@[j].0 > length,
        decreases 29 - k,
    {
        let (base, code, extra) = LENGTH_TABLE[k];
        if length >= base {
            best = (base, code, extra);
            proof {
                bi = k as int;
            }
        }
        k = k + 1;
    }
    proof {
        lemma2_to64();
        if 3 <= length <= 258 && bi < 28 {
            assert(LENGTH_TABLE@[bi + 1].0 > length);
        }
        if 3 <= length <= 258 {
            lemma_length_symbol_unique(length as int, best.1 as int);
        }
    }
    (best.1, best.2)
}

/// Base length of length symbol `code`.
pub fn length_base(code: u16) -> (r: u16)
    requires
        257 <= code <= 285,
    ensures
        r as int == length_base_spec(code as int),
{
    LENGTH_BASES[(code - 257) as usize]
}

/// Distance symbol and number of extra bits for a match distance.
pub fn distance_code(distance: u16) -> (r: (u16, u32))
    ensures
        r.0 <= 29,
        r.1 as int == distance_extra_spec(r.0 as int),
        r.1 <= 13,
        1 <= distance <= 32768 ==> distance_symbol_ok(distance as int, r.0 as int),
        1 <= distance <= 32768 ==> r.0 == distance_symbol(distance as int),
{
    proof {
        lemma_dist_tables();
    }
    let mut best = DIST_TABLE[0];
    let ghost mut bi: int = 0;
    let mut k: usize = 0;
    while k < 30
        invariant
            k <= 30,
            0 <= bi < 30,
            bi < k || (k == 0 && bi == 0),
            best == DIST_TABLE@[bi],
            bi == 0 || DIST_TABLE@[bi].0 <= distance,
            forall|j: int| bi < j < k ==> #[trigger] DIST_TABLE@[j].0 > distance,
        decreases 30 - k,
    {
        let (base, code, extra) = DIST_TABLE[k];
        if distance >= base {
            best = (base, code, extra);
            proof {
                bi = k as int;
            }
        }
        k = k + 1;
    }
    proof {
        lemma2_to64();
        if 1 <= distance <= 32768 && bi < 29 {
            assert(DIST_TABLE@[bi + 1].0 > distance);
        }
        if 1 <= distance <= 32768 {
            lemma_distance_symbol_unique(distance as int, best.1 as int);
        }
    }
    (best.1, best.2)
}

/// Base distance of distance symbol `code`.
pub fn distance_base(code: u16) -> (r: u16)
    requires
        code <= 29,
    ensures
        r as int == distance_base_spec(code as int),
{
    DIST_BASES[code as usize]
}

/// Extra bits of length symbol `code`.
pub fn length_extra(code: u16) -> (r: u32)
    requires
        257 <= code <= 285,
    ensures
        r as int == length_extra_spec(code as int),
{
    LENGTH_EXTRA[(code - 257) as usize]
}

/// Extra bits of distance symbol `code`.
pub fn distance_extra(code: u16) -> (r: u32)
    requires
        code <= 29,
    ensures
        r as int == distance_extra_spec(code as int),
{
    DIST_EXTRA[code as usize]
}

} // verus!
