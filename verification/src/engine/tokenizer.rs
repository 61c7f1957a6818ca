use vstd::prelude::*;
use crate::engine::symbols::{pairs_of, Symbol};

verus! {

/// Index of the first entry at or after `from` that owns token `t`, or -1.
pub open spec fn find_token(pairs: Seq<(Seq<u8>, u32)>, t: u32, from: int) -> int
    decreases pairs.len() - from,
{
    if from < 0 || from >= pairs.len() {
        -1
    } else if pairs[from].1 == t {
        from
    } else {
        find_token(pairs, t, from + 1)
    }
}

/// Index of the first entry at or after `from` whose bytes are `b`, or -1.
pub open spec fn find_bytes(pairs: Seq<(Seq<u8>, u32)>, b: Seq<u8>, from: int) -> int
    decreases pairs.len() - from,
{
    if from < 0 || from >= pairs.len() {
        -1
    } else if pairs[from].0 == b {
        from
    } else {
        find_bytes(pairs, b, from + 1)
    }
}

/// The bytes a token stands for: the bytes of the entry that owns it; else
/// the byte itself for a literal token; else nothing.
pub open spec fn expand_token(pairs: Seq<(Seq<u8>, u32)>, t: u32) -> Seq<u8> {
    let k = find_token(pairs, t, 0);
    if k >= 0 {
        pairs[k].0
    } else if t <= 255 {
        seq![t as u8]
    } else {
        Seq::<u8>::empty()
    }
}

/// The bytes a token stream stands for.
pub open spec fn expand(pairs: Seq<(Seq<u8>, u32)>, tokens: Seq<u32>) -> Seq<u8>
    decreases tokens.len(),
{
    if tokens.len() == 0 {
        Seq::<u8>::empty()
    } else {
        expand_token(pairs, tokens[0]) + expand(pairs, tokens.skip(1))
    }
}

/// Index, among the first `n` entries, of the one whose bytes are the longest
/// non-empty prefix of `rest`; the earliest of several of that length; -1 if
/// none is a prefix.
pub open spec fn longest_match(pairs: Seq<(Seq<u8>, u32)>, rest: Seq<u8>, n: int) -> int
    decreases n,
{
    if n <= 0 {
        -1
    } else {
        let prev = longest_match(pairs, rest, n - 1);
        let best_len = if prev < 0 {
            0
        } else {
            pairs[prev].0.len()
        };
        if pairs[n - 1].0.is_prefix_of(rest) && pairs[n - 1].0.len() > best_len {
            n - 1
        } else {
            prev
        }
    }
}

/// Greedy longest-match segmentation: at each position the token of the
/// longest matching entry, or the byte itself as a literal token.
pub open spec fn tokenization(pairs: Seq<(Seq<u8>, u32)>, input: Seq<u8>) -> Seq<u32>
    decreases input.len(),
{
    if input.len() == 0 {
        Seq::<u32>::empty()
    } else {
        let k = longest_match(pairs, input, pairs.len() as int);
        if 0 <= k < pairs.len() && 0 < pairs[k].0.len() <= input.len() {
            seq![pairs[k].1] + tokenization(pairs, input.skip(pairs[k].0.len() as int))
        } else {
            seq![input[0] as u32] + tokenization(pairs, input.skip(1))
        }
    }
}

/// Entries a round trip can rest on: bytes of one to 64 bytes, tokens above
/// the literal range, and no token or byte sequence used twice.
pub open spec fn pairs_consistent(pairs: Seq<(Seq<u8>, u32)>) -> bool {
    &&& forall|i: int|
        0 <= i < pairs.len() ==> 1 <= (#[trigger] pairs[i]).0.len() <= 64 && pairs[i].1 >= 256
    &&& forall|i: int, j: int|
        0 <= i < j < pairs.len() ==> (#[trigger] pairs[i]).1 != (#[trigger] pairs[j]).1
            && pairs[i].0 != pairs[j].0
}

/// What `find_token` finds is the first owner of the token.
pub proof fn lemma_find_token(pairs: Seq<(Seq<u8>, u32)>, t: u32, from: int)
    requires
        0 <= from,
    ensures
        find_token(pairs, t, from) == -1 || from <= find_token(pairs, t, from) < pairs.len(),
        find_token(pairs, t, from) >= 0 ==> pairs[find_token(pairs, t, from)].1 == t,
        forall|j: int|
            from <= j < pairs.len() && (find_token(pairs, t, from) == -1 || j < find_token(
                pairs,
                t,
                from,
            )) ==> (#[trigger] pairs[j]).1 != t,
    decreases pairs.len() - from,
{
    if from < pairs.len() && pairs[from].1 != t {
        lemma_find_token(pairs, t, from + 1);
    }
}

/// What `find_bytes` finds is the first entry with those bytes.
pub proof fn lemma_find_bytes(pairs: Seq<(Seq<u8>, u32)>, b: Seq<u8>, from: int)
    requires
        0 <= from,
    ensures
        find_bytes(pairs, b, from) == -1 || from <= find_bytes(pairs, b, from) < pairs.len(),
        find_bytes(pairs, b, from) >= 0 ==> pairs[find_bytes(pairs, b, from)].0 == b,
        forall|j: int|
            from <= j < pairs.len() && (find_bytes(pairs, b, from) == -1 || j < find_bytes(
                pairs,
                b,
                from,
            )) ==> (#[trigger] pairs[j]).0 != b,
    decreases pairs.len() - from,
{
    if from < pairs.len() && pairs[from].0 != b {
        lemma_find_bytes(pairs, b, from + 1);
    }
}

/// What `longest_match` picks is a longest non-empty prefix among the first
/// `n` entries, and the earliest of that length.
pub proof fn lemma_longest_match(pairs: Seq<(Seq<u8>, u32)>, rest: Seq<u8>, n: int)
    requires
        0 <= n <= pairs.len(),
    ensures
        -1 <= longest_match(pairs, rest, n) < n,
        longest_match(pairs, rest, n) >= 0 ==> pairs[longest_match(pairs, rest, n)].0.is_prefix_of(
            rest,
        ) && pairs[longest_match(pairs, rest, n)].0.len() > 0,
        forall|j: int|
            0 <= j < n && (#[trigger] pairs[j]).0.is_prefix_of(rest) && pairs[j].0.len() > 0
                ==> longest_match(pairs, rest, n) >= 0 && pairs[j].0.len() <= pairs[longest_match(
                pairs,
                rest,
                n,
            )].0.len() && (j < longest_match(pairs, rest, n) ==> pairs[j].0.len()
                < pairs[longest_match(pairs, rest, n)].0.len()),
    decreases n,
{
    if n > 0 {
        lemma_longest_match(pairs, rest, n - 1);
    }
}

/// Expanding a concatenation is concatenating the expansions.
pub proof fn lemma_expand_concat(pairs: Seq<(Seq<u8>, u32)>, a: Seq<u32>, b: Seq<u32>)
    ensures
        expand(pairs, a + b) == expand(pairs, a) + expand(pairs, b),
    decreases a.len(),
{
    if a.len() == 0 {
        assert(a + b =~= b);
        assert(expand(pairs, a) + expand(pairs, b) =~= expand(pairs, b));
    } else {
        lemma_expand_concat(pairs, a.skip(1), b);
        assert((a + b).skip(1) =~= a.skip(1) + b);
        assert((a + b)[0] == a[0]);
        assert(expand(pairs, a + b) =~= expand(pairs, a) + expand(pairs, b));
    }
}

/// Expanding one more token appends that token's bytes.
pub proof fn lemma_expand_push(pairs: Seq<(Seq<u8>, u32)>, a: Seq<u32>, t: u32)
    ensures
        expand(pairs, a.push(t)) == expand(pairs, a) + expand_token(pairs, t),
{
    lemma_expand_concat(pairs, a, seq![t]);
    assert(a.push(t) =~= a + seq![t]);
    assert(seq![t].skip(1) =~= Seq::<u32>::empty());
    assert(expand(pairs, seq![t].skip(1)) =~= Seq::<u8>::empty());
    assert(expand(pairs, seq![t]) =~= expand_token(pairs, t));
}

/// Every token of a tokenization is owned by an entry or is a literal byte.
pub proof fn lemma_tokenization_tokens(pairs: Seq<(Seq<u8>, u32)>, input: Seq<u8>, i: int)
    requires
        0 <= i < tokenization(pairs, input).len(),
    ensures
        find_token(pairs, tokenization(pairs, input)[i], 0) >= 0 || tokenization(pairs, input)[i]
            <= 255,
    decreases input.len(),
{
    if input.len() > 0 {
        let k = longest_match(pairs, input, pairs.len() as int);
        if 0 <= k < pairs.len() && 0 < pairs[k].0.len() <= input.len() {
            if i == 0 {
                lemma_find_token(pairs, pairs[k].1, 0);
            } else {
                lemma_tokenization_tokens(pairs, input.skip(pairs[k].0.len() as int), i - 1);
            }
        } else {
            if i > 0 {
                lemma_tokenization_tokens(pairs, input.skip(1), i - 1);
            }
        }
    }
}

/// Tokenizing and then expanding through the same consistent entries gives
/// the input back.
pub proof fn lemma_tokenize_expand(pairs: Seq<(Seq<u8>, u32)>, input: Seq<u8>)
    requires
        pairs_consistent(pairs),
    ensures
        expand(pairs, tokenization(pairs, input)) == input,
    decreases input.len(),
{
    if input.len() == 0 {
        assert(expand(pairs, tokenization(pairs, input)) =~= input);
    } else {
        let k = longest_match(pairs, input, pairs.len() as int);
        lemma_longest_match(pairs, input, pairs.len() as int);
        if 0 <= k < pairs.len() && 0 < pairs[k].0.len() <= input.len() {
            let t = pairs[k].1;
            let rest = input.skip(pairs[k].0.len() as int);
            lemma_tokenize_expand(pairs, rest);
            lemma_find_token(pairs, t, 0);
            let f = find_token(pairs, t, 0);
            assert(f == k);
            let toks = tokenization(pairs, input);
            assert(toks.skip(1) =~= tokenization(pairs, rest));
            assert(toks[0] == t);
            assert(pairs[k].0 + rest =~= input);
        } else {
            let t = input[0] as u32;
            lemma_tokenize_expand(pairs, input.skip(1));
            lemma_find_token(pairs, t, 0);
            let toks = tokenization(pairs, input);
            assert(toks.skip(1) =~= tokenization(pairs, input.skip(1)));
            assert(toks[0] == t);
            assert(find_token(pairs, t, 0) == -1);
            assert(seq![t as u8] + input.skip(1) =~= input);
        }
    }
}

/// Whether `pat` occurs in `input` at offset `at`.
pub fn starts_with_at(input: &[u8], at: usize, pat: &[u8]) -> (yes: bool)
    requires
        at <= input@.len(),
    ensures
        yes == pat@.is_prefix_of(input@.skip(at as int)),
{
    if pat.len() > input.len() - at {
        return false;
    }
    let mut j: usize = 0;
    while j < pat.len()
        invariant
            j <= pat@.len(),
            at + pat@.len() <= input@.len() <= usize::MAX,
            forall|k: int| 0 <= k < j ==> pat@[k] == input@[at + k],
        decreases pat@.len() - j,
    {
        if pat[j] != input[at + j] {
            assert(input@.skip(at as int).subrange(0, pat@.len() as int)[j as int] != pat@[j as int]);
            return false;
        }
        j += 1;
    }
    assert(input@.skip(at as int).subrange(0, pat@.len() as int) =~= pat@);
    true
}

/// Greedy longest-match segmentation of `input` against `symbols`: at each
/// position the token of the symbol whose bytes are the longest prefix of what
/// is left, or the next byte as a literal token where none matches.
pub fn tokenize(input: &[u8], symbols: &[Symbol]) -> (out: Vec<u32>)
    ensures
        out@ == tokenization(pairs_of(symbols@), input@),
{
    let ghost pairs = pairs_of(symbols@);
    let mut out: Vec<u32> = Vec::new();
    let mut i: usize = 0;
    proof {
        assert(input@.skip(0) =~= input@);
        assert(out@ + tokenization(pairs, input@) =~= tokenization(pairs, input@));
    }
    while i < input.len()
        invariant
            i <= input@.len(),
            pairs == pairs_of(symbols@),
            out@ + tokenization(pairs, input@.skip(i as int)) == tokenization(pairs, input@),
        decreases input@.len() - i,
    {
        let ghost rest = input@.skip(i as int);
        let mut best: Option<usize> = None;
        let mut best_len: usize = 0;
        let mut k: usize = 0;
        while k < symbols.len()
            invariant
                k <= symbols@.len(),
                i < input@.len(),
                pairs == pairs_of(symbols@),
                rest == input@.skip(i as int),
                match best {
                    Some(b) => longest_match(pairs, rest, k as int) == b && b < k && best_len
                        == pairs[b as int].0.len(),
                    None => longest_match(pairs, rest, k as int) == -1 && best_len == 0,
                },
            decreases symbols@.len() - k,
        {
            let s: &Symbol = &symbols[k];
            assert(pairs[k as int].0 == s.bytes@);
            if s.bytes.len() > best_len && starts_with_at(input, i, s.bytes.as_slice()) {
                best = Some(k);
                best_len = s.bytes.len();
            }
            k += 1;
        }
        proof {
            lemma_longest_match(pairs, rest, pairs.len() as int);
        }
        match best {
            Some(b) => {
                proof {
                    assert(pairs[b as int].1 == symbols@[b as int].token);
                    assert(rest.skip(best_len as int) =~= input@.skip(i + best_len));
                    assert(out@.push(pairs[b as int].1) + tokenization(
                        pairs,
                        rest.skip(best_len as int),
                    ) =~= out@ + tokenization(pairs, rest));
                }
                out.push(symbols[b].token);
                i += best_len;
            },
            None => {
                proof {
                    assert(rest[0] == input@[i as int]);
                    assert(rest.skip(1) =~= input@.skip(i + 1));
                    assert(out@.push(input@[i as int] as u32) + tokenization(pairs, rest.skip(1))
                        =~= out@ + tokenization(pairs, rest));
                }
                out.push(input[i] as u32);
                i += 1;
            },
        }
    }
    proof {
        assert(input@.skip(i as int).len() == 0);
        assert(out@ + tokenization(pairs, input@.skip(i as int)) =~= out@);
    }
    out
}

} // verus!
