use vstd::prelude::*;
use crate::engine::bits::{byte_len, packed};
use crate::engine::compressor::{dictionary_after, lemma_learned_consistent, object_payload};
use crate::engine::decompressor::decompression;
use crate::engine::huffman::{
    code_bits, encode_bits, frequencies, huffman_codes, huffman_tree, joined, leaves, merge_step,
    merged, min_index, stream_bytes, tree_codes, HuffmanNode,
};
use crate::engine::tokenizer::longest_match;
use crate::engine::planner::planned;
use crate::engine::prefix_code::{lemma_code_index, lemma_count_index, lemma_min_index};
use crate::engine::round_trip::{format_holds, lemma_round_trip, payload_fits};
use crate::engine::tokenizer::{pairs_consistent, tokenization};
use crate::storage::dictionary::DictionaryView;

verus! {

/// The larger of two numbers.
pub open spec fn larger(a: nat, b: nat) -> nat {
    if a < b {
        b
    } else {
        a
    }
}

/// Levels below a node, inner nodes being those without a token.
pub open spec fn depth(node: HuffmanNode) -> nat
    decreases node,
{
    match node.token {
        Some(_) => 0,
        None => 1 + larger(
            match node.left {
                Some(l) => depth(*l),
                None => 0,
            },
            match node.right {
                Some(r) => depth(*r),
                None => 0,
            },
        ),
    }
}

/// Number of leaves below a node.
pub open spec fn leaf_total(node: HuffmanNode) -> nat
    decreases node,
{
    match node.token {
        Some(_) => 1,
        None => (match node.left {
            Some(l) => leaf_total(*l),
            None => 0,
        }) + (match node.right {
            Some(r) => leaf_total(*r),
            None => 0,
        }),
    }
}

/// Number of leaves in the first `n` trees of a forest.
pub open spec fn forest_leaves(forest: Seq<HuffmanNode>, n: int) -> nat
    decreases n,
{
    if n <= 0 {
        0
    } else {
        forest_leaves(forest, n - 1) + leaf_total(forest[n - 1])
    }
}

/// A tree that is no deeper than its leaves allow: it has a leaf, and fewer
/// levels than leaves.
pub open spec fn shallow(node: HuffmanNode) -> bool {
    depth(node) + 1 <= leaf_total(node)
}

/// The codes below a node are as many as its leaves, and none is longer than
/// the path to the node and the levels below it.
pub proof fn lemma_codes_below(node: HuffmanNode, prefix: Seq<bool>)
    requires
        prefix.len() >= 1,
    ensures
        tree_codes(node, prefix).len() == leaf_total(node),
        forall|i: int|
            0 <= i < tree_codes(node, prefix).len() ==> (#[trigger] tree_codes(node, prefix)[i]).1.len()
                <= prefix.len() + depth(node),
    decreases node,
{
    match node.token {
        Some(t) => {},
        None => {
            let ls = match node.left {
                Some(l) => tree_codes(*l, prefix.push(false)),
                None => Seq::<(u32, Seq<bool>)>::empty(),
            };
            let rs = match node.right {
                Some(r) => tree_codes(*r, prefix.push(true)),
                None => Seq::<(u32, Seq<bool>)>::empty(),
            };
            match node.left {
                Some(l) => {
                    lemma_codes_below(*l, prefix.push(false));
                },
                None => {},
            }
            match node.right {
                Some(r) => {
                    lemma_codes_below(*r, prefix.push(true));
                },
                None => {},
            }
            let cs = tree_codes(node, prefix);
            assert(cs == ls + rs);
            assert forall|i: int| 0 <= i < cs.len() implies (#[trigger] cs[i]).1.len()
                <= prefix.len() + depth(node) by {
                if i < ls.len() {
                    assert(cs[i] == ls[i]);
                } else {
                    assert(cs[i] == rs[i - ls.len()]);
                }
            }
        },
    }
}

/// The codes of a whole tree are as many as its leaves, and none is longer
/// than the tree is deep, or than one bit for a tree that is a single leaf.
pub proof fn lemma_codes_of_tree(root: HuffmanNode)
    ensures
        tree_codes(root, Seq::<bool>::empty()).len() == leaf_total(root),
        forall|i: int|
            0 <= i < tree_codes(root, Seq::<bool>::empty()).len() ==> (#[trigger] tree_codes(
                root,
                Seq::<bool>::empty(),
            )[i]).1.len() <= larger(1, depth(root)),
{
    let empty = Seq::<bool>::empty();
    match root.token {
        Some(t) => {},
        None => {
            let ls = match root.left {
                Some(l) => tree_codes(*l, empty.push(false)),
                None => Seq::<(u32, Seq<bool>)>::empty(),
            };
            let rs = match root.right {
                Some(r) => tree_codes(*r, empty.push(true)),
                None => Seq::<(u32, Seq<bool>)>::empty(),
            };
            match root.left {
                Some(l) => {
                    lemma_codes_below(*l, empty.push(false));
                },
                None => {},
            }
            match root.right {
                Some(r) => {
                    lemma_codes_below(*r, empty.push(true));
                },
                None => {},
            }
            let cs = tree_codes(root, empty);
            assert(cs == ls + rs);
            assert forall|i: int| 0 <= i < cs.len() implies (#[trigger] cs[i]).1.len() <= larger(
                1,
                depth(root),
            ) by {
                if i < ls.len() {
                    assert(cs[i] == ls[i]);
                } else {
                    assert(cs[i] == rs[i - ls.len()]);
                }
            }
        },
    }
}

/// The leaves of a forest without one tree.
pub proof fn lemma_leaves_remove(forest: Seq<HuffmanNode>, at: int, n: int)
    requires
        0 <= at < n <= forest.len(),
    ensures
        forest_leaves(forest.remove(at), n - 1) + leaf_total(forest[at]) == forest_leaves(forest, n),
    decreases n,
{
    let rest = forest.remove(at);
    if at == n - 1 {
        lemma_leaves_same(forest, rest, n - 1);
    } else {
        lemma_leaves_remove(forest, at, n - 1);
        assert(rest[n - 2] == forest[n - 1]);
    }
}

/// Forests that agree on their first `n` trees have as many leaves there.
pub proof fn lemma_leaves_same(a: Seq<HuffmanNode>, b: Seq<HuffmanNode>, n: int)
    requires
        0 <= n <= a.len(),
        n <= b.len(),
        forall|i: int| 0 <= i < n ==> a[i] == b[i],
    ensures
        forest_leaves(a, n) == forest_leaves(b, n),
    decreases n,
{
    if n > 0 {
        lemma_leaves_same(a, b, n - 1);
    }
}

/// A merge step keeps the number of leaves and keeps the trees shallow.
pub proof fn lemma_merge_keeps_shallow(forest: Seq<HuffmanNode>)
    requires
        forest.len() >= 2,
        forall|i: int| 0 <= i < forest.len() ==> shallow(#[trigger] forest[i]),
    ensures
        merge_step(forest).len() == forest.len() - 1,
        forall|i: int| 0 <= i < merge_step(forest).len() ==> shallow(#[trigger] merge_step(forest)[i]),
        forest_leaves(merge_step(forest), merge_step(forest).len() as int) == forest_leaves(
            forest,
            forest.len() as int,
        ),
{
    lemma_min_index(forest, forest.len() as int);
    let r = min_index(forest, forest.len() as int);
    let rest = forest.remove(r);
    lemma_min_index(rest, rest.len() as int);
    let l = min_index(rest, rest.len() as int);
    let parent = joined(rest[l], forest[r]);
    let kept = rest.remove(l);
    let after = kept.push(parent);
    assert(after == merge_step(forest));
    assert(rest[l] == forest[if l < r {
        l
    } else {
        l + 1
    }]);
    assert(shallow(rest[l]) && shallow(forest[r]));
    assert(shallow(parent));
    assert forall|i: int| 0 <= i < after.len() implies shallow(#[trigger] after[i]) by {
        if i < kept.len() {
            let i1 = if i < l {
                i
            } else {
                i + 1
            };
            assert(after[i] == rest[i1]);
            let i0 = if i1 < r {
                i1
            } else {
                i1 + 1
            };
            assert(rest[i1] == forest[i0]);
        }
    }
    lemma_leaves_remove(forest, r, forest.len() as int);
    lemma_leaves_remove(rest, l, rest.len() as int);
    lemma_leaves_same(kept, after, kept.len() as int);
    assert(after[kept.len() as int] == parent);
}

/// The tree merged from a forest of shallow trees is shallow and has all the
/// leaves of the forest.
pub proof fn lemma_merged_shallow(forest: Seq<HuffmanNode>)
    requires
        forest.len() >= 1,
        forall|i: int| 0 <= i < forest.len() ==> shallow(#[trigger] forest[i]),
    ensures
        shallow(merged(forest)),
        leaf_total(merged(forest)) == forest_leaves(forest, forest.len() as int),
    decreases forest.len(),
{
    if forest.len() >= 2 {
        lemma_merge_keeps_shallow(forest);
        lemma_merged_shallow(merge_step(forest));
    } else {
        assert(forest_leaves(forest, 0) == 0);
    }
}

/// A forest of single leaves has one leaf for each tree.
pub proof fn lemma_leaves_count(freqs: Seq<(u32, usize)>, n: int)
    requires
        0 <= n <= freqs.len(),
    ensures
        forest_leaves(leaves(freqs), n) == n,
    decreases n,
{
    if n > 0 {
        lemma_leaves_count(freqs, n - 1);
    }
}

/// There are at most as many distinct tokens as tokens.
pub proof fn lemma_frequencies_len(tokens: Seq<u32>)
    ensures
        frequencies(tokens).len() <= tokens.len(),
    decreases tokens.len(),
{
    if tokens.len() > 0 {
        lemma_frequencies_len(tokens.drop_last());
        lemma_count_index(frequencies(tokens.drop_last()), tokens.last(), 0);
    }
}

/// A tokenization has at most as many tokens as the input has bytes.
pub proof fn lemma_tokenization_len(pairs: Seq<(Seq<u8>, u32)>, input: Seq<u8>)
    ensures
        tokenization(pairs, input).len() <= input.len(),
    decreases input.len(),
{
    if input.len() > 0 {
        let k = longest_match(pairs, input, pairs.len() as int);
        if 0 <= k < pairs.len() && 0 < pairs[k].0.len() <= input.len() {
            lemma_tokenization_len(pairs, input.skip(pairs[k].0.len() as int));
        } else {
            lemma_tokenization_len(pairs, input.skip(1));
        }
    }
}

/// The bits of a stream are at most `longest` for each token, where no code
/// is longer than that.
pub proof fn lemma_encode_bits_len(codes: Seq<(u32, Seq<bool>)>, tokens: Seq<u32>, longest: nat)
    requires
        forall|i: int| 0 <= i < codes.len() ==> (#[trigger] codes[i]).1.len() <= longest,
    ensures
        encode_bits(codes, tokens).len() <= longest * tokens.len(),
    decreases tokens.len(),
{
    if tokens.len() > 0 {
        lemma_encode_bits_len(codes, tokens.drop_last(), longest);
        lemma_code_index(codes, tokens.last(), 0);
        assert(code_bits(codes, tokens.last()).len() <= longest);
        assert(longest * tokens.len() == longest * (tokens.len() - 1) + longest)
            by (nonlinear_arith);
    }
}

/// The table of a token stream has one entry for each distinct token, and no
/// code is longer than one bit less than there are distinct tokens, or than
/// one bit where there is one token only.
pub proof fn lemma_code_lengths(tokens: Seq<u32>)
    ensures
        huffman_codes(tokens).len() == frequencies(tokens).len(),
        forall|i: int|
            0 <= i < huffman_codes(tokens).len() ==> (#[trigger] huffman_codes(tokens)[i]).1.len()
                <= larger(1, (frequencies(tokens).len() - 1) as nat),
{
    let f = frequencies(tokens);
    if f.len() >= 2 {
        let forest = leaves(f);
        assert forall|i: int| 0 <= i < forest.len() implies shallow(#[trigger] forest[i]) by {}
        lemma_merged_shallow(forest);
        lemma_leaves_count(f, f.len() as int);
        lemma_codes_of_tree(huffman_tree(tokens));
    }
}

/// The payload format holds the encoded form of every input of at most 256
/// bytes.
pub proof fn lemma_small_input_fits(pairs: Seq<(Seq<u8>, u32)>, input: Seq<u8>)
    requires
        input.len() <= 256,
    ensures
        payload_fits(pairs, input),
{
    let tokens = tokenization(pairs, input);
    let codes = huffman_codes(tokens);
    let bits = encode_bits(codes, tokens);
    lemma_tokenization_len(pairs, input);
    lemma_frequencies_len(tokens);
    lemma_code_lengths(tokens);
    assert forall|i: int| 0 <= i < codes.len() implies (#[trigger] codes[i]).1.len() <= 255 by {}
    lemma_encode_bits_len(codes, tokens, 255);
    assert(bits.len() <= 255 * 256) by (nonlinear_arith)
        requires
            bits.len() <= 255 * tokens.len(),
            tokens.len() <= 256,
    ;
    assert(packed(bits).len() == byte_len(bits.len() as int));
    assert(stream_bytes(bits).len() == 1 + packed(bits).len());
    assert(format_holds(codes, stream_bytes(bits)));
}

/// Round trip for small objects, without condition: an input of at most 256
/// bytes, compressed against any dictionary that keeps the inverse mapping,
/// decompresses to itself under the dictionary as `compress` leaves it.
pub proof fn lemma_small_round_trip(d: DictionaryView, input: Seq<u8>)
    requires
        pairs_consistent(d.pairs),
        input.len() <= 256,
    ensures
        decompression(
            dictionary_after(d, input).pairs,
            object_payload(dictionary_after(d, input).pairs, input),
        ) == input,
{
    if !d.frozen {
        lemma_learned_consistent(d, planned(input, 16), planned(input, 16).len() as int);
    }
    lemma_small_input_fits(dictionary_after(d, input).pairs, input);
    lemma_round_trip(dictionary_after(d, input).pairs, input);
}

} // verus!
