use vstd::prelude::*;
use crate::engine::huffman::{
    bare_node, bumped, child, code_index, count_index, encode_bits, frequencies, huffman_codes,
    huffman_tree, inserted, joined, leaf, leaves, merge_step, merged, min_index, rebuilt, subtree,
    tree_codes, tree_decode, HuffmanNode,
};

verus! {

/// A table that decodes without doubt: no code is empty, and no code is the
/// beginning of another entry's code.
pub open spec fn prefix_free(codes: Seq<(u32, Seq<bool>)>) -> bool {
    &&& forall|i: int| 0 <= i < codes.len() ==> (#[trigger] codes[i]).1.len() >= 1
    &&& forall|i: int, j: int|
        0 <= i < codes.len() && 0 <= j < codes.len() && i != j ==> !(#[trigger] codes[i]).1.is_prefix_of(
            (#[trigger] codes[j]).1,
        )
}

/// The node reached from `node` along `path`, if the tree goes that far.
pub open spec fn node_at(node: HuffmanNode, path: Seq<bool>) -> Option<HuffmanNode>
    decreases path.len(),
{
    if path.len() == 0 {
        Some(node)
    } else {
        match child(node, path[0]) {
            None => None,
            Some(c) => node_at(c, path.skip(1)),
        }
    }
}

/// The token marked at the end of `path`, if the tree goes that far and the
/// node there has one.
pub open spec fn mark_at(node: HuffmanNode, path: Seq<bool>) -> Option<u32> {
    match node_at(node, path) {
        Some(n) => n.token,
        None => None,
    }
}

/// The token of the last of the first `n` entries whose code is `path`.
pub open spec fn last_mark(codes: Seq<(u32, Seq<bool>)>, n: int, path: Seq<bool>) -> Option<u32>
    decreases n,
{
    if n <= 0 {
        None
    } else if codes[n - 1].1 == path {
        Some(codes[n - 1].0)
    } else {
        last_mark(codes, n - 1, path)
    }
}

/// One step further along a path is the child of the node at the path.
pub proof fn lemma_node_at_push(node: HuffmanNode, path: Seq<bool>, bit: bool)
    ensures
        node_at(node, path.push(bit)) == match node_at(node, path) {
            None => None,
            Some(n) => child(n, bit),
        },
    decreases path.len(),
{
    let longer = path.push(bit);
    if path.len() == 0 {
        assert(longer[0] == bit);
        assert(longer.skip(1) =~= Seq::<bool>::empty());
        match child(node, bit) {
            None => {},
            Some(c) => {
                assert(node_at(c, longer.skip(1)) == Some(c));
            },
        }
    } else {
        assert(longer[0] == path[0]);
        assert(longer.skip(1) =~= path.skip(1).push(bit));
        match child(node, path[0]) {
            None => {},
            Some(c) => {
                lemma_node_at_push(c, path.skip(1), bit);
            },
        }
    }
}

/// A bare node has no mark anywhere.
pub proof fn lemma_bare_unmarked(path: Seq<bool>)
    ensures
        mark_at(bare_node(), path) is None,
{
    if path.len() > 0 {
        assert(child(bare_node(), path[0]) is None);
    }
}

/// Inserting a code marks the end of its path and changes no other mark, and
/// the tree then reaches along the whole of the path.
pub proof fn lemma_inserted(node: HuffmanNode, code: Seq<bool>, depth: int, token: u32, q: Seq<bool>)
    requires
        0 <= depth <= code.len(),
    ensures
        mark_at(inserted(node, code, depth, token), q) == if q == code.skip(depth) {
            Some(token)
        } else {
            mark_at(node, q)
        },
        q.is_prefix_of(code.skip(depth)) ==> node_at(inserted(node, code, depth, token), q) is Some,
        node_at(node, q) is Some ==> node_at(inserted(node, code, depth, token), q) is Some,
    decreases code.len() - depth,
{
    let s = code.skip(depth);
    let after = inserted(node, code, depth, token);
    if depth >= code.len() {
        assert(s.len() == 0);
        if q.len() == 0 {
            assert(q =~= s);
        } else {
            assert(child(after, q[0]) == child(node, q[0]));
        }
    } else {
        let b = code[depth];
        assert(s[0] == b);
        if q.len() == 0 {
            assert(q != s);
        } else if q[0] != b {
            assert(child(after, q[0]) == child(node, q[0]));
            assert(q != s);
            if q.is_prefix_of(s) {
                assert(s.subrange(0, q.len() as int)[0] == q[0]);
            }
        } else {
            let below = if b {
                subtree(node.right)
            } else {
                subtree(node.left)
            };
            let grown = inserted(below, code, depth + 1, token);
            assert(child(after, q[0]) == Some(grown));
            lemma_inserted(below, code, depth + 1, token, q.skip(1));
            let s1 = code.skip(depth + 1);
            assert(s.skip(1) =~= s1);
            if q == s {
                assert(q.skip(1) =~= s1);
            }
            if q.skip(1) == s1 {
                assert(q =~= s) by {
                    assert(q.len() == s.len());
                    assert forall|k: int| 0 <= k < q.len() implies q[k] == s[k] by {
                        if k > 0 {
                            assert(q.skip(1)[k - 1] == s1[k - 1]);
                        }
                    }
                }
            }
            if q.is_prefix_of(s) {
                assert(q.skip(1).is_prefix_of(s1)) by {
                    assert(s1.subrange(0, q.len() - 1) =~= q.skip(1)) by {
                        assert forall|k: int| 0 <= k < q.len() - 1 implies s1.subrange(
                            0,
                            q.len() - 1,
                        )[k] == q.skip(1)[k] by {
                            assert(s.subrange(0, q.len() as int)[k + 1] == q[k + 1]);
                        }
                    }
                }
            }
            match child(node, q[0]) {
                Some(c) => {
                    assert(below == c);
                },
                None => {
                    assert(below == bare_node());
                    lemma_bare_unmarked(q.skip(1));
                },
            }
        }
    }
}

/// The marks of a rebuilt tree are those of its table: at each path the token
/// of the last entry with that code. The tree reaches along every code.
pub proof fn lemma_rebuilt(codes: Seq<(u32, Seq<bool>)>, n: int, q: Seq<bool>)
    requires
        0 <= n <= codes.len(),
    ensures
        mark_at(rebuilt(codes, n), q) == last_mark(codes, n, q),
        forall|j: int|
            0 <= j < n && q.is_prefix_of((#[trigger] codes[j]).1) ==> node_at(rebuilt(codes, n), q)
                is Some,
    decreases n,
{
    if n <= 0 {
        lemma_bare_unmarked(q);
    } else {
        lemma_rebuilt(codes, n - 1, q);
        let code = codes[n - 1].1;
        lemma_inserted(rebuilt(codes, n - 1), code, 0, codes[n - 1].0, q);
        assert(code.skip(0) =~= code);
    }
}

/// In a prefix-free table the last entry with a code is the only one.
pub proof fn lemma_last_mark_unique(codes: Seq<(u32, Seq<bool>)>, n: int, k: int)
    requires
        prefix_free(codes),
        0 <= k < codes.len(),
        0 <= n <= codes.len(),
    ensures
        last_mark(codes, n, codes[k].1) == if k < n {
            Some(codes[k].0)
        } else {
            None
        },
    decreases n,
{
    if n > 0 {
        lemma_last_mark_unique(codes, n - 1, k);
        if n - 1 != k && codes[n - 1].1 == codes[k].1 {
            assert(codes[n - 1].1.is_prefix_of(codes[k].1)) by {
                assert(codes[k].1.subrange(0, codes[k].1.len() as int) =~= codes[k].1);
            }
        }
    }
}

/// In a prefix-free table no entry's code is a proper beginning of a code.
pub proof fn lemma_no_mark_inside(codes: Seq<(u32, Seq<bool>)>, n: int, k: int, d: int)
    requires
        prefix_free(codes),
        0 <= k < codes.len(),
        0 <= n <= codes.len(),
        0 <= d < codes[k].1.len(),
    ensures
        last_mark(codes, n, codes[k].1.take(d)) is None,
    decreases n,
{
    if n > 0 {
        lemma_no_mark_inside(codes, n - 1, k, d);
        let q = codes[k].1.take(d);
        if codes[n - 1].1 == q {
            assert(q.is_prefix_of(codes[k].1)) by {
                assert(codes[k].1.subrange(0, q.len() as int) =~= q);
            }
        }
    }
}

/// A walk that stands `d` bits into a code which the bits spell out yields
/// that code's token at its end and starts again at the root.
pub proof fn lemma_walk_code(
    root: HuffmanNode,
    cur: HuffmanNode,
    bits: Seq<bool>,
    i: int,
    code: Seq<bool>,
    token: u32,
    d: int,
)
    requires
        0 <= i,
        0 <= d < code.len(),
        i + code.len() <= bits.len(),
        bits.subrange(i, i + code.len()) == code,
        node_at(root, code.take(d)) == Some(cur),
        forall|e: int| d < e < code.len() ==> node_at(root, #[trigger] code.take(e)) is Some && mark_at(
            root,
            code.take(e),
        ) is None,
        mark_at(root, code) == Some(token),
    ensures
        tree_decode(root, cur, bits, i + d) == seq![token] + tree_decode(
            root,
            root,
            bits,
            i + code.len(),
        ),
    decreases code.len() - d,
{
    assert(bits[i + d] == bits.subrange(i, i + code.len())[d]);
    lemma_node_at_push(root, code.take(d), code[d]);
    assert(code.take(d).push(code[d]) =~= code.take(d + 1));
    if d + 1 == code.len() {
        assert(code.take(d + 1) =~= code);
    } else {
        let next = node_at(root, code.take(d + 1))->Some_0;
        assert(node_at(root, code.take(d + 1)) is Some);
        assert(mark_at(root, code.take(d + 1)) is None);
        lemma_walk_code(root, next, bits, i, code, token, d + 1);
    }
}

/// The bits of a token stream begin with the code of its first token.
pub proof fn lemma_encode_bits_concat(codes: Seq<(u32, Seq<bool>)>, a: Seq<u32>, b: Seq<u32>)
    ensures
        encode_bits(codes, a + b) == encode_bits(codes, a) + encode_bits(codes, b),
    decreases b.len(),
{
    if b.len() == 0 {
        assert(a + b =~= a);
        assert(encode_bits(codes, a) + encode_bits(codes, b) =~= encode_bits(codes, a));
    } else {
        lemma_encode_bits_concat(codes, a, b.drop_last());
        assert((a + b).drop_last() =~= a + b.drop_last());
        assert((a + b).last() == b.last());
        assert(encode_bits(codes, a + b) =~= encode_bits(codes, a) + encode_bits(codes, b));
    }
}

/// What `code_index` finds is an entry for the token.
pub proof fn lemma_code_index(codes: Seq<(u32, Seq<bool>)>, t: u32, from: int)
    requires
        0 <= from,
    ensures
        code_index(codes, t, from) == -1 || from <= code_index(codes, t, from) < codes.len(),
        code_index(codes, t, from) >= 0 ==> codes[code_index(codes, t, from)].0 == t,
        forall|j: int|
            from <= j < codes.len() && (#[trigger] codes[j]).0 == t ==> code_index(codes, t, from)
                >= 0,
    decreases codes.len() - from,
{
    if from < codes.len() && codes[from].0 != t {
        lemma_code_index(codes, t, from + 1);
    }
}

/// Decoding on the tree rebuilt from a prefix-free table gives back every
/// token stream that the table has codes for: the bits of the stream, put
/// behind any bits already walked through, decode to the stream.
pub proof fn lemma_decode_after(
    codes: Seq<(u32, Seq<bool>)>,
    tokens: Seq<u32>,
    before: Seq<bool>,
)
    requires
        prefix_free(codes),
        forall|i: int| 0 <= i < tokens.len() ==> code_index(codes, #[trigger] tokens[i], 0) >= 0,
    ensures
        tree_decode(
            rebuilt(codes, codes.len() as int),
            rebuilt(codes, codes.len() as int),
            before + encode_bits(codes, tokens),
            before.len() as int,
        ) == tokens,
    decreases tokens.len(),
{
    let root = rebuilt(codes, codes.len() as int);
    let n = codes.len() as int;
    let bits = before + encode_bits(codes, tokens);
    if tokens.len() == 0 {
        assert(bits =~= before);
        assert(tree_decode(root, root, bits, before.len() as int) =~= tokens);
    } else {
        let t = tokens[0];
        let rest = tokens.skip(1);
        lemma_code_index(codes, t, 0);
        let k = code_index(codes, t, 0);
        let code = codes[k].1;
        assert(seq![t] + rest =~= tokens);
        lemma_encode_bits_concat(codes, seq![t], rest);
        assert(encode_bits(codes, seq![t]) =~= code) by {
            assert(seq![t].drop_last() =~= Seq::<u32>::empty());
            assert(encode_bits(codes, seq![t].drop_last()) =~= Seq::<bool>::empty());
        }
        let i = before.len() as int;
        assert(bits =~= (before + code) + encode_bits(codes, rest));
        assert(bits.subrange(i, i + code.len()) =~= code);
        assert(code.take(0) =~= Seq::<bool>::empty());
        assert forall|e: int| 0 < e < code.len() implies node_at(root, #[trigger] code.take(e))
            is Some && mark_at(root, code.take(e)) is None by {
            lemma_rebuilt(codes, n, code.take(e));
            lemma_no_mark_inside(codes, n, k, e);
            assert(code.take(e).is_prefix_of(codes[k].1)) by {
                assert(code.subrange(0, code.take(e).len() as int) =~= code.take(e));
            }
        }
        lemma_rebuilt(codes, n, code);
        lemma_last_mark_unique(codes, n, k);
        lemma_walk_code(root, root, bits, i, code, t, 0);
        assert forall|j: int| 0 <= j < rest.len() implies code_index(codes, #[trigger] rest[j], 0)
            >= 0 by {
            assert(rest[j] == tokens[j + 1]);
        }
        lemma_decode_after(codes, rest, before + code);
        assert(tree_decode(root, root, bits, i) =~= tokens);
    }
}

/// Decoding what was encoded gives the token stream back, on the tree
/// rebuilt from any prefix-free table that has a code for each token.
pub proof fn lemma_decode_encode(codes: Seq<(u32, Seq<bool>)>, tokens: Seq<u32>)
    requires
        prefix_free(codes),
        forall|i: int| 0 <= i < tokens.len() ==> code_index(codes, #[trigger] tokens[i], 0) >= 0,
    ensures
        tree_decode(
            rebuilt(codes, codes.len() as int),
            rebuilt(codes, codes.len() as int),
            encode_bits(codes, tokens),
            0,
        ) == tokens,
{
    lemma_decode_after(codes, tokens, Seq::<bool>::empty());
    assert(Seq::<bool>::empty() + encode_bits(codes, tokens) =~= encode_bits(codes, tokens));
}

/// Whether a leaf for token `t` stands below `node`, inner nodes being those
/// without a token.
pub open spec fn has_leaf(node: HuffmanNode, t: u32) -> bool
    decreases node,
{
    match node.token {
        Some(x) => x == t,
        None => (match node.left {
            Some(l) => has_leaf(*l, t),
            None => false,
        }) || (match node.right {
            Some(r) => has_leaf(*r, t),
            None => false,
        }),
    }
}

/// Whether some tree of the forest has a leaf for token `t`.
pub open spec fn forest_has(forest: Seq<HuffmanNode>, t: u32) -> bool {
    exists|i: int| 0 <= i < forest.len() && has_leaf(#[trigger] forest[i], t)
}

/// Whether a count is kept for token `t`.
pub open spec fn counted(freqs: Seq<(u32, usize)>, t: u32) -> bool {
    exists|j: int| 0 <= j < freqs.len() && (#[trigger] freqs[j]).0 == t
}

/// Whether the table has an entry for token `t`.
pub open spec fn has_code(codes: Seq<(u32, Seq<bool>)>, t: u32) -> bool {
    exists|j: int| 0 <= j < codes.len() && (#[trigger] codes[j]).0 == t
}

/// The codes below a node all begin with the path to the node, and none is
/// the beginning of another.
pub proof fn lemma_tree_codes(node: HuffmanNode, prefix: Seq<bool>)
    requires
        prefix.len() >= 1,
    ensures
        forall|i: int|
            0 <= i < tree_codes(node, prefix).len() ==> prefix.is_prefix_of(
                (#[trigger] tree_codes(node, prefix)[i]).1,
            ),
        forall|i: int, j: int|
            0 <= i < tree_codes(node, prefix).len() && 0 <= j < tree_codes(node, prefix).len() && i
                != j ==> !(#[trigger] tree_codes(node, prefix)[i]).1.is_prefix_of(
                (#[trigger] tree_codes(node, prefix)[j]).1,
            ),
    decreases node,
{
    let cs = tree_codes(node, prefix);
    match node.token {
        Some(t) => {
            assert(cs[0].1 == prefix);
            assert(prefix.subrange(0, prefix.len() as int) =~= prefix);
        },
        None => {
            let pl = prefix.push(false);
            let pr = prefix.push(true);
            let ls = match node.left {
                Some(l) => tree_codes(*l, pl),
                None => Seq::<(u32, Seq<bool>)>::empty(),
            };
            let rs = match node.right {
                Some(r) => tree_codes(*r, pr),
                None => Seq::<(u32, Seq<bool>)>::empty(),
            };
            assert(cs == ls + rs);
            match node.left {
                Some(l) => {
                    lemma_tree_codes(*l, pl);
                },
                None => {},
            }
            match node.right {
                Some(r) => {
                    lemma_tree_codes(*r, pr);
                },
                None => {},
            }
            let n = prefix.len() as int;
            assert forall|i: int| 0 <= i < cs.len() implies prefix.is_prefix_of(
                (#[trigger] cs[i]).1,
            ) && cs[i].1.len() > n && cs[i].1[n] == (i >= ls.len()) by {
                if i < ls.len() {
                    assert(cs[i] == ls[i]);
                    assert(pl.is_prefix_of(ls[i].1));
                    assert(ls[i].1.subrange(0, n + 1)[n] == pl[n]);
                    assert(ls[i].1.subrange(0, n) =~= ls[i].1.subrange(0, n + 1).subrange(0, n));
                    assert(pl.subrange(0, n) =~= prefix);
                } else {
                    let k = i - ls.len();
                    assert(cs[i] == rs[k]);
                    assert(pr.is_prefix_of(rs[k].1));
                    assert(rs[k].1.subrange(0, n + 1)[n] == pr[n]);
                    assert(rs[k].1.subrange(0, n) =~= rs[k].1.subrange(0, n + 1).subrange(0, n));
                    assert(pr.subrange(0, n) =~= prefix);
                }
            }
            assert forall|i: int, j: int|
                0 <= i < cs.len() && 0 <= j < cs.len() && i != j implies !(#[trigger] cs[i]).1.is_prefix_of(
                (#[trigger] cs[j]).1,
            ) by {
                if i < ls.len() && j < ls.len() {
                    assert(cs[i] == ls[i] && cs[j] == ls[j]);
                } else if i >= ls.len() && j >= ls.len() {
                    assert(cs[i] == rs[i - ls.len()] && cs[j] == rs[j - ls.len()]);
                } else {
                    assert(cs[i].1[n] != cs[j].1[n]);
                    if cs[i].1.is_prefix_of(cs[j].1) {
                        assert(cs[j].1.subrange(0, cs[i].1.len() as int)[n] == cs[i].1[n]);
                    }
                }
            }
        },
    }
}

/// The codes of a whole tree are prefix-free.
pub proof fn lemma_root_codes(root: HuffmanNode)
    ensures
        prefix_free(tree_codes(root, Seq::<bool>::empty())),
{
    let empty = Seq::<bool>::empty();
    let cs = tree_codes(root, empty);
    match root.token {
        Some(t) => {
            assert(cs[0].1 == seq![false]);
        },
        None => {
            let pl = empty.push(false);
            let pr = empty.push(true);
            let ls = match root.left {
                Some(l) => tree_codes(*l, pl),
                None => Seq::<(u32, Seq<bool>)>::empty(),
            };
            let rs = match root.right {
                Some(r) => tree_codes(*r, pr),
                None => Seq::<(u32, Seq<bool>)>::empty(),
            };
            assert(cs == ls + rs);
            match root.left {
                Some(l) => {
                    lemma_tree_codes(*l, pl);
                },
                None => {},
            }
            match root.right {
                Some(r) => {
                    lemma_tree_codes(*r, pr);
                },
                None => {},
            }
            assert forall|i: int| 0 <= i < cs.len() implies (#[trigger] cs[i]).1.len() >= 1
                && cs[i].1[0] == (i >= ls.len()) by {
                if i < ls.len() {
                    assert(cs[i] == ls[i]);
                    assert(pl.is_prefix_of(ls[i].1));
                    assert(ls[i].1.subrange(0, 1)[0] == pl[0]);
                } else {
                    let k = i - ls.len();
                    assert(cs[i] == rs[k]);
                    assert(pr.is_prefix_of(rs[k].1));
                    assert(rs[k].1.subrange(0, 1)[0] == pr[0]);
                }
            }
            assert forall|i: int, j: int|
                0 <= i < cs.len() && 0 <= j < cs.len() && i != j implies !(#[trigger] cs[i]).1.is_prefix_of(
                (#[trigger] cs[j]).1,
            ) by {
                if i < ls.len() && j < ls.len() {
                    assert(cs[i] == ls[i] && cs[j] == ls[j]);
                } else if i >= ls.len() && j >= ls.len() {
                    assert(cs[i] == rs[i - ls.len()] && cs[j] == rs[j - ls.len()]);
                } else {
                    assert(cs[i].1[0] != cs[j].1[0]);
                    if cs[i].1.is_prefix_of(cs[j].1) {
                        assert(cs[j].1.subrange(0, cs[i].1.len() as int)[0] == cs[i].1[0]);
                    }
                }
            }
        },
    }
}

/// A leaf below a node has a code among the codes below the node.
pub proof fn lemma_leaf_has_code(node: HuffmanNode, prefix: Seq<bool>, t: u32)
    requires
        has_leaf(node, t),
    ensures
        has_code(tree_codes(node, prefix), t),
    decreases node,
{
    let cs = tree_codes(node, prefix);
    match node.token {
        Some(x) => {
            assert(cs[0].0 == t);
        },
        None => {
            let ls = match node.left {
                Some(l) => tree_codes(*l, prefix.push(false)),
                None => Seq::<(u32, Seq<bool>)>::empty(),
            };
            let rs = match node.right {
                Some(r) => tree_codes(*r, prefix.push(true)),
                None => Seq::<(u32, Seq<bool>)>::empty(),
            };
            assert(cs == ls + rs);
            let in_left = match node.left {
                Some(l) => has_leaf(*l, t),
                None => false,
            };
            if in_left {
                lemma_leaf_has_code(*node.left->Some_0, prefix.push(false), t);
                let j = choose|j: int| 0 <= j < ls.len() && (#[trigger] ls[j]).0 == t;
                assert(cs[j] == ls[j]);
            } else {
                lemma_leaf_has_code(*node.right->Some_0, prefix.push(true), t);
                let j = choose|j: int| 0 <= j < rs.len() && (#[trigger] rs[j]).0 == t;
                assert(cs[ls.len() + j] == rs[j]);
            }
        },
    }
}

/// The node of lowest frequency is one of the nodes looked at.
pub proof fn lemma_min_index(forest: Seq<HuffmanNode>, n: int)
    requires
        1 <= n <= forest.len(),
    ensures
        0 <= min_index(forest, n) < n,
    decreases n,
{
    if n > 1 {
        lemma_min_index(forest, n - 1);
    }
}

/// A merge step makes the forest one shorter and loses no leaf.
pub proof fn lemma_merge_step(forest: Seq<HuffmanNode>, t: u32)
    requires
        forest.len() >= 2,
    ensures
        merge_step(forest).len() == forest.len() - 1,
        forest_has(forest, t) ==> forest_has(merge_step(forest), t),
{
    lemma_min_index(forest, forest.len() as int);
    let r = min_index(forest, forest.len() as int);
    let rest = forest.remove(r);
    lemma_min_index(rest, rest.len() as int);
    let l = min_index(rest, rest.len() as int);
    let parent = joined(rest[l], forest[r]);
    let after = rest.remove(l).push(parent);
    assert(after == merge_step(forest));
    let last = after.len() - 1;
    assert(after[last] == parent);
    if forest_has(forest, t) {
        let i = choose|i: int| 0 <= i < forest.len() && has_leaf(#[trigger] forest[i], t);
        if i == r {
            assert(has_leaf(parent, t));
            assert(has_leaf(after[last], t));
        } else {
            let i1 = if i < r {
                i
            } else {
                i - 1
            };
            assert(rest[i1] == forest[i]);
            if i1 == l {
                assert(has_leaf(parent, t));
                assert(has_leaf(after[last], t));
            } else {
                let i2 = if i1 < l {
                    i1
                } else {
                    i1 - 1
                };
                assert(after[i2] == rest[i1]);
                assert(has_leaf(after[i2], t));
            }
        }
    }
}

/// The merged tree has every leaf of the forest.
pub proof fn lemma_merged_has(forest: Seq<HuffmanNode>, t: u32)
    requires
        forest.len() >= 1,
        forest_has(forest, t),
    ensures
        has_leaf(merged(forest), t),
    decreases forest.len(),
{
    if forest.len() >= 2 {
        lemma_merge_step(forest, t);
        lemma_merged_has(merge_step(forest), t);
    } else {
        let i = choose|i: int| 0 <= i < forest.len() && has_leaf(#[trigger] forest[i], t);
        assert(i == 0);
    }
}

/// What `count_index` finds is a count for the token.
pub proof fn lemma_count_index(freqs: Seq<(u32, usize)>, t: u32, from: int)
    requires
        0 <= from,
    ensures
        index_in_range(count_index(freqs, t, from), from, freqs.len() as int),
        count_index(freqs, t, from) >= 0 ==> freqs[count_index(freqs, t, from)].0 == t,
        forall|j: int|
            from <= j < freqs.len() && (#[trigger] freqs[j]).0 == t ==> count_index(freqs, t, from)
                >= 0,
    decreases freqs.len() - from,
{
    if from < freqs.len() && freqs[from].0 != t {
        lemma_count_index(freqs, t, from + 1);
    }
}

/// An index is -1 or lies from `from` up to `len`.
pub open spec fn index_in_range(k: int, from: int, len: int) -> bool {
    k == -1 || from <= k < len
}

/// Counting one more token keeps every token counted and counts the new one.
pub proof fn lemma_bumped(freqs: Seq<(u32, usize)>, t: u32, other: u32)
    ensures
        counted(bumped(freqs, t), t),
        counted(freqs, other) ==> counted(bumped(freqs, t), other),
{
    lemma_count_index(freqs, t, 0);
    let k = count_index(freqs, t, 0);
    let after = bumped(freqs, t);
    if k >= 0 {
        assert(after[k].0 == t);
    } else {
        assert(after[freqs.len() as int].0 == t);
    }
    if counted(freqs, other) {
        let j = choose|j: int| 0 <= j < freqs.len() && (#[trigger] freqs[j]).0 == other;
        assert(after[j].0 == other);
    }
}

/// Every token of a stream is counted.
pub proof fn lemma_frequencies_cover(tokens: Seq<u32>, i: int)
    requires
        0 <= i < tokens.len(),
    ensures
        counted(frequencies(tokens), tokens[i]),
    decreases tokens.len(),
{
    let front = tokens.drop_last();
    lemma_bumped(frequencies(front), tokens.last(), tokens[i]);
    if i < tokens.len() - 1 {
        lemma_frequencies_cover(front, i);
        assert(front[i] == tokens[i]);
    }
}

/// The code table of a token stream is prefix-free and has a code for every
/// token of the stream.
pub proof fn lemma_huffman_codes_sound(tokens: Seq<u32>)
    ensures
        prefix_free(huffman_codes(tokens)),
        forall|i: int|
            0 <= i < tokens.len() ==> code_index(huffman_codes(tokens), #[trigger] tokens[i], 0)
                >= 0,
{
    let f = frequencies(tokens);
    let codes = huffman_codes(tokens);
    if f.len() >= 2 {
        lemma_root_codes(huffman_tree(tokens));
    }
    assert forall|i: int| 0 <= i < tokens.len() implies code_index(codes, #[trigger] tokens[i], 0)
        >= 0 by {
        let t = tokens[i];
        lemma_frequencies_cover(tokens, i);
        let j = choose|j: int| 0 <= j < f.len() && (#[trigger] f[j]).0 == t;
        if f.len() == 1 {
            assert(codes[0].0 == t);
        } else {
            assert(has_leaf(leaves(f)[j], t));
            lemma_merged_has(leaves(f), t);
            lemma_leaf_has_code(huffman_tree(tokens), Seq::<bool>::empty(), t);
            let k = choose|k: int| 0 <= k < codes.len() && (#[trigger] codes[k]).0 == t;
            assert(codes[k].0 == t);
        }
        lemma_code_index(codes, t, 0);
    }
}

} // verus!
