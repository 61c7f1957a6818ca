use vstd::prelude::*;
use crate::engine::bits::{mask_of, pack_bits, packed, unpacked, bit_at};

verus! {

/// A node of the code tree: a leaf carries a token, an inner node its two
/// children. `freq` is the number of occurrences below the node.
#[derive(Debug)]
pub struct HuffmanNode {
    pub freq: usize,
    pub token: Option<u32>,
    pub left: Option<Box<HuffmanNode>>,
    pub right: Option<Box<HuffmanNode>>,
}

/// A per-object prefix code: the code of each token, in the order the table
/// is written out, and the tree that decodes it.
#[derive(Debug)]
pub struct HuffmanTable {
    pub encode_table: Vec<(u32, Vec<bool>)>,
    pub decode_tree: Option<Box<HuffmanNode>>,
}

/// The table as plain values: token and code bits.
pub open spec fn codes_of(table: Seq<(u32, Vec<bool>)>) -> Seq<(u32, Seq<bool>)> {
    Seq::new(table.len(), |i: int| (table[i].0, table[i].1@))
}

/// Index of the first count at or after `from` that is kept for token `t`, or -1.
pub open spec fn count_index(freqs: Seq<(u32, usize)>, t: u32, from: int) -> int
    decreases freqs.len() - from,
{
    if from < 0 || from >= freqs.len() {
        -1
    } else if freqs[from].0 == t {
        from
    } else {
        count_index(freqs, t, from + 1)
    }
}

/// The counts after one more occurrence of `t`: its count raised by one, or a
/// new count of one at the end.
pub open spec fn bumped(freqs: Seq<(u32, usize)>, t: u32) -> Seq<(u32, usize)> {
    let k = count_index(freqs, t, 0);
    if k >= 0 {
        freqs.update(k, (t, (freqs[k].1 + 1) as usize))
    } else {
        freqs.push((t, 1usize))
    }
}

/// How often each distinct token occurs, in the order of first occurrence.
pub open spec fn frequencies(tokens: Seq<u32>) -> Seq<(u32, usize)>
    decreases tokens.len(),
{
    if tokens.len() == 0 {
        Seq::<(u32, usize)>::empty()
    } else {
        bumped(frequencies(tokens.drop_last()), tokens.last())
    }
}

/// A leaf for a token that occurs `freq` times.
pub open spec fn leaf(token: u32, freq: usize) -> HuffmanNode {
    HuffmanNode { freq, token: Some(token), left: None, right: None }
}

/// One leaf per count, in order.
pub open spec fn leaves(freqs: Seq<(u32, usize)>) -> Seq<HuffmanNode> {
    Seq::new(freqs.len(), |i: int| leaf(freqs[i].0, freqs[i].1))
}

/// The sum of two frequencies, held at the largest number where it would pass it.
pub open spec fn capped_sum(a: usize, b: usize) -> usize {
    if a + b > usize::MAX {
        usize::MAX
    } else {
        (a + b) as usize
    }
}

/// The inner node over two subtrees.
pub open spec fn joined(left: HuffmanNode, right: HuffmanNode) -> HuffmanNode {
    HuffmanNode {
        freq: capped_sum(left.freq, right.freq),
        token: None,
        left: Some(Box::new(left)),
        right: Some(Box::new(right)),
    }
}

/// Index of the node of lowest frequency among the first `n`; the earliest of
/// several.
pub open spec fn min_index(forest: Seq<HuffmanNode>, n: int) -> int
    decreases n,
{
    if n <= 1 {
        0
    } else {
        let m = min_index(forest, n - 1);
        if forest[n - 1].freq < forest[m].freq {
            n - 1
        } else {
            m
        }
    }
}

/// One step of the construction: the node of lowest frequency leaves the
/// forest and becomes the right child, the lowest of the rest leaves and
/// becomes the left child, and their parent joins the forest at the end.
pub open spec fn merge_step(forest: Seq<HuffmanNode>) -> Seq<HuffmanNode> {
    let r = min_index(forest, forest.len() as int);
    let rest = forest.remove(r);
    let l = min_index(rest, rest.len() as int);
    rest.remove(l).push(joined(rest[l], forest[r]))
}

/// The tree that is left when the forest has been merged down to one node.
pub open spec fn merged(forest: Seq<HuffmanNode>) -> HuffmanNode
    decreases forest.len(),
{
    if forest.len() <= 1 || merge_step(forest).len() >= forest.len() {
        forest[0]
    } else {
        merged(merge_step(forest))
    }
}

/// The codes of the leaves below `node`, left to right, `prefix` being the
/// path to `node`: false for a left descent, true for a right one. A leaf at
/// the root gets the one-bit code false.
pub open spec fn tree_codes(node: HuffmanNode, prefix: Seq<bool>) -> Seq<(u32, Seq<bool>)>
    decreases node,
{
    match node.token {
        Some(t) => seq![
            (
                t,
                if prefix.len() == 0 {
                    seq![false]
                } else {
                    prefix
                },
            ),
        ],
        None => (match node.left {
            Some(l) => tree_codes(*l, prefix.push(false)),
            None => Seq::<(u32, Seq<bool>)>::empty(),
        }) + (match node.right {
            Some(r) => tree_codes(*r, prefix.push(true)),
            None => Seq::<(u32, Seq<bool>)>::empty(),
        }),
    }
}

/// The code tree of a token stream with at least two distinct tokens.
pub open spec fn huffman_tree(tokens: Seq<u32>) -> HuffmanNode {
    merged(leaves(frequencies(tokens)))
}

/// The code table of a token stream: empty for no token, the single code
/// false for one distinct token, else the codes of the code tree.
pub open spec fn huffman_codes(tokens: Seq<u32>) -> Seq<(u32, Seq<bool>)> {
    let f = frequencies(tokens);
    if f.len() == 0 {
        Seq::<(u32, Seq<bool>)>::empty()
    } else if f.len() == 1 {
        seq![(f[0].0, seq![false])]
    } else {
        tree_codes(huffman_tree(tokens), Seq::<bool>::empty())
    }
}

/// Index of the first table entry at or after `from` for token `t`, or -1.
pub open spec fn code_index(codes: Seq<(u32, Seq<bool>)>, t: u32, from: int) -> int
    decreases codes.len() - from,
{
    if from < 0 || from >= codes.len() {
        -1
    } else if codes[from].0 == t {
        from
    } else {
        code_index(codes, t, from + 1)
    }
}

/// The bits a token is written as: its code, or nothing where the table has
/// none for it.
pub open spec fn code_bits(codes: Seq<(u32, Seq<bool>)>, t: u32) -> Seq<bool> {
    let k = code_index(codes, t, 0);
    if k >= 0 {
        codes[k].1
    } else {
        Seq::<bool>::empty()
    }
}

/// The bits of a token stream: the codes of its tokens, one after another.
pub open spec fn encode_bits(codes: Seq<(u32, Seq<bool>)>, tokens: Seq<u32>) -> Seq<bool>
    decreases tokens.len(),
{
    if tokens.len() == 0 {
        Seq::<bool>::empty()
    } else {
        encode_bits(codes, tokens.drop_last()) + code_bits(codes, tokens.last())
    }
}

/// A bit stream as bytes: first the number of bits used in the last byte (0
/// where it is full), then the bits packed most significant first.
pub open spec fn stream_bytes(bits: Seq<bool>) -> Seq<u8> {
    seq![(bits.len() % 8) as u8] + packed(bits)
}

/// Number of bits a stream carries. A stream without data bytes carries none;
/// neither does one whose first byte claims more than eight bits for the last.
pub open spec fn stream_bit_count(data: Seq<u8>) -> int {
    if data.len() < 2 || data[0] > 8 {
        0
    } else if data[0] == 0 {
        8 * (data.len() - 1)
    } else {
        8 * (data.len() - 2) + data[0]
    }
}

/// The bits a stream carries.
pub open spec fn stream_bits(data: Seq<u8>) -> Seq<bool> {
    unpacked(data.skip(1), stream_bit_count(data))
}

/// The child of `node` on the side that `bit` names.
pub open spec fn child(node: HuffmanNode, bit: bool) -> Option<HuffmanNode> {
    if bit {
        match node.right {
            Some(r) => Some(*r),
            None => None,
        }
    } else {
        match node.left {
            Some(l) => Some(*l),
            None => None,
        }
    }
}

/// The tokens that a walk of the tree yields, `cur` being the node reached
/// before bit `i`: each bit descends one level; a node that carries a token
/// yields it and the walk starts again at the root; a missing child ends it.
pub open spec fn tree_decode(root: HuffmanNode, cur: HuffmanNode, bits: Seq<bool>, i: int) -> Seq<
    u32,
>
    decreases bits.len() - i,
{
    if i < 0 || i >= bits.len() {
        Seq::<u32>::empty()
    } else {
        match child(cur, bits[i]) {
            None => Seq::<u32>::empty(),
            Some(next) => match next.token {
                Some(t) => seq![t] + tree_decode(root, root, bits, i + 1),
                None => tree_decode(root, next, bits, i + 1),
            },
        }
    }
}

/// What a stream decodes to: with a tree, the walk of it; without one, the
/// table's first token once for each bit.
pub open spec fn decoded(
    codes: Seq<(u32, Seq<bool>)>,
    tree: Option<Box<HuffmanNode>>,
    data: Seq<u8>,
) -> Seq<u32> {
    match tree {
        Some(root) => tree_decode(*root, *root, stream_bits(data), 0),
        None => if codes.len() > 0 {
            Seq::new(stream_bit_count(data) as nat, |i: int| codes[0].0)
        } else {
            Seq::<u32>::empty()
        },
    }
}

/// A node without token and children.
pub open spec fn bare_node() -> HuffmanNode {
    HuffmanNode { freq: 0, token: None, left: None, right: None }
}

/// The subtree behind an optional child, a bare node where there is none.
pub open spec fn subtree(c: Option<Box<HuffmanNode>>) -> HuffmanNode {
    match c {
        Some(b) => *b,
        None => bare_node(),
    }
}

/// The tree with `token` marked at the end of the path `code[depth..]` below
/// `node`, missing nodes on the way being created.
pub open spec fn inserted(node: HuffmanNode, code: Seq<bool>, depth: int, token: u32) -> HuffmanNode
    decreases code.len() - depth,
{
    if depth < 0 || depth >= code.len() {
        HuffmanNode { freq: node.freq, token: Some(token), left: node.left, right: node.right }
    } else if code[depth] {
        HuffmanNode {
            freq: node.freq,
            token: node.token,
            left: node.left,
            right: Some(Box::new(inserted(subtree(node.right), code, depth + 1, token))),
        }
    } else {
        HuffmanNode {
            freq: node.freq,
            token: node.token,
            left: Some(Box::new(inserted(subtree(node.left), code, depth + 1, token))),
            right: node.right,
        }
    }
}

/// The tree that holds the first `n` codes of a table.
pub open spec fn rebuilt(codes: Seq<(u32, Seq<bool>)>, n: int) -> HuffmanNode
    decreases n,
{
    if n <= 0 {
        bare_node()
    } else {
        inserted(rebuilt(codes, n - 1), codes[n - 1].1, 0, codes[n - 1].0)
    }
}

/// Counts one more occurrence of `t`.
fn bump(freqs: &mut Vec<(u32, usize)>, t: u32, Ghost(seen): Ghost<int>)
    requires
        0 <= seen < usize::MAX,
        forall|k: int| 0 <= k < old(freqs)@.len() ==> (#[trigger] old(freqs)@[k]).1 <= seen,
    ensures
        final(freqs)@ == bumped(old(freqs)@, t),
        forall|k: int| 0 <= k < final(freqs)@.len() ==> (#[trigger] final(freqs)@[k]).1 <= seen + 1,
{
    let mut k: usize = 0;
    while k < freqs.len()
        invariant
            k <= freqs@.len(),
            freqs@ == old(freqs)@,
            0 <= seen < usize::MAX,
            forall|j: int| 0 <= j < old(freqs)@.len() ==> (#[trigger] old(freqs)@[j]).1 <= seen,
            count_index(freqs@, t, k as int) == count_index(freqs@, t, 0),
        decreases freqs@.len() - k,
    {
        if freqs[k].0 == t {
            let c: usize = freqs[k].1;
            assert(old(freqs)@[k as int].1 <= seen);
            freqs.set(k, (t, c + 1));
            assert forall|j: int| 0 <= j < freqs@.len() implies (#[trigger] freqs@[j]).1 <= seen
                + 1 by {
                if j != k {
                    assert(freqs@[j] == old(freqs)@[j]);
                }
            }
            return ;
        }
        k += 1;
    }
    freqs.push((t, 1));
    assert forall|j: int| 0 <= j < freqs@.len() implies (#[trigger] freqs@[j]).1 <= seen + 1 by {
        if j < old(freqs)@.len() {
            assert(freqs@[j] == old(freqs)@[j]);
        }
    }
}

/// How often each distinct token occurs, in the order of first occurrence.
pub fn count_tokens(tokens: &[u32]) -> (freqs: Vec<(u32, usize)>)
    ensures
        freqs@ == frequencies(tokens@),
{
    let mut freqs: Vec<(u32, usize)> = Vec::new();
    let mut i: usize = 0;
    proof {
        assert(tokens@.take(0) =~= Seq::<u32>::empty());
    }
    while i < tokens.len()
        invariant
            i <= tokens@.len(),
            freqs@ == frequencies(tokens@.take(i as int)),
            forall|k: int| 0 <= k < freqs@.len() ==> (#[trigger] freqs@[k]).1 <= i,
        decreases tokens@.len() - i,
    {
        proof {
            assert(tokens@.take(i + 1).drop_last() =~= tokens@.take(i as int));
            assert(tokens@.take(i + 1).last() == tokens@[i as int]);
        }
        bump(&mut freqs, tokens[i], Ghost(i as int));
        i += 1;
    }
    proof {
        assert(tokens@.take(i as int) =~= tokens@);
    }
    freqs
}

/// Position of the node of lowest frequency; the earliest of several.
fn lowest(forest: &Vec<HuffmanNode>) -> (m: usize)
    requires
        forest@.len() >= 1,
    ensures
        m == min_index(forest@, forest@.len() as int),
        m < forest@.len(),
{
    let mut m: usize = 0;
    let mut n: usize = 1;
    while n < forest.len()
        invariant
            1 <= n <= forest@.len(),
            m < n,
            m == min_index(forest@, n as int),
        decreases forest@.len() - n,
    {
        if forest[n].freq < forest[m].freq {
            m = n;
        }
        n += 1;
    }
    m
}

/// Appends the codes of the leaves below `node` to `table`.
fn collect_codes(node: &HuffmanNode, prefix: Vec<bool>, table: &mut Vec<(u32, Vec<bool>)>)
    ensures
        codes_of(final(table)@) == codes_of(old(table)@) + tree_codes(*node, prefix@),
    decreases *node,
{
    match node.token {
        Some(t) => {
            let code: Vec<bool> = if prefix.len() == 0 {
                vec![false]
            } else {
                prefix
            };
            proof {
                assert(code@ =~= if prefix@.len() == 0 {
                    seq![false]
                } else {
                    prefix@
                });
            }
            table.push((t, code));
            proof {
                assert(codes_of(table@) =~= codes_of(old(table)@).push((t, code@)));
                assert(tree_codes(*node, prefix@) =~= seq![(t, code@)]);
                assert(codes_of(table@) =~= codes_of(old(table)@) + tree_codes(*node, prefix@));
            }
        },
        None => {
            let ghost before = codes_of(table@);
            match &node.left {
                Some(l) => {
                    let mut path: Vec<bool> = prefix.clone();
                    path.push(false);
                    collect_codes(l, path, table);
                },
                None => {},
            }
            let ghost mid = codes_of(table@);
            match &node.right {
                Some(r) => {
                    let mut path: Vec<bool> = prefix.clone();
                    path.push(true);
                    collect_codes(r, path, table);
                },
                None => {},
            }
            proof {
                assert(codes_of(table@) =~= before + tree_codes(*node, prefix@));
            }
        },
    }
}

impl HuffmanTable {
    /// Builds the prefix code of a token stream: the two nodes of lowest
    /// frequency are joined until one tree is left, ties going to the node
    /// that came first; a left descent is the bit false, a right one true.
    pub fn build(tokens: &[u32]) -> (t: Self)
        ensures
            codes_of(t.encode_table@) == huffman_codes(tokens@),
            frequencies(tokens@).len() < 2 ==> t.decode_tree is None,
            frequencies(tokens@).len() >= 2 ==> t.decode_tree == Some(
                Box::new(huffman_tree(tokens@)),
            ),
    {
        let freqs: Vec<(u32, usize)> = count_tokens(tokens);
        let mut encode_table: Vec<(u32, Vec<bool>)> = Vec::new();
        if freqs.len() <= 1 {
            if freqs.len() == 1 {
                let single: Vec<bool> = vec![false];
                assert(single@ =~= seq![false]);
                encode_table.push((freqs[0].0, single));
                assert(codes_of(encode_table@) =~= seq![(freqs@[0].0, seq![false])]);
            }
            proof {
                assert(codes_of(encode_table@) =~= huffman_codes(tokens@));
            }
            return Self { encode_table, decode_tree: None };
        }
        let mut forest: Vec<HuffmanNode> = Vec::new();
        let mut i: usize = 0;
        while i < freqs.len()
            invariant
                i <= freqs@.len(),
                forest@ == leaves(freqs@).take(i as int),
            decreases freqs@.len() - i,
        {
            forest.push(
                HuffmanNode { freq: freqs[i].1, token: Some(freqs[i].0), left: None, right: None },
            );
            i += 1;
            proof {
                assert(forest@ =~= leaves(freqs@).take(i as int));
            }
        }
        proof {
            assert(leaves(freqs@).take(i as int) =~= leaves(freqs@));
        }
        while forest.len() > 1
            invariant
                forest@.len() >= 1,
                merged(forest@) == merged(leaves(freqs@)),
            decreases forest@.len(),
        {
            let ghost before = forest@;
            let r: usize = lowest(&forest);
            let right: HuffmanNode = forest.remove(r);
            let l: usize = lowest(&forest);
            let left: HuffmanNode = forest.remove(l);
            let freq: usize = if left.freq > usize::MAX - right.freq {
                usize::MAX
            } else {
                left.freq + right.freq
            };
            forest.push(
                HuffmanNode {
                    freq,
                    token: None,
                    left: Some(Box::new(left)),
                    right: Some(Box::new(right)),
                },
            );
            proof {
                assert(forest@ =~= merge_step(before));
            }
        }
        let root: HuffmanNode = forest.remove(0);
        collect_codes(&root, Vec::new(), &mut encode_table);
        proof {
            assert(codes_of(encode_table@) =~= huffman_codes(tokens@));
        }
        Self { encode_table, decode_tree: Some(Box::new(root)) }
    }

    /// Position of the first entry for `token`.
    fn position_of(&self, token: u32) -> (r: Option<usize>)
        ensures
            match r {
                Some(k) => code_index(codes_of(self.encode_table@), token, 0) == k && k
                    < self.encode_table@.len(),
                None => code_index(codes_of(self.encode_table@), token, 0) == -1,
            },
    {
        let ghost codes = codes_of(self.encode_table@);
        let mut k: usize = 0;
        while k < self.encode_table.len()
            invariant
                k <= self.encode_table@.len(),
                codes == codes_of(self.encode_table@),
                code_index(codes, token, k as int) == code_index(codes, token, 0),
            decreases self.encode_table@.len() - k,
        {
            if self.encode_table[k].0 == token {
                return Some(k);
            }
            k += 1;
        }
        None
    }

    /// Writes a token stream as a bit stream: the codes of the tokens one
    /// after another, packed into bytes, behind one byte that says how many
    /// bits of the last byte count. A token without a code is left out.
    pub fn encode(&self, tokens: &[u32]) -> (out: Vec<u8>)
        ensures
            out@ == stream_bytes(encode_bits(codes_of(self.encode_table@), tokens@)),
    {
        let ghost codes = codes_of(self.encode_table@);
        let mut bits: Vec<bool> = Vec::new();
        let mut i: usize = 0;
        proof {
            assert(tokens@.take(0) =~= Seq::<u32>::empty());
        }
        while i < tokens.len()
            invariant
                i <= tokens@.len(),
                codes == codes_of(self.encode_table@),
                bits@ == encode_bits(codes, tokens@.take(i as int)),
            decreases tokens@.len() - i,
        {
            proof {
                assert(tokens@.take(i + 1).drop_last() =~= tokens@.take(i as int));
                assert(tokens@.take(i + 1).last() == tokens@[i as int]);
            }
            match self.position_of(tokens[i]) {
                Some(k) => {
                    let code: &Vec<bool> = &self.encode_table[k].1;
                    let ghost before = bits@;
                    let mut j: usize = 0;
                    while j < code.len()
                        invariant
                            j <= code@.len(),
                            bits@ == before + code@.take(j as int),
                        decreases code@.len() - j,
                    {
                        bits.push(code[j]);
                        j += 1;
                        proof {
                            assert(bits@ =~= before + code@.take(j as int));
                        }
                    }
                    proof {
                        assert(code@.take(j as int) =~= code@);
                        assert(codes[k as int].1 == code@);
                    }
                },
                None => {
                    proof {
                        assert(bits@ + Seq::<bool>::empty() =~= bits@);
                    }
                },
            }
            i += 1;
        }
        proof {
            assert(tokens@.take(i as int) =~= tokens@);
        }
        let tail: usize = bits.len() % 8;
        let body: Vec<u8> = pack_bits(bits.as_slice());
        let mut out: Vec<u8> = Vec::new();
        out.push(tail as u8);
        out.extend_from_slice(body.as_slice());
        proof {
            assert(out@ =~= stream_bytes(bits@));
        }
        out
    }

    /// Reads a bit stream back into tokens. With a tree, each bit descends one
    /// level, a node with a token yields it and the walk starts again at the
    /// root; where the tree has no child for a bit the walk ends. Without a
    /// tree, the table's first token is yielded once for each bit.
    pub fn decode(&self, data: &[u8]) -> (out: Vec<u32>)
        ensures
            out@ == decoded(codes_of(self.encode_table@), self.decode_tree, data@),
    {
        let mut out: Vec<u32> = Vec::new();
        if data.len() < 2 || data[0] > 8 {
            proof {
                assert(out@ =~= decoded(codes_of(self.encode_table@), self.decode_tree, data@));
            }
            return out;
        }
        let tail: usize = data[0] as usize;
        let n: usize = data.len() - 1;
        let ghost bytes = data@.skip(1);
        let ghost total = stream_bit_count(data@);
        let ghost bits = stream_bits(data@);
        match &self.decode_tree {
            None => {
                if self.encode_table.len() == 0 {
                    return out;
                }
                let token: u32 = self.encode_table[0].0;
                let mut b: usize = 0;
                while b < n
                    invariant
                        b <= n,
                        n == data@.len() - 1,
                        1 <= n,
                        tail == data@[0],
                        tail <= 8,
                        total == stream_bit_count(data@),
                        out@ == Seq::new((if b == n { total } else { 8 * b }) as nat, |i: int| token),
                    decreases n - b,
                {
                    let width: usize = if b == n - 1 && tail > 0 {
                        tail
                    } else {
                        8
                    };
                    let ghost before = out@;
                    let mut k: usize = 0;
                    while k < width
                        invariant
                            k <= width <= 8,
                            before.len() == 8 * b,
                            out@ == before + Seq::new(k as nat, |i: int| token),
                        decreases width - k,
                    {
                        out.push(token);
                        k += 1;
                        proof {
                            assert(out@ =~= before + Seq::new(k as nat, |i: int| token));
                        }
                    }
                    b += 1;
                    proof {
                        assert(out@ =~= Seq::new(
                            (if b == n {
                                total
                            } else {
                                8 * b
                            }) as nat,
                            |i: int| token,
                        ));
                    }
                }
                out
            },
            Some(root) => {
                let mut cur: &HuffmanNode = root;
                let mut b: usize = 0;
                proof {
                    assert(out@ + tree_decode(**root, *cur, bits, 0) =~= tree_decode(
                        **root,
                        **root,
                        bits,
                        0,
                    ));
                }
                while b < n
                    invariant
                        b <= n,
                        n == data@.len() - 1,
                        1 <= n,
                        tail == data@[0],
                        tail <= 8,
                        bytes == data@.skip(1),
                        total == stream_bit_count(data@),
                        bits == stream_bits(data@),
                        self.decode_tree == Some(*root),
                        out@ + tree_decode(
                            **root,
                            *cur,
                            bits,
                            if b == n {
                                total
                            } else {
                                8 * b
                            },
                        ) == tree_decode(**root, **root, bits, 0),
                    decreases n - b,
                {
                    let width: usize = if b == n - 1 && tail > 0 {
                        tail
                    } else {
                        8
                    };
                    let byte: u8 = data[b + 1];
                    let mut k: usize = 0;
                    while k < width
                        invariant
                            k <= width <= 8,
                            b < n,
                            n == data@.len() - 1,
                            bytes == data@.skip(1),
                            byte == bytes[b as int],
                            total == stream_bit_count(data@),
                            bits == stream_bits(data@),
                            self.decode_tree == Some(*root),
                            8 * b + width <= total,
                            out@ + tree_decode(**root, *cur, bits, 8 * b + k) == tree_decode(
                                **root,
                                **root,
                                bits,
                                0,
                            ),
                        decreases width - k,
                    {
                        let bit: bool = byte & mask_of(k) != 0;
                        proof {
                            let i = 8 * b + k;
                            assert(i / 8 == b as int && i % 8 == k as int);
                            assert(bits[i] == bit_at(bytes, i));
                            assert(bits[i] == bit);
                        }
                        let next: &Option<Box<HuffmanNode>> = if bit {
                            &cur.right
                        } else {
                            &cur.left
                        };
                        match next {
                            None => {
                                proof {
                                    assert(child(*cur, bits[8 * b + k]) is None);
                                    assert(out@ + Seq::<u32>::empty() =~= out@);
                                }
                                return out;
                            },
                            Some(node) => {
                                proof {
                                    assert(child(*cur, bits[8 * b + k]) == Some(**node));
                                }
                                match node.token {
                                    Some(t) => {
                                        proof {
                                            assert(out@.push(t) + tree_decode(
                                                **root,
                                                **root,
                                                bits,
                                                8 * b + k + 1,
                                            ) =~= out@ + (seq![t] + tree_decode(
                                                **root,
                                                **root,
                                                bits,
                                                8 * b + k + 1,
                                            )));
                                        }
                                        out.push(t);
                                        cur = root;
                                    },
                                    None => {
                                        cur = node;
                                    },
                                }
                            },
                        }
                        k += 1;
                    }
                    b += 1;
                }
                proof {
                    assert(out@ + Seq::<u32>::empty() =~= out@);
                }
                out
            },
        }
    }
}

} // verus!
