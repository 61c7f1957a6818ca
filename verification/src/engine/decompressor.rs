use vstd::prelude::*;
use crate::engine::huffman::{
    codes_of, inserted, rebuilt, stream_bits, tree_decode, HuffmanNode,
    HuffmanTable,
};
use crate::engine::payload::{parsed_object, read_payload};
use crate::engine::tokenizer::{expand, lemma_expand_push};
use crate::storage::dictionary::Dictionary;

verus! {

/// What an encoded object decompresses to under a dictionary: the tokens that
/// its bit stream yields on the tree of its table, each expanded to its
/// bytes. Data that does not parse decompresses to nothing.
pub open spec fn decompression(pairs: Seq<(Seq<u8>, u32)>, data: Seq<u8>) -> Seq<u8> {
    match parsed_object(data) {
        None => Seq::<u8>::empty(),
        Some((codes, stream)) => expand(
            pairs,
            tree_decode(
                rebuilt(codes, codes.len() as int),
                rebuilt(codes, codes.len() as int),
                stream_bits(stream),
                0,
            ),
        ),
    }
}

/// Marks `token` at the end of the path `code[depth..]` below `node`.
fn insert_code(node: HuffmanNode, code: &Vec<bool>, depth: usize, token: u32) -> (r: HuffmanNode)
    requires
        depth <= code@.len(),
    ensures
        r == inserted(node, code@, depth as int, token),
    decreases code@.len() - depth,
{
    let HuffmanNode { freq, token: mark, left, right } = node;
    if depth >= code.len() {
        HuffmanNode { freq, token: Some(token), left, right }
    } else if code[depth] {
        let below: HuffmanNode = match right {
            Some(b) => *b,
            None => HuffmanNode { freq: 0, token: None, left: None, right: None },
        };
        HuffmanNode {
            freq,
            token: mark,
            left,
            right: Some(Box::new(insert_code(below, code, depth + 1, token))),
        }
    } else {
        let below: HuffmanNode = match left {
            Some(b) => *b,
            None => HuffmanNode { freq: 0, token: None, left: None, right: None },
        };
        HuffmanNode {
            freq,
            token: mark,
            left: Some(Box::new(insert_code(below, code, depth + 1, token))),
            right,
        }
    }
}

/// Rebuilds the decoding tree from a code table: each code walks left on
/// false and right on true from the root and marks the node it ends at with
/// its token.
pub fn rebuild_tree(encode_table: &Vec<(u32, Vec<bool>)>) -> (root: HuffmanNode)
    ensures
        root == rebuilt(codes_of(encode_table@), encode_table@.len() as int),
{
    let ghost codes = codes_of(encode_table@);
    let mut root = HuffmanNode { freq: 0, token: None, left: None, right: None };
    let mut i: usize = 0;
    while i < encode_table.len()
        invariant
            i <= encode_table@.len(),
            codes == codes_of(encode_table@),
            root == rebuilt(codes, i as int),
        decreases encode_table@.len() - i,
    {
        root = insert_code(root, &encode_table[i].1, 0, encode_table[i].0);
        i += 1;
    }
    root
}

/// Decompresses an encoded object: reads the code table and the bit stream,
/// decodes the stream into tokens on the tree of the table, and expands each
/// token: a dictionary token to its bytes, a literal token to its byte; any
/// other token is dropped. Data that does not parse gives nothing.
pub fn decompress(data: &[u8], dict: &Dictionary) -> (out: Vec<u8>)
    ensures
        out@ == decompression(dict@.pairs, data@),
{
    let (encode_table, stream) = match read_payload(data) {
        Some(parts) => parts,
        None => {
            return Vec::new();
        },
    };
    let tree: HuffmanNode = rebuild_tree(&encode_table);
    let table = HuffmanTable { encode_table, decode_tree: Some(Box::new(tree)) };
    let tokens: Vec<u32> = table.decode(stream.as_slice());
    let ghost pairs = dict@.pairs;
    let mut out: Vec<u8> = Vec::new();
    let mut i: usize = 0;
    proof {
        assert(tokens@.take(0) =~= Seq::<u32>::empty());
    }
    while i < tokens.len()
        invariant
            i <= tokens@.len(),
            pairs == dict@.pairs,
            out@ == expand(pairs, tokens@.take(i as int)),
        decreases tokens@.len() - i,
    {
        let token: u32 = tokens[i];
        proof {
            lemma_expand_push(pairs, tokens@.take(i as int), token);
            assert(tokens@.take(i + 1) =~= tokens@.take(i as int).push(token));
        }
        match dict.decode(token) {
            Some(bytes) => {
                out.extend_from_slice(bytes.as_slice());
            },
            None => {
                if token <= 255 {
                    out.push(token as u8);
                    proof {
                        assert(out@ =~= expand(pairs, tokens@.take(i as int)) + seq![token as u8]);
                    }
                } else {
                    proof {
                        assert(out@ =~= out@ + Seq::<u8>::empty());
                    }
                }
            },
        }
        i += 1;
    }
    proof {
        assert(tokens@.take(i as int) =~= tokens@);
    }
    out
}

} // verus!
