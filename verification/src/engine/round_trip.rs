use vstd::prelude::*;
use crate::engine::bits::{byte_len, lemma_pack_round_trip, packed, unpacked};
use crate::engine::compressor::{dictionary_after, lemma_learned_consistent, object_payload};
use crate::engine::planner::planned;
use crate::storage::dictionary::DictionaryView;
use crate::engine::decompressor::decompression;
use crate::engine::huffman::{
    encode_bits, frequencies, huffman_codes, stream_bit_count, stream_bits, stream_bytes,
};
use crate::engine::payload::{
    entry_bytes, entry_code, parsed_entries, parsed_object, payload_bytes, table_bytes,
};
use crate::engine::prefix_code::{lemma_decode_encode, lemma_huffman_codes_sound};
use crate::engine::tokenizer::{lemma_tokenize_expand, pairs_consistent, tokenization};
use crate::utils::bytes::{lemma_u32_be_round_trip, u32_at, u32_be};

verus! {

/// The payload format can hold the table and the stream: fewer than 2^32
/// table entries, no code longer than 255 bits, and a bit stream of fewer
/// than 2^32 bytes.
pub open spec fn format_holds(codes: Seq<(u32, Seq<bool>)>, stream: Seq<u8>) -> bool {
    &&& codes.len() < 0x1_0000_0000
    &&& stream.len() < 0x1_0000_0000
    &&& forall|i: int| 0 <= i < codes.len() ==> (#[trigger] codes[i]).1.len() <= 255
}

/// The payload format can hold the encoded form of `input` under `pairs`.
pub open spec fn payload_fits(pairs: Seq<(Seq<u8>, u32)>, input: Seq<u8>) -> bool {
    let tokens = tokenization(pairs, input);
    let codes = huffman_codes(tokens);
    format_holds(codes, stream_bytes(encode_bits(codes, tokens)))
}

/// A bit stream written out and read back is the same bit stream.
pub proof fn lemma_stream_round_trip(bits: Seq<bool>)
    ensures
        stream_bits(stream_bytes(bits)) == bits,
{
    let data = stream_bytes(bits);
    lemma_pack_round_trip(bits);
    assert(data.skip(1) =~= packed(bits));
    if bits.len() == 0 {
        assert(stream_bits(data) =~= bits);
    } else {
        assert(stream_bit_count(data) == bits.len());
    }
}

/// A number written big-endian into a byte string is read back from there.
pub proof fn lemma_u32_inside(before: Seq<u8>, v: u32, after: Seq<u8>)
    ensures
        u32_at(before + u32_be(v) + after, before.len() as int) == v,
{
    lemma_u32_be_round_trip(v);
    let s = before + u32_be(v) + after;
    let at = before.len() as int;
    assert(s[at] == u32_be(v)[0]);
    assert(s[at + 1] == u32_be(v)[1]);
    assert(s[at + 2] == u32_be(v)[2]);
    assert(s[at + 3] == u32_be(v)[3]);
}

/// A table written into a byte string is read back from there, entry by
/// entry.
pub proof fn lemma_table_round_trip(
    before: Seq<u8>,
    codes: Seq<(u32, Seq<bool>)>,
    after: Seq<u8>,
)
    requires
        forall|i: int| 0 <= i < codes.len() ==> (#[trigger] codes[i]).1.len() <= 255,
    ensures
        parsed_entries(
            before + table_bytes(codes) + after,
            before.len() as int,
            codes.len() as int,
        ) == Some((codes, (before.len() + table_bytes(codes).len()) as int)),
    decreases codes.len(),
{
    let data = before + table_bytes(codes) + after;
    let at = before.len() as int;
    if codes.len() == 0 {
        assert(parsed_entries(data, at, 0) == Some((Seq::<(u32, Seq<bool>)>::empty(), at)));
        assert(codes =~= Seq::<(u32, Seq<bool>)>::empty());
    } else {
        let e = codes[0];
        let rest = codes.skip(1);
        let code = e.1;
        let bl = byte_len(code.len() as int);
        let eb = entry_bytes(e);
        let lens = seq![(code.len() % 256) as u8, (bl % 256) as u8];
        lemma_pack_round_trip(code);
        assert(eb == u32_be(e.0) + lens + packed(code));
        assert(eb.len() == 6 + bl);
        let tail = packed(code) + table_bytes(rest) + after;
        assert(data =~= before + u32_be(e.0) + (lens + tail));
        lemma_u32_inside(before, e.0, lens + tail);
        assert(data[at + 4] == lens[0]);
        assert(data[at + 5] == lens[1]);
        assert(data[at + 5] == bl);
        assert(data.subrange(at + 6, at + 6 + bl) =~= packed(code));
        assert(entry_code(data, at) == unpacked(packed(code), code.len() as int));
        assert forall|i: int| 0 <= i < rest.len() implies (#[trigger] rest[i]).1.len() <= 255 by {
            assert(rest[i] == codes[i + 1]);
        }
        lemma_table_round_trip(before + eb, rest, after);
        assert(data =~= (before + eb) + table_bytes(rest) + after);
        assert(seq![e] + rest =~= codes);
    }
}

/// An encoded object that the format can hold is read back as the table and
/// the stream that were written.
pub proof fn lemma_payload_round_trip(codes: Seq<(u32, Seq<bool>)>, stream: Seq<u8>)
    requires
        format_holds(codes, stream),
    ensures
        parsed_object(payload_bytes(codes, stream)) == Some((codes, stream)),
{
    let data = payload_bytes(codes, stream);
    let n = codes.len() as u32;
    let m = stream.len() as u32;
    let empty = Seq::<u8>::empty();
    let body = table_bytes(codes) + u32_be(m) + stream;
    assert(data =~= empty + u32_be(n) + body);
    lemma_u32_inside(empty, n, body);
    lemma_u32_be_round_trip(n);
    lemma_u32_be_round_trip(m);
    let head = u32_be(n);
    lemma_table_round_trip(head, codes, u32_be(m) + stream);
    assert(data =~= head + table_bytes(codes) + (u32_be(m) + stream));
    let at: int = 4 + table_bytes(codes).len() as int;
    assert(data =~= (head + table_bytes(codes)) + u32_be(m) + stream);
    lemma_u32_inside(head + table_bytes(codes), m, stream);
    assert(data.subrange(at + 4, at + 4 + m) =~= stream);
}

/// Round trip: what `compress` writes for an input under a consistent
/// dictionary, `decompress` reads back as that input under the same
/// dictionary, whenever the payload format can hold the encoded form.
pub proof fn lemma_round_trip(pairs: Seq<(Seq<u8>, u32)>, input: Seq<u8>)
    requires
        pairs_consistent(pairs),
        payload_fits(pairs, input),
    ensures
        decompression(pairs, object_payload(pairs, input)) == input,
{
    let tokens = tokenization(pairs, input);
    let codes = huffman_codes(tokens);
    let bits = encode_bits(codes, tokens);
    let stream = stream_bytes(bits);
    lemma_payload_round_trip(codes, stream);
    lemma_stream_round_trip(bits);
    lemma_huffman_codes_sound(tokens);
    lemma_decode_encode(codes, tokens);
    lemma_tokenize_expand(pairs, input);
}

/// The empty input has a payload that the format holds: an empty table and a
/// stream of the one byte that counts the bits of the last byte.
pub proof fn lemma_empty_fits(pairs: Seq<(Seq<u8>, u32)>)
    ensures
        payload_fits(pairs, Seq::<u8>::empty()),
        object_payload(pairs, Seq::<u8>::empty()) == seq![0u8, 0u8, 0u8, 0u8, 0u8, 0u8, 0u8, 1u8, 0u8],
{
    let input = Seq::<u8>::empty();
    let tokens = tokenization(pairs, input);
    assert(tokens =~= Seq::<u32>::empty());
    assert(frequencies(tokens) =~= Seq::<(u32, usize)>::empty());
    let codes = huffman_codes(tokens);
    assert(codes =~= Seq::<(u32, Seq<bool>)>::empty());
    let bits = encode_bits(codes, tokens);
    assert(bits =~= Seq::<bool>::empty());
    assert(packed(bits) =~= Seq::<u8>::empty());
    let stream = stream_bytes(bits);
    assert(stream =~= seq![0u8]);
    assert(table_bytes(codes) =~= Seq::<u8>::empty());
    assert(u32_be(0u32) =~= seq![0u8, 0u8, 0u8, 0u8]) by {
        assert((0u32 >> 24) as u8 == 0 && ((0u32 >> 16) & 0xff) as u8 == 0 && ((0u32 >> 8) & 0xff) as u8
            == 0 && (0u32 & 0xff) as u8 == 0) by (bit_vector);
    }
    assert(u32_be(1u32) =~= seq![0u8, 0u8, 0u8, 1u8]) by {
        assert((1u32 >> 24) as u8 == 0 && ((1u32 >> 16) & 0xff) as u8 == 0 && ((1u32 >> 8) & 0xff) as u8
            == 0 && (1u32 & 0xff) as u8 == 1) by (bit_vector);
    }
    assert(object_payload(pairs, input) =~= seq![0u8, 0u8, 0u8, 0u8, 0u8, 0u8, 0u8, 1u8, 0u8]);
}

/// The empty input round-trips under every consistent dictionary.
pub proof fn lemma_empty_round_trip(pairs: Seq<(Seq<u8>, u32)>)
    requires
        pairs_consistent(pairs),
    ensures
        decompression(pairs, object_payload(pairs, Seq::<u8>::empty())) == Seq::<u8>::empty(),
{
    lemma_empty_fits(pairs);
    lemma_round_trip(pairs, Seq::<u8>::empty());
}

/// Round trip through the upload path: the payload that `compress` returns
/// for an input, decompressed under the dictionary as `compress` leaves it,
/// is the input, for every dictionary that keeps the inverse mapping and
/// every input whose encoded form the payload format can hold.
pub proof fn lemma_compress_round_trip(d: DictionaryView, input: Seq<u8>)
    requires
        pairs_consistent(d.pairs),
        payload_fits(dictionary_after(d, input).pairs, input),
    ensures
        pairs_consistent(dictionary_after(d, input).pairs),
        decompression(
            dictionary_after(d, input).pairs,
            object_payload(dictionary_after(d, input).pairs, input),
        ) == input,
{
    if !d.frozen {
        lemma_learned_consistent(d, planned(input, 16), planned(input, 16).len() as int);
    }
    lemma_round_trip(dictionary_after(d, input).pairs, input);
}

} // verus!
