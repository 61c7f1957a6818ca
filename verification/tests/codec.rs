use symvea::engine::bits::{pack_bits, unpack_bits};
use symvea::engine::compressor::{compress, encode_object};
use symvea::engine::config::EngineConfig;
use symvea::engine::decompressor::{decompress, rebuild_tree};
use symvea::engine::hash::{content_hash_hex, sha256, to_hex};
use symvea::engine::huffman::HuffmanTable;
use symvea::engine::payload::{read_payload, write_payload};
use symvea::engine::planner::plan_symbols;
use symvea::engine::symbols::Symbol;
use symvea::engine::tokenizer::tokenize;
use symvea::storage::dictionary::Dictionary;
use symvea::storage::symbols::SymbolStore;

fn hex_of(bytes: &[u8]) -> String {
    to_hex(bytes)
}

#[test]
fn tiny_round_trip() {
    let input = b"hello world hello world".to_vec();
    let mut dict = Dictionary::new("global", 1);
    let mut store = SymbolStore::new();
    let (payload, infos, breakdown) = compress(&input, &mut dict, &mut store, "hello", 2);
    assert_eq!(hex_of(&payload), "000000020000013401010000000196010180000000020280");
    assert_eq!(payload.len(), 24);
    assert_eq!(infos.len(), 158);
    assert_eq!(dict.len(), 158);
    assert_eq!(breakdown.symbol_bytes, 23);
    assert_eq!(breakdown.literal_bytes, 0);
    assert_eq!(breakdown.literal_reason, "Below promotion threshold");
    assert_eq!(decompress(&payload, &dict), input);
}

#[test]
fn empty_input_round_trip() {
    let mut dict = Dictionary::new("global", 1);
    let mut store = SymbolStore::new();
    let (payload, infos, breakdown) = compress(&[], &mut dict, &mut store, "empty", 2);
    assert_eq!(payload, vec![0, 0, 0, 0, 0, 0, 0, 1, 0]);
    assert!(infos.is_empty());
    assert_eq!(breakdown.symbol_bytes, 0);
    assert_eq!(breakdown.literal_bytes, 0);
    assert_eq!(decompress(&payload, &dict), Vec::<u8>::new());
}

#[test]
fn single_repeated_byte_round_trip() {
    let input = vec![b'a'; 2];
    let mut dict = Dictionary::new("global", 1);
    let mut store = SymbolStore::new();
    let (payload, _infos, breakdown) = compress(&input, &mut dict, &mut store, "aa", 2);
    assert_eq!(hex_of(&payload), "0000000100000061010100000000020200");
    assert_eq!(breakdown.literal_bytes, 2);
    assert_eq!(breakdown.symbol_bytes, 0);
    assert_eq!(decompress(&payload, &dict), input);
}

#[test]
fn long_run_of_one_byte_round_trips() {
    let input = vec![7u8; 300];
    let mut dict = Dictionary::new("global", 1);
    let mut store = SymbolStore::new();
    let (payload, _infos, breakdown) = compress(&input, &mut dict, &mut store, "run", 2);
    assert_eq!(breakdown.symbol_bytes + breakdown.literal_bytes, 300);
    assert_eq!(decompress(&payload, &dict), input);
}

#[test]
fn round_trip_survives_later_uploads() {
    let first = b"the quick brown fox jumps over the lazy dog, the quick brown fox".to_vec();
    let second = b"pack my box with five dozen liquor jugs, pack my box again".to_vec();
    let mut dict = Dictionary::new("global", 1);
    let mut store = SymbolStore::new();
    let (first_payload, _, _) = compress(&first, &mut dict, &mut store, "one", 2);
    let (second_payload, _, second_breakdown) = compress(&second, &mut dict, &mut store, "two", 3);
    assert_eq!(second_breakdown.symbol_bytes + second_breakdown.literal_bytes, second.len() as u64);
    assert_eq!(decompress(&second_payload, &dict), second);
    assert_eq!(decompress(&first_payload, &dict), first);
}

#[test]
fn binary_input_round_trips() {
    let mut input = Vec::new();
    for i in 0..600u32 {
        input.push((i.wrapping_mul(37) % 251) as u8);
    }
    let mut dict = Dictionary::new("global", 1);
    let mut store = SymbolStore::new();
    let (payload, _, breakdown) = compress(&input, &mut dict, &mut store, "bin", 2);
    assert_eq!(breakdown.symbol_bytes + breakdown.literal_bytes, 600);
    assert_eq!(decompress(&payload, &dict), input);
}

#[test]
fn encode_object_leaves_the_dictionary_alone() {
    let mut dict = Dictionary::new("global", 1);
    assert!(dict.insert(b"ab".to_vec(), 256));
    let (payload, breakdown) = encode_object(b"abxab", &dict);
    assert_eq!(dict.len(), 1);
    assert_eq!(breakdown.symbol_bytes, 4);
    assert_eq!(breakdown.literal_bytes, 1);
    assert_eq!(decompress(&payload, &dict), b"abxab".to_vec());
}

#[test]
fn decompress_of_malformed_data_is_empty() {
    let dict = Dictionary::new("global", 1);
    assert_eq!(decompress(&[], &dict), Vec::<u8>::new());
    assert_eq!(decompress(&[0, 0, 0], &dict), Vec::<u8>::new());
    // one table entry announced, none present
    assert_eq!(decompress(&[0, 0, 0, 1, 0, 0], &dict), Vec::<u8>::new());
    // stream length larger than what follows
    assert_eq!(decompress(&[0, 0, 0, 0, 0, 0, 0, 9, 0], &dict), Vec::<u8>::new());
}

#[test]
fn decompress_drops_unknown_tokens() {
    // table: token 300 -> code 0, token 65 -> code 1; stream bits 0 1
    let table = vec![(300u32, vec![false]), (65u32, vec![true])];
    let payload = write_payload(&table, &[2, 0b0100_0000]);
    let dict = Dictionary::new("global", 1);
    assert_eq!(decompress(&payload, &dict), vec![65u8]);
}

#[test]
fn planner_ranks_by_gain() {
    let planned = plan_symbols(b"abcabcabc", 16);
    let got: Vec<(Vec<u8>, u32, isize)> =
        planned.iter().map(|s| (s.bytes.clone(), s.token, s.gain)).collect();
    let want: Vec<(&[u8], u32, isize)> = vec![
        (b"abcabc", 265, 8),
        (b"abcabcabc", 273, 7),
        (b"abcab", 262, 6),
        (b"bcabc", 263, 6),
        (b"abcabcab", 271, 6),
        (b"bcabcabc", 272, 6),
        (b"abcabca", 268, 5),
        (b"bcabcab", 269, 5),
        (b"cabcabc", 270, 5),
        (b"abca", 259, 4),
        (b"bcab", 260, 4),
        (b"cabc", 261, 4),
        (b"bcabca", 266, 4),
        (b"cabcab", 267, 4),
        (b"abc", 256, 3),
        (b"cabca", 264, 3),
        (b"bca", 257, 2),
        (b"cab", 258, 2),
    ];
    assert_eq!(got.len(), want.len());
    for (g, w) in got.iter().zip(want.iter()) {
        assert_eq!(g.0.as_slice(), w.0);
        assert_eq!(g.1, w.1);
        assert_eq!(g.2, w.2);
    }
}

#[test]
fn planner_respects_the_length_cap() {
    let data = vec![b'z'; 200];
    let planned = plan_symbols(&data, 64);
    assert!(!planned.is_empty());
    assert!(planned.iter().all(|s| s.bytes.len() >= 3 && s.bytes.len() <= 16));
    assert!(planned.iter().all(|s| s.token >= 256 && s.gain > 0));
    let capped = plan_symbols(&data, 4);
    assert!(capped.iter().all(|s| s.bytes.len() <= 4));
    assert_eq!(capped.len(), 2);
    assert!(plan_symbols(&data, 1).is_empty());
    assert!(plan_symbols(b"ab", 16).is_empty());
}

#[test]
fn planner_returns_at_most_a_thousand() {
    let mut data = Vec::new();
    for i in 0..150u32 {
        data.push((i % 256) as u8);
        data.push((i / 3 % 256) as u8);
    }
    let twice: Vec<u8> = data.iter().chain(data.iter()).cloned().collect();
    let planned = plan_symbols(&twice, 16);
    assert_eq!(planned.len(), 1000);
    for pair in planned.windows(2) {
        assert!(pair[0].gain >= pair[1].gain);
    }
}

#[test]
fn tokenizer_takes_the_longest_match() {
    let symbols = vec![
        Symbol::new(b"ab".to_vec(), 256, 0),
        Symbol::new(b"abc".to_vec(), 257, 0),
        Symbol::new(b"bc".to_vec(), 258, 0),
    ];
    assert_eq!(tokenize(b"abcab", &symbols), vec![257, 256]);
    assert_eq!(tokenize(b"xbcy", &symbols), vec![120, 258, 121]);
    assert_eq!(tokenize(b"", &symbols), Vec::<u32>::new());
    assert_eq!(tokenize(b"hi", &[]), vec![104, 105]);
}

#[test]
fn tokenizer_prefers_the_earlier_of_equal_lengths() {
    let symbols = vec![Symbol::new(b"ab".to_vec(), 300, 0), Symbol::new(b"ab".to_vec(), 301, 0)];
    assert_eq!(tokenize(b"ab", &symbols), vec![300]);
}

#[test]
fn huffman_table_of_a_small_stream() {
    let table = HuffmanTable::build(&[1, 1, 2, 3]);
    assert_eq!(
        table.encode_table,
        vec![(3, vec![false, false]), (2, vec![false, true]), (1, vec![true])]
    );
    let root = table.decode_tree.as_ref().unwrap();
    assert_eq!(root.freq, 4);
    assert_eq!(root.token, None);
    assert_eq!(root.right.as_ref().unwrap().token, Some(1));
    let stream = table.encode(&[1, 1, 2, 3]);
    assert_eq!(stream, vec![6, 0xd0]);
    assert_eq!(table.decode(&stream), vec![1, 1, 2, 3]);
}

#[test]
fn huffman_single_token_special_case() {
    let table = HuffmanTable::build(&[9, 9, 9]);
    assert_eq!(table.encode_table, vec![(9, vec![false])]);
    assert!(table.decode_tree.is_none());
    let stream = table.encode(&[9, 9, 9]);
    assert_eq!(stream, vec![3, 0]);
    assert_eq!(table.decode(&stream), vec![9, 9, 9]);
}

#[test]
fn huffman_empty_stream() {
    let table = HuffmanTable::build(&[]);
    assert!(table.encode_table.is_empty());
    assert!(table.decode_tree.is_none());
    assert_eq!(table.encode(&[]), vec![0]);
    assert_eq!(table.decode(&[0]), Vec::<u32>::new());
    assert_eq!(table.decode(&[]), Vec::<u32>::new());
}

#[test]
fn huffman_full_last_byte_has_tail_zero() {
    let table = HuffmanTable::build(&[5, 6]);
    let tokens = vec![5, 6, 5, 6, 5, 6, 5, 6];
    let stream = table.encode(&tokens);
    assert_eq!(stream.len(), 2);
    assert_eq!(stream[0], 0);
    assert_eq!(table.decode(&stream), tokens);
}

#[test]
fn huffman_skips_tokens_without_code() {
    let table = HuffmanTable::build(&[5, 6]);
    assert_eq!(table.encode(&[5, 77, 6]), table.encode(&[5, 6]));
}

#[test]
fn huffman_decode_stops_where_the_tree_ends() {
    // only code 0 is known; the second bit is 1
    let table = HuffmanTable {
        encode_table: vec![(4, vec![false])],
        decode_tree: Some(Box::new(rebuild_tree(&vec![(4, vec![false])]))),
    };
    assert_eq!(table.decode(&[3, 0b0100_0000]), vec![4]);
    // a tail count above eight is malformed
    assert_eq!(table.decode(&[9, 0]), Vec::<u32>::new());
}

#[test]
fn rebuilt_tree_marks_each_code() {
    let root = rebuild_tree(&vec![(10, vec![false]), (11, vec![true, false]), (12, vec![true, true])]);
    assert_eq!(root.token, None);
    assert_eq!(root.left.as_ref().unwrap().token, Some(10));
    let right = root.right.as_ref().unwrap();
    assert_eq!(right.token, None);
    assert_eq!(right.left.as_ref().unwrap().token, Some(11));
    assert_eq!(right.right.as_ref().unwrap().token, Some(12));
}

#[test]
fn payload_layout_is_big_endian() {
    let table = vec![(0x0102_0304u32, vec![true, false, true])];
    let payload = write_payload(&table, &[3, 0xa0]);
    assert_eq!(
        payload,
        vec![0, 0, 0, 1, 1, 2, 3, 4, 3, 1, 0b1010_0000, 0, 0, 0, 2, 3, 0xa0]
    );
    let (back, stream) = read_payload(&payload).unwrap();
    assert_eq!(back, table);
    assert_eq!(stream, vec![3, 0xa0]);
    assert!(read_payload(&payload[..payload.len() - 1]).is_none());
}

#[test]
fn bits_pack_most_significant_first() {
    let bits = vec![true, false, false, false, false, false, false, true, true];
    assert_eq!(pack_bits(&bits), vec![0x81, 0x80]);
    assert_eq!(unpack_bits(&[0x81, 0x80], 9), bits);
    assert_eq!(pack_bits(&[]), Vec::<u8>::new());
}

#[test]
fn hashes_are_those_of_the_content() {
    assert_eq!(
        hex_of(&sha256(b"abc")),
        "ba7816bf8f01cfea414140de5dae2223b00361a396177a9cb410ff61f20015ad"
    );
    assert_eq!(
        hex_of(&sha256(b"")),
        "e3b0c44298fc1c149afbf4c8996fb92427ae41e4649b934ca495991b7852b855"
    );
    assert_eq!(content_hash_hex(b"abc"), "ba7816bf8f01cfea414140de5dae2223");
    assert_eq!(to_hex(&[0x00, 0x0f, 0xa5, 0xff]), "000fa5ff");
}

#[test]
fn symbol_identity_is_a_function_of_content() {
    let a = Symbol::new(b"abc".to_vec(), 256, 3);
    let b = Symbol::new(b"abc".to_vec(), 999, 0);
    assert_eq!(a.hash, "ba7816bf8f01cfea414140de5dae2223");
    assert_eq!(a.hash, b.hash);
    assert_eq!(a.symbol_id(), "sym:ba7816bf8f01cfea414140de5dae2223");
    assert_eq!(a.token, 256);
    assert_eq!(a.gain, 3);
    let copy = a.duplicate();
    assert_eq!(copy.bytes, a.bytes);
    assert_eq!(copy.hash, a.hash);
}

#[test]
fn engine_config_defaults() {
    let c = EngineConfig::default();
    assert_eq!(c.max_symbol_len, 64);
    assert_eq!(c.min_gain_bytes, 2);
    assert!(c.allow_user_dict);
    assert!(c.allow_global_dict);
}

#[test]
fn large_input_is_planned_from_a_sample() {
    // above the sampling threshold only the first twentieth is mined
    let mut data = vec![0u8; 1_048_577];
    for (i, b) in data.iter_mut().enumerate() {
        *b = (i % 7) as u8;
    }
    let tail_only = b"\xf0\xf1\xf2\xf3\xf0\xf1\xf2\xf3";
    let at = data.len() - tail_only.len();
    data[at..].copy_from_slice(tail_only);
    let planned = plan_symbols(&data, 16);
    assert!(!planned.is_empty());
    assert!(planned.iter().all(|s| s.bytes.iter().all(|b| *b < 7)));
}
