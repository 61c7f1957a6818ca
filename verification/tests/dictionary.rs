use symvea::storage::dictionary::{Dictionary, DictionaryError};

#[test]
fn new_dictionary_is_empty_and_mutable() {
    let d = Dictionary::new("global", 42);
    assert_eq!(d.id(), "global");
    assert!(!d.is_frozen());
    assert_eq!(d.created_at(), 42);
    assert_eq!(d.frozen_at(), None);
    assert_eq!(d.version(), "symvea-engine@0.1.0");
    assert_eq!(d.len(), 0);
    assert!(d.symbols().is_empty());
}

#[test]
fn encode_and_decode_are_inverse() {
    let mut d = Dictionary::new("global", 0);
    assert!(d.insert(b"hello".to_vec(), 256));
    assert!(d.insert(b"world".to_vec(), 257));
    assert_eq!(d.contains(b"hello"), Some(256));
    assert_eq!(d.contains(b"world"), Some(257));
    assert_eq!(d.contains(b"other"), None);
    assert_eq!(d.decode(256), Some(&b"hello".to_vec()));
    assert_eq!(d.decode(257), Some(&b"world".to_vec()));
    assert_eq!(d.decode(258), None);
    assert_eq!(d.decode(104), None);
    let s = d.symbol_for(257).unwrap();
    assert_eq!(s.bytes, b"world".to_vec());
    assert_eq!(s.token, 257);
    assert!(d.symbol_for(300).is_none());
}

#[test]
fn insert_refuses_what_would_break_the_mapping() {
    let mut d = Dictionary::new("global", 0);
    assert!(d.insert(b"ab".to_vec(), 256));
    // bytes already present
    assert!(!d.insert(b"ab".to_vec(), 300));
    // token already taken
    assert!(!d.insert(b"cd".to_vec(), 256));
    // literal range
    assert!(!d.insert(b"cd".to_vec(), 255));
    // empty and over-long bytes
    assert!(!d.insert(Vec::new(), 301));
    assert!(!d.insert(vec![1u8; 65], 301));
    assert!(d.insert(vec![1u8; 64], 301));
    assert!(d.insert(vec![2u8], 302));
    assert_eq!(d.len(), 3);
    assert_eq!(d.contains(b"ab"), Some(256));
    assert_eq!(d.decode(256), Some(&b"ab".to_vec()));
}

#[test]
fn frozen_dictionary_takes_nothing() {
    let mut d = Dictionary::new("global", 0);
    assert!(d.insert(b"ab".to_vec(), 256));
    d.freeze(10);
    assert!(!d.insert(b"cd".to_vec(), 257));
    assert_eq!(d.len(), 1);
    assert_eq!(d.contains(b"cd"), None);
}

#[test]
fn freeze_is_idempotent() {
    let mut d = Dictionary::new("global", 5);
    assert!(d.insert(b"abc".to_vec(), 256));
    let first = d.freeze(10);
    let bytes = d.serialize();
    let second = d.freeze(99);
    assert_eq!(first, second);
    assert_eq!(d.serialize(), bytes);
    assert_eq!(d.id(), &first);
    assert!(d.is_frozen());
    assert_eq!(d.frozen_at(), Some(10));
    assert_eq!(first.len(), 32);
    assert!(first.bytes().all(|c| c.is_ascii_hexdigit()));
}

#[test]
fn frozen_id_depends_on_content() {
    let mut a = Dictionary::new("global", 5);
    let mut b = Dictionary::new("global", 5);
    assert!(a.insert(b"abc".to_vec(), 256));
    assert!(b.insert(b"abd".to_vec(), 256));
    assert_ne!(a.freeze(10), b.freeze(10));
    let mut c = Dictionary::new("global", 5);
    assert!(c.insert(b"abc".to_vec(), 256));
    assert_eq!(c.freeze(10), a.id().clone());
}

#[test]
fn compute_hash_is_the_hash_of_the_binary_form() {
    let mut d = Dictionary::new("g", 1);
    assert!(d.insert(b"xy".to_vec(), 256));
    let bytes = d.serialize();
    assert_eq!(d.compute_hash(), symvea::engine::hash::content_hash_hex(&bytes));
}

#[test]
fn binary_form_layout() {
    let mut d = Dictionary::new("g", 7);
    assert!(d.insert(b"ab".to_vec(), 256));
    let mut want: Vec<u8> = Vec::new();
    want.extend_from_slice(&1u64.to_be_bytes());
    want.push(b'g');
    want.extend_from_slice(&1u64.to_be_bytes());
    want.extend_from_slice(&2u64.to_be_bytes());
    want.extend_from_slice(b"ab");
    want.extend_from_slice(&256u32.to_be_bytes());
    want.push(0);
    want.extend_from_slice(&7u64.to_be_bytes());
    want.push(0);
    want.extend_from_slice(&19u64.to_be_bytes());
    want.extend_from_slice(b"symvea-engine@0.1.0");
    assert_eq!(d.serialize(), want);
}

#[test]
fn binary_form_round_trips() {
    let mut d = Dictionary::new("global", 7);
    assert!(d.insert(b"ab".to_vec(), 256));
    assert!(d.insert(b"hello world".to_vec(), 300));
    let id = d.freeze(11);
    let bytes = d.serialize();
    let back = Dictionary::deserialize(&bytes).unwrap();
    assert_eq!(back.id(), &id);
    assert!(back.is_frozen());
    assert_eq!(back.created_at(), 7);
    assert_eq!(back.frozen_at(), Some(11));
    assert_eq!(back.len(), 2);
    assert_eq!(back.contains(b"hello world"), Some(300));
    assert_eq!(back.decode(256), Some(&b"ab".to_vec()));
    assert_eq!(back.serialize(), bytes);
}

#[test]
fn deserialize_reports_each_error() {
    let mut d = Dictionary::new("g", 7);
    assert!(d.insert(b"ab".to_vec(), 256));
    let good = d.serialize();
    assert!(Dictionary::deserialize(&good).is_ok());

    assert_eq!(Dictionary::deserialize(&[]).unwrap_err(), DictionaryError::Truncated);
    assert_eq!(
        Dictionary::deserialize(&good[..good.len() - 1]).unwrap_err(),
        DictionaryError::Truncated
    );

    let mut trailing = good.clone();
    trailing.push(0);
    assert_eq!(Dictionary::deserialize(&trailing).unwrap_err(), DictionaryError::TrailingBytes);

    let mut bad_text = good.clone();
    bad_text[8] = 0xff;
    assert_eq!(Dictionary::deserialize(&bad_text).unwrap_err(), DictionaryError::InvalidText);

    // the frozen flag sits behind id (9), count (8) and one entry (8 + 2 + 4)
    let mut bad_flag = good.clone();
    bad_flag[9 + 8 + 14] = 2;
    assert_eq!(Dictionary::deserialize(&bad_flag).unwrap_err(), DictionaryError::InvalidFlag);

    // a token in the literal range
    let mut bad_entry = good.clone();
    bad_entry[9 + 8 + 10 + 2] = 0;
    assert_eq!(Dictionary::deserialize(&bad_entry).unwrap_err(), DictionaryError::InvalidEntry);
}
