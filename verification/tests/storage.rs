use symvea::engine::hash::sha256;
use symvea::startup::{StartupError, StartupValidator};
use symvea::storage::layout::{CoordinationManager, LocalStorage, PersistentStorage};
use symvea::storage::metadata::{ObjectMetadata, TokenBreakdown};
use symvea::storage::symbols::{StoredSymbol, SymbolStore, SymbolStoreError, SymbolUsage};
use symvea::utils::text::{decimal_text, hex_text, same_text};

#[test]
fn symbols_are_written_once() {
    let mut store = SymbolStore::new();
    assert!(store.store_symbol("h1", b"first", 10));
    assert!(!store.store_symbol("h1", b"other bytes", 20));
    let s = store.load_symbol("h1").unwrap();
    assert_eq!(s.hash, "h1");
    assert_eq!(s.bytes, b"first".to_vec());
    assert_eq!(s.size, 5);
    assert_eq!(s.first_seen, 10);
    assert_eq!(s.usage_count, 2);
    assert_eq!(s.content_hash, sha256(b"first"));
    assert!(store.load_symbol("h2").is_none());
    assert_eq!(store.symbol_count(), 1);
    assert_eq!(store.symbol_at(0).hash, "h1");
}

#[test]
fn usage_totals_stay_consistent() {
    let mut store = SymbolStore::new();
    store.add_usage("h", "obj1", 4, 3).unwrap();
    store.add_usage("h", "obj2", 4, 5).unwrap();
    let u = store.get_corpus_usage("h");
    assert_eq!(u.symbol_hash, "h");
    assert_eq!(u.total_occurrences, 8);
    assert_eq!(u.total_bytes_contributed, 32);
    assert_eq!(u.objects, vec![("obj1".to_string(), 3), ("obj2".to_string(), 5)]);
    // a new count for an object replaces the earlier one
    store.add_usage("h", "obj1", 4, 1).unwrap();
    let u = store.get_corpus_usage("h");
    assert_eq!(u.total_occurrences, 6);
    assert_eq!(u.total_bytes_contributed, 24);
    assert_eq!(u.total_occurrences, u.objects.iter().map(|o| o.1).sum::<u64>());
    assert_eq!(u.count_of("obj1"), 1);
    assert_eq!(u.count_of("obj3"), 0);
    let none = store.get_corpus_usage("unknown");
    assert_eq!(none.total_occurrences, 0);
    assert!(none.objects.is_empty());
}

#[test]
fn usage_overflow_is_refused() {
    let mut store = SymbolStore::new();
    store.add_usage("h", "a", 1, u64::MAX).unwrap();
    assert_eq!(store.add_usage("h", "b", 1, 1).unwrap_err(), SymbolStoreError::Overflow);
    assert_eq!(store.add_usage("g", "a", 3, u64::MAX / 2).unwrap_err(), SymbolStoreError::Overflow);
    assert_eq!(store.get_corpus_usage("h").total_occurrences, u64::MAX);
    assert_eq!(store.get_corpus_usage("g").total_occurrences, 0);
    let mut u = SymbolUsage::new("x");
    u.record("a", 2, 2).unwrap();
    assert_eq!(u.record("a", u64::MAX, 2).unwrap_err(), SymbolStoreError::Overflow);
    assert_eq!(u.total_bytes_contributed, 4);
    assert_eq!(u.duplicate().objects, u.objects);
}

#[test]
fn corpus_stats_count_symbols_and_bytes() {
    let mut store = SymbolStore::new();
    assert_eq!(store.get_corpus_stats(), (0, 0));
    store.store_symbol("a", b"12", 1);
    store.store_symbol("b", b"345", 1);
    store.store_symbol("a", b"12", 2);
    assert_eq!(store.get_corpus_stats(), (2, 5));
}

#[test]
fn integrity_check_finds_tampered_bytes() {
    let mut store = SymbolStore::new();
    store.store_symbol("good", b"bytes", 1);
    assert_eq!(store.verify_symbol_integrity("good"), Ok(true));
    assert_eq!(store.verify_symbol_integrity("none"), Err(SymbolStoreError::NotFound));
    assert_eq!(store.verify_all_symbols(), Ok(()));
    let tampered = StoredSymbol {
        hash: "bad".to_string(),
        bytes: b"bytez".to_vec(),
        size: 5,
        first_seen: 1,
        usage_count: 1,
        content_hash: sha256(b"bytes"),
    };
    assert!(store.restore_symbol(tampered));
    assert_eq!(store.verify_symbol_integrity("bad"), Ok(false));
    assert_eq!(store.verify_all_symbols(), Err(1));
    let again = StoredSymbol {
        hash: "good".to_string(),
        bytes: b"x".to_vec(),
        size: 1,
        first_seen: 1,
        usage_count: 1,
        content_hash: sha256(b"x"),
    };
    assert!(!store.restore_symbol(again));
    assert_eq!(store.load_symbol("good").unwrap().bytes, b"bytes".to_vec());
}

#[test]
fn startup_refuses_a_corrupted_store() {
    let mut store = SymbolStore::new();
    store.store_symbol("a", b"one", 1);
    store.store_symbol("b", b"two", 1);
    assert_eq!(StartupValidator::new().validate_and_start(&store), Ok(2));
    let flipped = StoredSymbol {
        hash: "c".to_string(),
        bytes: vec![b't' ^ 1, b'h', b'r'],
        size: 3,
        first_seen: 1,
        usage_count: 1,
        content_hash: sha256(b"thr"),
    };
    store.restore_symbol(flipped);
    assert_eq!(
        StartupValidator::new().validate_and_start(&store),
        Err(StartupError::SymbolCorrupted(2))
    );
    assert_eq!(StartupValidator::counting_only().validate_and_start(&store), Ok(3));
    assert!(StartupValidator::new().full_verification);
}

#[test]
fn metadata_starts_empty() {
    let m = ObjectMetadata::new(
        "k".to_string(),
        [1u8; 32],
        [2u8; 32],
        "mutable".to_string(),
        10,
        20,
        Some("user".to_string()),
        99,
    );
    assert_eq!(m.key, "k");
    assert_eq!(m.object_hash, [1u8; 32]);
    assert_eq!(m.original_hash, [2u8; 32]);
    assert_eq!(m.dict_id, "mutable");
    assert_eq!(m.engine_version, "symvea-engine@0.1.0");
    assert_eq!(m.original_size, 10);
    assert_eq!(m.compressed_size, 20);
    assert_eq!(m.stored_at, 99);
    assert_eq!(m.user_id, Some("user".to_string()));
    assert_eq!(m.codec_version, 1);
    assert!(m.symbols.is_empty());
    assert_eq!(m.token_breakdown.symbol_bytes, 0);
    assert_eq!(m.token_breakdown.literal_bytes, 0);
    assert!(!m.verify_integrity(b"anything"));
    let b = TokenBreakdown::new(3, 4);
    assert_eq!(b.symbol_bytes, 3);
    assert_eq!(b.literal_bytes, 4);
    assert_eq!(b.literal_reason, "Below promotion threshold");
}

#[test]
fn layout_of_the_data_root() {
    let local = LocalStorage::new("./data".to_string());
    assert_eq!(local.data_path("hello"), "./data/files/hello");
    assert_eq!(local.meta_path("hello"), "./data/files/hello.meta");
    let p = PersistentStorage::new("/srv".to_string());
    assert_eq!(p.root_path, "/srv");
    assert_eq!(p.state_path(), "/srv/STATE");
    assert_eq!(p.symbol_path("abcd"), "/srv/symbols/sym_abcd.bin");
    assert_eq!(p.symbol_meta_path("abcd"), "/srv/symbols/sym_abcd.meta.json");
    assert_eq!(p.usage_path("abcd"), "/srv/symbol_usage/abcd");
    assert_eq!(PersistentStorage::file_id("hello"), "3610a686");
    assert_eq!(p.corpus_meta_path("hello"), "/srv/corpus/files/3610a686.meta.json");
    assert_eq!(p.corpus_index_path(), "/srv/corpus/index.json");
    assert_eq!(p.dictionary_path("0123"), "/srv/dictionary_0123.json");
}

#[test]
fn lock_names() {
    let c = CoordinationManager::new("/srv");
    assert_eq!(c.dictionary_lock_path(), "/srv/.dict_lock");
    assert_eq!(
        c.symbol_lock_path("0123456789abcdef"),
        Some("/srv/.symbol_lock_01234567".to_string())
    );
    assert_eq!(c.symbol_lock_path("0123456"), None);
    // the eighth byte falls inside a character
    assert_eq!(c.symbol_lock_path("0123456é9"), None);
}

#[test]
fn numbers_as_text() {
    assert_eq!(decimal_text(0), "0");
    assert_eq!(decimal_text(1234567890), "1234567890");
    assert_eq!(decimal_text(u64::MAX), "18446744073709551615");
    assert_eq!(hex_text(0), "0");
    assert_eq!(hex_text(0xabc), "abc");
    assert_eq!(hex_text(0x3610a686), "3610a686");
    assert!(same_text("abc", "abc"));
    assert!(!same_text("abc", "abd"));
    assert!(!same_text("abc", "ab"));
}

#[test]
fn server_config_defaults() {
    let c = symvea::config::ServerConfig::default();
    assert_eq!(c.data_directory, "./data");
    assert_eq!(c.listen_address, "0.0.0.0:24096");
    assert!(c.readonly_mounts.is_empty());
    assert!(c.auto_create_directories);
    assert_eq!(c.max_file_size, 1024 * 1024 * 1024);
    assert_eq!(symvea::config::SYMVEA_PORT, 24096);
}

#[test]
fn file_names_in_the_data_root() {
    assert_eq!(PersistentStorage::symbol_hash_of("sym_abcd.bin"), Some("abcd".to_string()));
    assert_eq!(PersistentStorage::symbol_hash_of("sym_.bin"), Some(String::new()));
    assert_eq!(PersistentStorage::symbol_hash_of("sym_abcd.meta.json"), None);
    assert_eq!(PersistentStorage::symbol_hash_of("other.bin"), None);
    assert_eq!(PersistentStorage::symbol_hash_of(".bin"), None);
    assert_eq!(
        PersistentStorage::symbol_hash_of("0123456789abcdefABCDEF0123456789"),
        Some("0123456789abcdefABCDEF0123456789".to_string())
    );
    assert_eq!(PersistentStorage::symbol_hash_of("0123456789abcdefABCDEF012345678g"), None);
    assert_eq!(PersistentStorage::symbol_hash_of("0123456789abcdef"), None);
    assert!(PersistentStorage::is_dictionary_file("dictionary_0123.json"));
    assert!(PersistentStorage::is_dictionary_file("dictionary_.json"));
    assert!(!PersistentStorage::is_dictionary_file("dictionary_0123.bin"));
    assert!(!PersistentStorage::is_dictionary_file("snapshot_1.json"));
    assert!(!PersistentStorage::is_dictionary_file(".json"));
}
