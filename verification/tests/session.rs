use symvea::engine::hash::sha256;
use symvea::protocol::error::ProtocolError;
use symvea::protocol::frame::Frame;
use symvea::session::{
    assemble, handle_download, handle_upload, handle_verify, ChunkedUpload, Session,
    SessionAction, SessionError, SessionState,
};
use symvea::storage::dictionary::Dictionary;
use symvea::storage::symbols::SymbolStore;

fn active_session(limit: u64) -> Session {
    let mut s = Session::new(limit);
    assert_eq!(s.state(), SessionState::Opened);
    s.begin().unwrap();
    assert_eq!(s.state(), SessionState::Handshaking);
    let reply = s.on_handshake(b"SYMV\x00\x01\x00\x00\x00\x00\x00\x00").unwrap();
    assert_eq!(&reply, b"SYMV\x00\x01\x00\x00\x00\x00\x00\x00");
    assert_eq!(s.state(), SessionState::Active);
    s
}

fn chunk(key: &str, index: u32, fill: u8, len: usize) -> Frame {
    Frame::ChunkData { key: key.to_string(), chunk_index: index, data: vec![fill; len] }
}

#[test]
fn handshake_failure_closes_the_session() {
    let mut s = Session::new(10);
    assert_eq!(s.on_handshake(b"SYMV").unwrap_err(), SessionError::WrongState);
    assert_eq!(s.state(), SessionState::Opened);
    s.begin().unwrap();
    assert_eq!(s.begin().unwrap_err(), SessionError::WrongState);
    assert_eq!(
        s.on_handshake(b"NOPE\x00\x01\x00\x00\x00\x00\x00\x00").unwrap_err(),
        SessionError::Protocol(ProtocolError::InvalidMagic)
    );
    assert_eq!(s.state(), SessionState::Closed);
    assert_eq!(s.on_frame(Frame::Close).unwrap_err(), SessionError::WrongState);
}

#[test]
fn frames_map_to_actions() {
    let mut s = active_session(1 << 20);
    match s.on_frame(Frame::Upload { key: "k".to_string(), data: vec![1], user_id: None }).unwrap()
    {
        SessionAction::Upload { key, data, user_id } => {
            assert_eq!(key, "k");
            assert_eq!(data, vec![1]);
            assert_eq!(user_id, None);
        }
        other => panic!("unexpected action {:?}", other),
    }
    assert!(matches!(
        s.on_frame(Frame::Download { key: "k".to_string() }).unwrap(),
        SessionAction::Download { .. }
    ));
    assert!(matches!(
        s.on_frame(Frame::Verify { key: "k".to_string() }).unwrap(),
        SessionAction::Verify { .. }
    ));
    assert!(matches!(s.on_frame(Frame::FreezeDictionary).unwrap(), SessionAction::FreezeDictionary));
    assert!(matches!(
        s.on_frame(Frame::ChunkEnd { key: "k".to_string() }).unwrap(),
        SessionAction::Continue
    ));
    assert!(matches!(
        s.on_frame(Frame::NotFound { key: "k".to_string() }).unwrap(),
        SessionAction::Continue
    ));
    assert_eq!(s.state(), SessionState::Active);
    assert!(matches!(s.on_frame(Frame::Close).unwrap(), SessionAction::Close));
    assert_eq!(s.state(), SessionState::Closed);
}

#[test]
fn chunked_reassembly_out_of_order() {
    let mut s = active_session(1 << 20);
    let start = Frame::ChunkStart {
        key: "big".to_string(),
        total_size: 1024,
        chunk_count: 4,
        user_id: None,
    };
    assert!(matches!(s.on_frame(start).unwrap(), SessionAction::Continue));
    assert_eq!(s.pending_uploads(), 1);
    for index in [2u32, 0, 3] {
        let action = s.on_frame(chunk("big", index, index as u8, 256)).unwrap();
        assert!(matches!(action, SessionAction::Continue));
    }
    match s.on_frame(chunk("big", 1, 1, 256)).unwrap() {
        SessionAction::Upload { key, data, user_id } => {
            assert_eq!(key, "big");
            assert_eq!(user_id, None);
            let mut want = Vec::new();
            for index in 0..4u8 {
                want.extend(vec![index; 256]);
            }
            assert_eq!(data, want);
        }
        other => panic!("unexpected action {:?}", other),
    }
    assert_eq!(s.pending_uploads(), 0);
    assert_eq!(s.state(), SessionState::Active);
}

#[test]
fn every_arrival_order_gives_the_same_bytes() {
    let orders: [[u32; 3]; 6] =
        [[0, 1, 2], [0, 2, 1], [1, 0, 2], [1, 2, 0], [2, 0, 1], [2, 1, 0]];
    for order in orders {
        let mut s = active_session(100);
        s.on_frame(Frame::ChunkStart {
            key: "k".to_string(),
            total_size: 6,
            chunk_count: 3,
            user_id: Some("u".to_string()),
        })
        .unwrap();
        let mut last = None;
        for index in order {
            last = Some(s.on_frame(chunk("k", index, 10 + index as u8, 2)).unwrap());
        }
        match last.unwrap() {
            SessionAction::Upload { data, user_id, .. } => {
                assert_eq!(data, vec![10, 10, 11, 11, 12, 12]);
                assert_eq!(user_id, Some("u".to_string()));
            }
            other => panic!("unexpected action {:?}", other),
        }
    }
}

#[test]
fn chunk_errors_end_the_session() {
    let mut s = active_session(100);
    assert_eq!(s.on_frame(chunk("nope", 0, 0, 1)).unwrap_err(), SessionError::UnknownUpload);
    assert_eq!(s.state(), SessionState::Closed);

    let mut s = active_session(100);
    let too_large =
        Frame::ChunkStart { key: "k".to_string(), total_size: 101, chunk_count: 1, user_id: None };
    assert_eq!(s.on_frame(too_large).unwrap_err(), SessionError::FileTooLarge);
    assert_eq!(s.state(), SessionState::Closed);

    let mut s = active_session(100);
    s.on_frame(Frame::ChunkStart {
        key: "k".to_string(),
        total_size: 4,
        chunk_count: 2,
        user_id: None,
    })
    .unwrap();
    s.on_frame(chunk("k", 0, 1, 2)).unwrap();
    assert_eq!(s.on_frame(chunk("k", 5, 1, 2)).unwrap_err(), SessionError::MissingChunk(1));
    assert_eq!(s.state(), SessionState::Closed);
    assert_eq!(s.pending_uploads(), 0);

    let mut s = active_session(100);
    s.on_frame(Frame::ChunkStart {
        key: "k".to_string(),
        total_size: 5,
        chunk_count: 2,
        user_id: None,
    })
    .unwrap();
    s.on_frame(chunk("k", 0, 1, 2)).unwrap();
    assert_eq!(
        s.on_frame(chunk("k", 1, 1, 2)).unwrap_err(),
        SessionError::SizeMismatch { expected: 5, got: 4 }
    );
}

#[test]
fn a_repeated_chunk_replaces_the_earlier_one() {
    let mut s = active_session(100);
    s.on_frame(Frame::ChunkStart {
        key: "k".to_string(),
        total_size: 2,
        chunk_count: 2,
        user_id: None,
    })
    .unwrap();
    s.on_frame(chunk("k", 0, 1, 1)).unwrap();
    assert!(matches!(s.on_frame(chunk("k", 0, 9, 1)).unwrap(), SessionAction::Continue));
    match s.on_frame(chunk("k", 1, 2, 1)).unwrap() {
        SessionAction::Upload { data, .. } => assert_eq!(data, vec![9, 2]),
        other => panic!("unexpected action {:?}", other),
    }
}

#[test]
fn a_second_start_replaces_the_upload_in_progress() {
    let mut s = active_session(100);
    for _ in 0..2 {
        s.on_frame(Frame::ChunkStart {
            key: "k".to_string(),
            total_size: 1,
            chunk_count: 1,
            user_id: None,
        })
        .unwrap();
    }
    assert_eq!(s.pending_uploads(), 1);
    s.fail();
    assert_eq!(s.state(), SessionState::Closed);
}

#[test]
fn assemble_joins_by_index() {
    let mut upload = ChunkedUpload {
        key: "k".to_string(),
        total_size: 3,
        chunk_count: 2,
        received_chunks: std::collections::HashMap::new(),
        user_id: None,
    };
    upload.received_chunks.insert(1, vec![3]);
    assert_eq!(assemble(&upload).unwrap_err(), SessionError::MissingChunk(0));
    upload.received_chunks.insert(0, vec![1, 2]);
    assert_eq!(assemble(&upload).unwrap(), vec![1, 2, 3]);
}

#[test]
fn upload_download_verify() {
    let mut dict = Dictionary::new("global", 1);
    let mut store = SymbolStore::new();
    let input = b"hello world hello world".to_vec();
    let (payload, meta, ack) =
        handle_upload("hello".to_string(), &input, None, &mut dict, &mut store, 77);
    match ack {
        Frame::Ack { key, original_size, compressed_size } => {
            assert_eq!(key, "hello");
            assert_eq!(original_size, 23);
            assert_eq!(compressed_size, 24);
            assert!(compressed_size >= 12);
        }
        other => panic!("unexpected frame {:?}", other),
    }
    assert_eq!(meta.key, "hello");
    assert_eq!(meta.dict_id, "mutable");
    assert_eq!(meta.engine_version, "symvea-engine@0.1.0");
    assert_eq!(meta.codec_version, 1);
    assert_eq!(meta.original_size, 23);
    assert_eq!(meta.compressed_size, 24);
    assert_eq!(meta.stored_at, 77);
    assert_eq!(meta.original_hash, sha256(&input));
    assert_eq!(meta.object_hash, sha256(&payload));
    assert_eq!(meta.symbols.len(), 158);
    assert_eq!(meta.token_breakdown.symbol_bytes + meta.token_breakdown.literal_bytes, 23);
    assert!(meta.verify_integrity(&payload));
    assert!(meta.verify_original(&input));
    assert!(!meta.verify_original(b"hello world"));

    match handle_download("hello".to_string(), Some(&payload), &dict) {
        Frame::Data { key, data } => {
            assert_eq!(key, "hello");
            assert_eq!(data, input);
        }
        other => panic!("unexpected frame {:?}", other),
    }
    assert!(matches!(handle_download("x".to_string(), None, &dict), Frame::NotFound { .. }));

    match handle_verify("hello".to_string(), Some((&payload, &meta)), &dict).unwrap() {
        Frame::Verified { key, hash_match } => {
            assert_eq!(key, "hello");
            assert!(hash_match);
        }
        other => panic!("unexpected frame {:?}", other),
    }
    assert!(matches!(
        handle_verify("x".to_string(), None, &dict).unwrap(),
        Frame::NotFound { .. }
    ));
}

#[test]
fn verify_detects_corruption() {
    let mut dict = Dictionary::new("global", 1);
    let mut store = SymbolStore::new();
    let input = b"some content to keep, some content to keep".to_vec();
    let (mut payload, meta, _ack) =
        handle_upload("k".to_string(), &input, None, &mut dict, &mut store, 1);
    let last = payload.len() - 1;
    payload[last] ^= 0x80;
    assert_eq!(
        handle_verify("k".to_string(), Some((&payload, &meta)), &dict).unwrap_err(),
        SessionError::CorruptionDetected
    );
}

#[test]
fn identical_content_has_identical_hashes_and_no_new_symbols() {
    let mut dict = Dictionary::new("global", 1);
    let mut store = SymbolStore::new();
    let input = b"deterministic content, deterministic content".to_vec();
    let (_, first, _) = handle_upload("a".to_string(), &input, None, &mut dict, &mut store, 1);
    let symbols_after_first = store.symbol_count();
    let (_, second, _) = handle_upload("b".to_string(), &input, None, &mut dict, &mut store, 2);
    assert_eq!(first.original_hash, second.original_hash);
    assert_eq!(store.symbol_count(), symbols_after_first);
}

#[test]
fn freeze_blocks_planning() {
    let mut dict = Dictionary::new("global", 1);
    let mut store = SymbolStore::new();
    let a = b"alpha beta alpha beta alpha beta".to_vec();
    handle_upload("a".to_string(), &a, None, &mut dict, &mut store, 1);
    let entries = dict.len();
    let symbols = store.symbol_count();
    let id = dict.freeze(5);
    let b = b"gamma delta gamma delta, alpha beta".to_vec();
    let (payload, meta, _) = handle_upload("b".to_string(), &b, None, &mut dict, &mut store, 6);
    assert_eq!(meta.dict_id, id);
    assert_eq!(dict.len(), entries);
    assert_eq!(store.symbol_count(), symbols);
    assert!(!meta.symbols.is_empty());
    for info in &meta.symbols {
        assert!(store.load_symbol(&info.hash).is_some());
        assert_eq!(store.get_corpus_usage(&info.hash).count_of("b") > 0, true);
    }
    match handle_download("b".to_string(), Some(&payload), &dict) {
        Frame::Data { data, .. } => assert_eq!(data, b),
        other => panic!("unexpected frame {:?}", other),
    }
}

#[test]
fn freeze_request_freezes_once() {
    let mut dict = Dictionary::new("global", 1);
    assert!(dict.insert(b"abc".to_vec(), 256));
    let id = symvea::session::handle_freeze(&mut dict, 9).unwrap();
    assert!(dict.is_frozen());
    assert_eq!(dict.id(), &id);
    assert_eq!(dict.frozen_at(), Some(9));
    assert_eq!(symvea::session::handle_freeze(&mut dict, 10), None);
    assert_eq!(dict.frozen_at(), Some(9));
    assert_eq!(dict.id(), &id);
}
