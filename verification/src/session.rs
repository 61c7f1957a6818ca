//! The per-connection protocol interpreter: what each frame does to the
//! session and what it asks of the server, and how a chunked upload is put
//! together.

use std::collections::HashMap;
use vstd::prelude::*;
use vstd::string::StringExecFns;
use crate::engine::compressor::{
    compress, covered, dictionary_after, infos_after, infos_of, literal_count, object_payload,
    store_after,
};
use crate::engine::decompressor::{decompress, decompression};
use crate::engine::hash::{sha256, sha256_digest};
use crate::engine::tokenizer::tokenization;
use crate::protocol::frame::{frame_user_id, Frame, FrameView};
use crate::protocol::handshake::{handshake_bytes, handshake_decoding, Handshake};
use crate::protocol::error::ProtocolError;
use crate::storage::dictionary::{frozen_form, Dictionary, DictionaryView};
use crate::storage::metadata::ObjectMetadata;
use crate::storage::symbols::{store_consistent, SymbolStore};
use crate::utils::text::{distinct_texts, find_text, lemma_find_text, same_text};

verus! {

broadcast use vstd::std_specs::hash::group_hash_axioms;

/// Where a connection stands.
#[derive(Debug, Clone, Copy, PartialEq, Eq)]
pub enum SessionState {
    Opened,
    Handshaking,
    Active,
    Closed,
}

/// Why a session ended.
#[derive(Debug, Clone, Copy, PartialEq, Eq)]
pub enum SessionError {
    /// The handshake or a frame was refused.
    Protocol(ProtocolError),
    /// The session is not in the state that the call needs.
    WrongState,
    /// A chunked upload announces more bytes than the server takes.
    FileTooLarge,
    /// Chunk data came for a key that no chunked upload was started for.
    UnknownUpload,
    /// All announced chunks came, but none with this index.
    MissingChunk(u32),
    /// The chunks put together do not have the announced size.
    SizeMismatch { expected: u64, got: u64 },
    /// A stored object no longer decompresses to its original content. The
    /// server must refuse further service.
    CorruptionDetected,
}

/// What the server is to do after a frame.
#[derive(Debug)]
pub enum SessionAction {
    /// Nothing; read the next frame.
    Continue,
    /// Compress and store an object, then acknowledge it.
    Upload { key: String, data: Vec<u8>, user_id: Option<String> },
    /// Send an object back.
    Download { key: String },
    /// Check an object against the hash of its original content.
    Verify { key: String },
    /// Freeze the shared dictionary.
    FreezeDictionary,
    /// End the connection.
    Close,
}

/// An action as plain values.
pub enum ActionView {
    Continue,
    Upload { key: Seq<char>, data: Seq<u8>, user_id: Option<Seq<char>> },
    Download { key: Seq<char> },
    Verify { key: Seq<char> },
    FreezeDictionary,
    Close,
}

/// The text of an optional string.
pub open spec fn opt_text(o: Option<String>) -> Option<Seq<char>> {
    match o {
        Some(s) => Some(s@),
        None => None,
    }
}

impl View for SessionAction {
    type V = ActionView;

    open spec fn view(&self) -> ActionView {
        match *self {
            SessionAction::Continue => ActionView::Continue,
            SessionAction::Upload { key, data, user_id } => ActionView::Upload {
                key: key@,
                data: data@,
                user_id: opt_text(user_id),
            },
            SessionAction::Download { key } => ActionView::Download { key: key@ },
            SessionAction::Verify { key } => ActionView::Verify { key: key@ },
            SessionAction::FreezeDictionary => ActionView::FreezeDictionary,
            SessionAction::Close => ActionView::Close,
        }
    }
}

/// A chunked upload in progress.
#[derive(Debug)]
pub struct ChunkedUpload {
    pub key: String,
    pub total_size: u64,
    pub chunk_count: u32,
    pub received_chunks: HashMap<u32, Vec<u8>>,
    pub user_id: Option<String>,
}

/// A chunked upload as plain values; `received` maps each chunk index that
/// has come to its bytes.
pub struct UploadView {
    pub key: Seq<char>,
    pub total_size: u64,
    pub chunk_count: u32,
    pub received: Map<u32, Seq<u8>>,
    pub user_id: Option<Seq<char>>,
}

impl View for ChunkedUpload {
    type V = UploadView;

    open spec fn view(&self) -> UploadView {
        UploadView {
            key: self.key@,
            total_size: self.total_size,
            chunk_count: self.chunk_count,
            received: Map::new(
                |i: u32| self.received_chunks@.contains_key(i),
                |i: u32| self.received_chunks@[i]@,
            ),
            user_id: opt_text(self.user_id),
        }
    }
}

/// The chunks with the indices below `n`, one after another.
pub open spec fn joined_chunks(received: Map<u32, Seq<u8>>, n: int) -> Seq<u8>
    decreases n,
{
    if n <= 0 {
        Seq::<u8>::empty()
    } else {
        joined_chunks(received, n - 1) + received[(n - 1) as u32]
    }
}

/// The lowest index from `from` up to `count` that no chunk has come for, or
/// -1 where each has one.
pub open spec fn first_missing(received: Map<u32, Seq<u8>>, count: int, from: int) -> int
    decreases count - from,
{
    if from >= count {
        -1
    } else if !received.contains_key(from as u32) {
        from
    } else {
        first_missing(received, count, from + 1)
    }
}

/// What a finished chunked upload amounts to: its chunks by index, one after
/// another, where each index below the count has a chunk and the whole has the
/// announced size.
pub open spec fn assembly(u: UploadView) -> Result<Seq<u8>, SessionError> {
    let missing = first_missing(u.received, u.chunk_count as int, 0);
    let whole = joined_chunks(u.received, u.chunk_count as int);
    if missing >= 0 {
        Err(SessionError::MissingChunk(missing as u32))
    } else if whole.len() != u.total_size {
        Err(SessionError::SizeMismatch { expected: u.total_size, got: whole.len() as u64 })
    } else {
        Ok(whole)
    }
}

/// Puts the chunks of an upload together by index.
pub fn assemble(upload: &ChunkedUpload) -> (r: Result<Vec<u8>, SessionError>)
    ensures
        match r {
            Ok(data) => assembly(upload@) == Ok::<Seq<u8>, SessionError>(data@),
            Err(e) => assembly(upload@) == Err::<Seq<u8>, SessionError>(e),
        },
{
    let ghost received = upload@.received;
    let count: u32 = upload.chunk_count;
    let mut data: Vec<u8> = Vec::new();
    let mut i: u32 = 0;
    while i < count
        invariant
            i <= count,
            count == upload.chunk_count,
            received == upload@.received,
            data@ == joined_chunks(received, i as int),
            first_missing(received, count as int, i as int) == first_missing(
                received,
                count as int,
                0,
            ),
        decreases count - i,
    {
        match upload.received_chunks.get(&i) {
            Some(chunk) => {
                assert(received.contains_key(i) && received[i] == chunk@);
                data.extend_from_slice(chunk.as_slice());
            },
            None => {
                assert(!received.contains_key(i));
                return Err(SessionError::MissingChunk(i));
            },
        }
        i += 1;
    }
    if data.len() as u64 != upload.total_size {
        return Err(
            SessionError::SizeMismatch { expected: upload.total_size, got: data.len() as u64 },
        );
    }
    Ok(data)
}

/// What a session holds, as plain values.
pub struct SessionView {
    pub state: SessionState,
    pub max_file_size: u64,
    pub uploads: Seq<UploadView>,
}

/// The keys of the chunked uploads in progress.
pub open spec fn upload_keys(uploads: Seq<UploadView>) -> Seq<Seq<char>> {
    Seq::new(uploads.len(), |i: int| uploads[i].key)
}

/// A new chunked upload, nothing received.
pub open spec fn started_upload(
    key: Seq<char>,
    total_size: u64,
    chunk_count: u32,
    user_id: Option<Seq<char>>,
) -> UploadView {
    UploadView { key, total_size, chunk_count, received: Map::<u32, Seq<u8>>::empty(), user_id }
}

/// An upload with one more chunk; a chunk that comes again replaces the
/// earlier one.
pub open spec fn with_chunk(u: UploadView, index: u32, data: Seq<u8>) -> UploadView {
    UploadView {
        key: u.key,
        total_size: u.total_size,
        chunk_count: u.chunk_count,
        received: u.received.insert(index, data),
        user_id: u.user_id,
    }
}

/// The session and the outcome after a frame, for an active session.
///
/// Upload, download, verify, freeze and close ask the server for the
/// matching action and leave the uploads in progress alone; close also ends
/// the session. A chunk start over the size limit ends the session; another
/// starts an upload under its key, in place of one already there. Chunk data
/// for an unknown key ends the session; other chunk data is added to its
/// upload, and once as many chunks are there as were announced the upload
/// leaves the session and is put together: that is an upload action, or the
/// end of the session where a chunk is missing or the size is wrong. A chunk
/// end and the server's own frame types change nothing.
pub open spec fn step(v: SessionView, f: FrameView, user_id: Option<Seq<char>>) -> (
    SessionView,
    Result<ActionView, SessionError>,
) {
    let closed = SessionView {
        state: SessionState::Closed,
        max_file_size: v.max_file_size,
        uploads: v.uploads,
    };
    match f {
        FrameView::Upload { key, data } => (v, Ok(ActionView::Upload { key, data, user_id })),
        FrameView::Download { key } => (v, Ok(ActionView::Download { key })),
        FrameView::Verify { key } => (v, Ok(ActionView::Verify { key })),
        FrameView::FreezeDictionary => (v, Ok(ActionView::FreezeDictionary)),
        FrameView::Close => (closed, Ok(ActionView::Close)),
        FrameView::ChunkStart { key, total_size, chunk_count } => {
            if total_size > v.max_file_size {
                (closed, Err(SessionError::FileTooLarge))
            } else {
                let k = find_text(upload_keys(v.uploads), key, 0);
                let fresh = started_upload(key, total_size, chunk_count, user_id);
                (
                    SessionView {
                        state: v.state,
                        max_file_size: v.max_file_size,
                        uploads: if k >= 0 {
                            v.uploads.update(k, fresh)
                        } else {
                            v.uploads.push(fresh)
                        },
                    },
                    Ok(ActionView::Continue),
                )
            }
        },
        FrameView::ChunkData { key, chunk_index, data } => {
            let k = find_text(upload_keys(v.uploads), key, 0);
            if k < 0 {
                (closed, Err(SessionError::UnknownUpload))
            } else {
                let grown = with_chunk(v.uploads[k], chunk_index, data);
                if grown.received.len() == grown.chunk_count {
                    match assembly(grown) {
                        Ok(whole) => (
                            SessionView {
                                state: v.state,
                                max_file_size: v.max_file_size,
                                uploads: v.uploads.remove(k),
                            },
                            Ok(ActionView::Upload { key, data: whole, user_id: grown.user_id }),
                        ),
                        Err(e) => (
                            SessionView {
                                state: SessionState::Closed,
                                max_file_size: v.max_file_size,
                                uploads: v.uploads.remove(k),
                            },
                            Err(e),
                        ),
                    }
                } else {
                    (
                        SessionView {
                            state: v.state,
                            max_file_size: v.max_file_size,
                            uploads: v.uploads.update(k, grown),
                        },
                        Ok(ActionView::Continue),
                    )
                }
            }
        },
        _ => (v, Ok(ActionView::Continue)),
    }
}

/// Whether an outcome is the one specified.
pub open spec fn outcome_is(
    r: Result<SessionAction, SessionError>,
    want: Result<ActionView, SessionError>,
) -> bool {
    match r {
        Ok(a) => want == Ok::<ActionView, SessionError>(a@),
        Err(e) => want == Err::<ActionView, SessionError>(e),
    }
}

/// The protocol state of one connection, and its chunked uploads in progress.
#[derive(Debug)]
pub struct Session {
    state: SessionState,
    max_file_size: u64,
    uploads: Vec<ChunkedUpload>,
}

impl View for Session {
    type V = SessionView;

    closed spec fn view(&self) -> SessionView {
        SessionView {
            state: self.state,
            max_file_size: self.max_file_size,
            uploads: Seq::new(self.uploads@.len(), |i: int| self.uploads@[i]@),
        }
    }
}

impl Session {
    /// The invariant: no two uploads in progress have the same key.
    pub open spec fn wf(&self) -> bool {
        distinct_texts(upload_keys(self@.uploads))
    }

    /// A session for a connection that was just accepted. Chunked uploads of
    /// more than `max_file_size` bytes will be refused.
    pub fn new(max_file_size: u64) -> (s: Self)
        ensures
            s.wf(),
            s@.state == SessionState::Opened,
            s@.max_file_size == max_file_size,
            s@.uploads.len() == 0,
    {
        Self { state: SessionState::Opened, max_file_size, uploads: Vec::new() }
    }

    /// Where the session stands.
    pub fn state(&self) -> (s: SessionState)
        ensures
            s == self@.state,
    {
        self.state
    }

    /// Number of chunked uploads in progress.
    pub fn pending_uploads(&self) -> (n: usize)
        ensures
            n == self@.uploads.len(),
    {
        self.uploads.len()
    }

    /// Starts the handshake: an opened session waits for the client's
    /// handshake from now on. In any other state nothing changes.
    pub fn begin(&mut self) -> (r: Result<(), SessionError>)
        ensures
            final(self)@.max_file_size == old(self)@.max_file_size,
            final(self)@.uploads == old(self)@.uploads,
            old(self)@.state == SessionState::Opened ==> r is Ok && final(self)@.state
                == SessionState::Handshaking,
            old(self)@.state != SessionState::Opened ==> r == Err::<(), SessionError>(
                SessionError::WrongState,
            ) && final(self)@.state == old(self)@.state,
    {
        match self.state {
            SessionState::Opened => {
                self.state = SessionState::Handshaking;
                assert(self@.uploads =~= old(self)@.uploads);
                Ok(())
            },
            _ => Err(SessionError::WrongState),
        }
    }

    /// Takes the client's handshake. A valid one makes the session active and
    /// gives the handshake to answer with; an invalid one closes the session.
    /// A session that is not waiting for a handshake is left as it is.
    pub fn on_handshake(&mut self, buf: &[u8]) -> (r: Result<[u8; 12], SessionError>)
        ensures
            final(self)@.max_file_size == old(self)@.max_file_size,
            final(self)@.uploads == old(self)@.uploads,
            old(self)@.state != SessionState::Handshaking ==> r == Err::<[u8; 12], SessionError>(
                SessionError::WrongState,
            ) && final(self)@.state == old(self)@.state,
            old(self)@.state == SessionState::Handshaking ==> match handshake_decoding(buf@) {
                Ok(_) => r is Ok && r->Ok_0@ == handshake_bytes(
                    Handshake { version: 1, flags: 0, capabilities: 0 },
                ) && final(self)@.state == SessionState::Active,
                Err(e) => r == Err::<[u8; 12], SessionError>(SessionError::Protocol(e))
                    && final(self)@.state == SessionState::Closed,
            },
    {
        match self.state {
            SessionState::Handshaking => {},
            _ => {
                return Err(SessionError::WrongState);
            },
        }
        match Handshake::decode(buf) {
            Ok(_client) => {
                self.state = SessionState::Active;
                assert(self@.uploads =~= old(self)@.uploads);
                Ok(Handshake::current().encode())
            },
            Err(e) => {
                self.state = SessionState::Closed;
                assert(self@.uploads =~= old(self)@.uploads);
                Err(SessionError::Protocol(e))
            },
        }
    }

    /// Ends the session after a frame that could not be read or parsed.
    pub fn fail(&mut self)
        ensures
            final(self)@.state == SessionState::Closed,
            final(self)@.max_file_size == old(self)@.max_file_size,
            final(self)@.uploads == old(self)@.uploads,
    {
        self.state = SessionState::Closed;
        assert(self@.uploads =~= old(self)@.uploads);
    }

    /// Position of the upload in progress under `key`.
    fn upload_position(&self, key: &str) -> (r: Option<usize>)
        ensures
            match r {
                Some(i) => find_text(upload_keys(self@.uploads), key@, 0) == i && i
                    < self.uploads@.len(),
                None => find_text(upload_keys(self@.uploads), key@, 0) == -1,
            },
    {
        let ghost keys = upload_keys(self@.uploads);
        let mut i: usize = 0;
        while i < self.uploads.len()
            invariant
                i <= self.uploads@.len(),
                keys == upload_keys(self@.uploads),
                find_text(keys, key@, i as int) == find_text(keys, key@, 0),
            decreases self.uploads@.len() - i,
        {
            if same_text(self.uploads[i].key.as_str(), key) {
                return Some(i);
            }
            i += 1;
        }
        None
    }

    /// Interprets one frame. An active session does what `step` says; a
    /// session in another state is left as it is.
    pub fn on_frame(&mut self, frame: Frame) -> (r: Result<SessionAction, SessionError>)
        requires
            old(self).wf(),
        ensures
            final(self).wf(),
            old(self)@.state != SessionState::Active ==> r == Err::<SessionAction, SessionError>(
                SessionError::WrongState,
            ) && final(self)@ == old(self)@,
            old(self)@.state == SessionState::Active ==> final(self)@ == step(
                old(self)@,
                frame@,
                opt_text(frame_user_id(frame)),
            ).0 && outcome_is(
                r,
                step(
                    old(self)@,
                    frame@,
                    opt_text(frame_user_id(frame)),
                ).1,
            ),
    {
        match self.state {
            SessionState::Active => {},
            _ => {
                return Err(SessionError::WrongState);
            },
        }
        let ghost before = old(self)@;
        match frame {
            Frame::Upload { key, data, user_id } => Ok(SessionAction::Upload { key, data, user_id }),
            Frame::Download { key } => Ok(SessionAction::Download { key }),
            Frame::Verify { key } => Ok(SessionAction::Verify { key }),
            Frame::FreezeDictionary => Ok(SessionAction::FreezeDictionary),
            Frame::Close => {
                self.state = SessionState::Closed;
                assert(self@.uploads =~= before.uploads);
                Ok(SessionAction::Close)
            },
            Frame::ChunkStart { key, total_size, chunk_count, user_id } => {
                if total_size > self.max_file_size {
                    self.state = SessionState::Closed;
                    assert(self@.uploads =~= before.uploads);
                    return Err(SessionError::FileTooLarge);
                }
                proof {
                    lemma_find_text(upload_keys(before.uploads), key@, 0);
                }
                let at: Option<usize> = self.upload_position(key.as_str());
                let ghost k = key@;
                let ghost fresh = started_upload(key@, total_size, chunk_count, opt_text(user_id));
                let upload = ChunkedUpload {
                    key,
                    total_size,
                    chunk_count,
                    received_chunks: HashMap::new(),
                    user_id,
                };
                assert(upload@.received =~= Map::<u32, Seq<u8>>::empty());
                assert(upload@ == fresh);
                match at {
                    Some(i) => {
                        self.uploads.set(i, upload);
                        proof {
                            assert(self@.uploads =~= before.uploads.update(i as int, fresh));
                            assert(upload_keys(self@.uploads) =~= upload_keys(before.uploads));
                        }
                    },
                    None => {
                        self.uploads.push(upload);
                        proof {
                            assert(self@.uploads =~= before.uploads.push(fresh));
                            let keys = upload_keys(self@.uploads);
                            let prior = upload_keys(before.uploads);
                            assert(keys =~= prior.push(k));
                            assert forall|a: int, b: int| 0 <= a < b < keys.len() implies keys[a]
                                != keys[b] by {
                                if b == prior.len() {
                                    assert(prior[a] != k);
                                }
                            }
                        }
                    },
                }
                Ok(SessionAction::Continue)
            },
            Frame::ChunkData { key, chunk_index, data } => {
                proof {
                    lemma_find_text(upload_keys(before.uploads), key@, 0);
                }
                let at: usize = match self.upload_position(key.as_str()) {
                    Some(i) => i,
                    None => {
                        self.state = SessionState::Closed;
                        assert(self@.uploads =~= before.uploads);
                        return Err(SessionError::UnknownUpload);
                    },
                };
                let mut upload: ChunkedUpload = self.uploads.remove(at);
                let ghost was = upload@;
                let ghost bytes = data@;
                assert(was == before.uploads[at as int]);
                let _old: Option<Vec<u8>> = upload.received_chunks.insert(chunk_index, data);
                proof {
                    assert(upload@.received =~= was.received.insert(chunk_index, bytes));
                    assert(upload@ == with_chunk(was, chunk_index, bytes));
                    lemma_received_len(upload.received_chunks@, upload@.received);
                    assert(self@.uploads =~= before.uploads.remove(at as int));
                    lemma_remove_keeps_distinct(upload_keys(before.uploads), at as int);
                    assert(upload_keys(self@.uploads) =~= upload_keys(before.uploads).remove(
                        at as int,
                    ));
                }
                if upload.received_chunks.len() == upload.chunk_count as usize {
                    match assemble(&upload) {
                        Ok(whole) => Ok(
                            SessionAction::Upload { key, data: whole, user_id: upload.user_id },
                        ),
                        Err(e) => {
                            self.state = SessionState::Closed;
                            assert(self@.uploads =~= before.uploads.remove(at as int));
                            Err(e)
                        },
                    }
                } else {
                    let ghost grown = upload@;
                    self.uploads.insert(at, upload);
                    proof {
                        assert(self@.uploads =~= before.uploads.update(at as int, grown));
                        assert(upload_keys(self@.uploads) =~= upload_keys(before.uploads));
                    }
                    Ok(SessionAction::Continue)
                }
            },
            Frame::ChunkEnd { key } => Ok(SessionAction::Continue),
            Frame::Ack { key, original_size, compressed_size } => Ok(SessionAction::Continue),
            Frame::Data { key, data } => Ok(SessionAction::Continue),
            Frame::NotFound { key } => Ok(SessionAction::Continue),
            Frame::Verified { key, hash_match } => Ok(SessionAction::Continue),
        }
    }
}

/// The dictionary id recorded with an object: the id of a frozen dictionary,
/// `mutable` for one that still learns.
pub open spec fn recorded_dict_id(d: DictionaryView) -> Seq<char> {
    if d.frozen {
        d.id
    } else {
        "mutable"@
    }
}

/// The upload path: compresses the object against the shared dictionary,
/// updating dictionary and symbol store, and gives the payload to store, the
/// record to store with it, and the acknowledgement to send.
pub fn handle_upload(
    key: String,
    data: &[u8],
    user_id: Option<String>,
    dict: &mut Dictionary,
    symbol_store: &mut SymbolStore,
    now: u64,
) -> (r: (Vec<u8>, ObjectMetadata, Frame))
    requires
        old(dict).wf(),
        store_consistent(old(symbol_store)@),
    ensures
        final(dict).wf(),
        store_consistent(final(symbol_store)@),
        final(dict)@ == dictionary_after(old(dict)@, data@),
        final(symbol_store)@ == store_after(old(symbol_store)@, old(dict)@, data@, key@, now),
        r.0@ == object_payload(final(dict)@.pairs, data@),
        r.1.key@ == key@,
        r.1.object_hash@ == sha256_digest(r.0@),
        r.1.original_hash@ == sha256_digest(data@),
        r.1.dict_id@ == recorded_dict_id(final(dict)@),
        r.1.original_size == data@.len(),
        r.1.compressed_size == r.0@.len(),
        r.1.stored_at == now,
        r.1.user_id == user_id,
        r.1.engine_version@ == "symvea-engine@0.1.0"@,
        r.1.codec_version == 1,
        infos_of(r.1.symbols@) == infos_after(old(dict)@, data@),
        r.1.token_breakdown.symbol_bytes == covered(
            final(dict)@.pairs,
            tokenization(final(dict)@.pairs, data@),
        ),
        r.1.token_breakdown.literal_bytes == literal_count(
            final(dict)@.pairs,
            tokenization(final(dict)@.pairs, data@),
        ),
        r.1.token_breakdown.literal_reason@ == "Below promotion threshold"@,
        r.1.token_breakdown.symbol_bytes + r.1.token_breakdown.literal_bytes == data@.len(),
        r.2@ == (FrameView::Ack {
            key: key@,
            original_size: data@.len() as u64,
            compressed_size: r.0@.len() as u64,
        }),
{
    let original_size: u64 = data.len() as u64;
    let original_hash: [u8; 32] = sha256(data);
    let (payload, symbols, breakdown) = compress(data, dict, symbol_store, key.as_str(), now);
    let dict_id: String = if dict.is_frozen() {
        dict.id().clone()
    } else {
        String::from_str("mutable")
    };
    let compressed_size: u64 = payload.len() as u64;
    let object_hash: [u8; 32] = sha256(payload.as_slice());
    let mut meta = ObjectMetadata::new(
        key.clone(),
        object_hash,
        original_hash,
        dict_id,
        original_size,
        compressed_size,
        user_id,
        now,
    );
    meta.symbols = symbols;
    meta.token_breakdown = breakdown;
    let ack = Frame::Ack { key, original_size, compressed_size };
    (payload, meta, ack)
}

/// The freeze path: a dictionary that still learns is frozen at `now`, and
/// its new id is returned so that the frozen dictionary can be persisted
/// under it. One that is frozen already is left alone.
pub fn handle_freeze(dict: &mut Dictionary, now: u64) -> (id: Option<String>)
    requires
        old(dict).wf(),
    ensures
        final(dict).wf(),
        final(dict)@ == frozen_form(old(dict)@, now),
        old(dict)@.frozen ==> id is None,
        !old(dict)@.frozen ==> id is Some && id->Some_0@ == final(dict)@.id,
{
    if dict.is_frozen() {
        None
    } else {
        Some(dict.freeze(now))
    }
}

/// The download path: the answer for `key`, given what is stored under it.
/// An object that is there is decompressed through the shared dictionary; one
/// that is not is reported as not found.
pub fn handle_download(key: String, stored: Option<&[u8]>, dict: &Dictionary) -> (f: Frame)
    ensures
        f@ == match stored {
            Some(payload) => FrameView::Data {
                key: key@,
                data: decompression(dict@.pairs, payload@),
            },
            None => FrameView::NotFound { key: key@ },
        },
{
    match stored {
        Some(payload) => Frame::Data { key, data: decompress(payload, dict) },
        None => Frame::NotFound { key },
    }
}

/// The verify path: the stored object is decompressed and its SHA-256 held
/// against the hash of the original content. A match is confirmed to the
/// client; a mismatch is corruption.
pub fn handle_verify(
    key: String,
    stored: Option<(&[u8], &ObjectMetadata)>,
    dict: &Dictionary,
) -> (r: Result<Frame, SessionError>)
    ensures
        match stored {
            None => r is Ok && r->Ok_0@ == (FrameView::NotFound { key: key@ }),
            Some((payload, meta)) => if sha256_digest(decompression(dict@.pairs, payload@))
                == meta.original_hash@ {
                r is Ok && r->Ok_0@ == (FrameView::Verified { key: key@, hash_match: true })
            } else {
                r == Err::<Frame, SessionError>(SessionError::CorruptionDetected)
            },
        },
{
    match stored {
        None => Ok(Frame::NotFound { key }),
        Some((payload, meta)) => {
            let data: Vec<u8> = decompress(payload, dict);
            if meta.verify_original(data.as_slice()) {
                Ok(Frame::Verified { key, hash_match: true })
            } else {
                Err(SessionError::CorruptionDetected)
            }
        },
    }
}

/// The plain view of the received chunks has as many entries as the map.
pub proof fn lemma_received_len(m: Map<u32, Vec<u8>>, v: Map<u32, Seq<u8>>)
    requires
        m.dom().finite(),
        v == Map::new(|i: u32| m.contains_key(i), |i: u32| m[i]@),
    ensures
        v.len() == m.len(),
{
    assert(v.dom() =~= m.dom());
}

/// Taking one key out of a list without repeats leaves no repeats.
pub proof fn lemma_remove_keeps_distinct(keys: Seq<Seq<char>>, at: int)
    requires
        distinct_texts(keys),
        0 <= at < keys.len(),
    ensures
        distinct_texts(keys.remove(at)),
{
    let after = keys.remove(at);
    assert forall|a: int, b: int| 0 <= a < b < after.len() implies after[a] != after[b] by {
        let a0 = if a < at {
            a
        } else {
            a + 1
        };
        let b0 = if b < at {
            b
        } else {
            b + 1
        };
        assert(after[a] == keys[a0]);
        assert(after[b] == keys[b0]);
    }
}

/// The chunks received after the given chunk data frames came in order, each
/// as index and bytes.
pub open spec fn received_after(arrivals: Seq<(u32, Seq<u8>)>) -> Map<u32, Seq<u8>>
    decreases arrivals.len(),
{
    if arrivals.len() == 0 {
        Map::<u32, Seq<u8>>::empty()
    } else {
        received_after(arrivals.drop_last()).insert(arrivals.last().0, arrivals.last().1)
    }
}

/// No chunk index comes twice.
pub open spec fn distinct_indices(arrivals: Seq<(u32, Seq<u8>)>) -> bool {
    forall|i: int, j: int|
        0 <= i < j < arrivals.len() ==> (#[trigger] arrivals[i]).0 != (#[trigger] arrivals[j]).0
}

/// Every chunk of `a` is a chunk of `b`.
pub open spec fn chunks_within(a: Seq<(u32, Seq<u8>)>, b: Seq<(u32, Seq<u8>)>) -> bool {
    forall|i: int| 0 <= i < a.len() ==> exists|j: int| 0 <= j < b.len() && b[j] == #[trigger] a[i]
}

/// After chunks with distinct indices came, each index has its chunk's bytes,
/// and no other index has any.
pub proof fn lemma_received(arrivals: Seq<(u32, Seq<u8>)>)
    requires
        distinct_indices(arrivals),
    ensures
        forall|k: int|
            0 <= k < arrivals.len() ==> received_after(arrivals).contains_key(
                (#[trigger] arrivals[k]).0,
            ) && received_after(arrivals)[arrivals[k].0] == arrivals[k].1,
        forall|x: u32| #[trigger]
            received_after(arrivals).contains_key(x) ==> exists|k: int|
                0 <= k < arrivals.len() && (#[trigger] arrivals[k]).0 == x,
    decreases arrivals.len(),
{
    if arrivals.len() > 0 {
        let front = arrivals.drop_last();
        let last = arrivals.last();
        assert forall|i: int, j: int| 0 <= i < j < front.len() implies (#[trigger] front[i]).0 != (
        #[trigger] front[j]).0 by {
            assert(front[i] == arrivals[i] && front[j] == arrivals[j]);
        }
        lemma_received(front);
        assert forall|k: int| 0 <= k < arrivals.len() implies received_after(arrivals).contains_key(
            (#[trigger] arrivals[k]).0,
        ) && received_after(arrivals)[arrivals[k].0] == arrivals[k].1 by {
            if k < front.len() {
                assert(front[k] == arrivals[k]);
                assert(arrivals[k].0 != arrivals[arrivals.len() - 1].0);
            }
        }
        assert forall|x: u32| #[trigger] received_after(arrivals).contains_key(x) implies exists|
            k: int,
        |
            0 <= k < arrivals.len() && (#[trigger] arrivals[k]).0 == x by {
            if x == last.0 {
                assert(arrivals[arrivals.len() - 1].0 == x);
            } else {
                assert(received_after(front).contains_key(x));
                let k = choose|k: int| 0 <= k < front.len() && (#[trigger] front[k]).0 == x;
                assert(arrivals[k] == front[k]);
            }
        }
    }
}

/// Arrival order does not matter: the same chunks, each index once, leave
/// the same received chunks in whatever order they come, and so the same
/// assembled bytes for the same key, chunk count and total size.
pub proof fn lemma_arrival_order(
    a: Seq<(u32, Seq<u8>)>,
    b: Seq<(u32, Seq<u8>)>,
    key: Seq<char>,
    total_size: u64,
    chunk_count: u32,
    user_id: Option<Seq<char>>,
)
    requires
        distinct_indices(a),
        distinct_indices(b),
        chunks_within(a, b),
        chunks_within(b, a),
    ensures
        received_after(a) == received_after(b),
        assembly(
            UploadView { key, total_size, chunk_count, received: received_after(a), user_id },
        ) == assembly(
            UploadView { key, total_size, chunk_count, received: received_after(b), user_id },
        ),
{
    lemma_received(a);
    lemma_received(b);
    let ma = received_after(a);
    let mb = received_after(b);
    assert forall|x: u32| ma.contains_key(x) implies mb.contains_key(x) && mb[x] == ma[x] by {
        let k = choose|k: int| 0 <= k < a.len() && (#[trigger] a[k]).0 == x;
        let j = choose|j: int| 0 <= j < b.len() && b[j] == a[k];
        assert(mb.contains_key(b[j].0) && mb[b[j].0] == b[j].1);
    }
    assert forall|x: u32| mb.contains_key(x) implies ma.contains_key(x) by {
        let k = choose|k: int| 0 <= k < b.len() && (#[trigger] b[k]).0 == x;
        let j = choose|j: int| 0 <= j < a.len() && a[j] == b[k];
        assert(ma.contains_key(a[j].0));
    }
    assert(ma =~= mb);
}

} // verus!
