use vstd::prelude::*;
use vstd::string::StringExecFns;
use crate::engine::hash::{digest_eq, sha256, sha256_digest};

verus! {

/// What one token of an object stands for.
#[derive(Debug, Clone)]
pub enum TokenKind {
    Symbol { hash: String, len: usize },
    Literal { len: usize, reason: String },
}

/// A symbol that an object refers to: its identity and its length in bytes.
#[derive(Debug, Clone)]
pub struct SymbolInfo {
    pub hash: String,
    pub bytes: u64,
}

/// How the bytes of an object divide into bytes covered by symbols and bytes
/// carried as literals.
#[derive(Debug, Clone)]
pub struct TokenBreakdown {
    pub symbol_bytes: u64,
    pub literal_bytes: u64,
    pub literal_reason: String,
}

/// The record kept with each stored object.
#[derive(Debug, Clone)]
pub struct ObjectMetadata {
    pub key: String,
    pub object_hash: [u8; 32],
    pub original_hash: [u8; 32],
    pub dict_id: String,
    pub engine_version: String,
    pub original_size: u64,
    pub compressed_size: u64,
    pub stored_at: u64,
    pub user_id: Option<String>,
    pub codec_version: u16,
    pub symbols: Vec<SymbolInfo>,
    pub token_breakdown: TokenBreakdown,
}

impl TokenBreakdown {
    /// A breakdown of the given byte counts, with the standard reason.
    pub fn new(symbol_bytes: u64, literal_bytes: u64) -> (b: Self)
        ensures
            b.symbol_bytes == symbol_bytes,
            b.literal_bytes == literal_bytes,
            b.literal_reason@ == "Below promotion threshold"@,
    {
        Self {
            symbol_bytes,
            literal_bytes,
            literal_reason: String::from_str("Below promotion threshold"),
        }
    }

    /// The breakdown covers an object of `size` bytes exactly.
    pub open spec fn covers(&self, size: int) -> bool {
        self.symbol_bytes + self.literal_bytes == size
    }
}

impl ObjectMetadata {
    /// A record for an object stored at `stored_at`, with no symbols listed
    /// and an empty breakdown.
    pub fn new(
        key: String,
        object_hash: [u8; 32],
        original_hash: [u8; 32],
        dict_id: String,
        original_size: u64,
        compressed_size: u64,
        user_id: Option<String>,
        stored_at: u64,
    ) -> (m: Self)
        ensures
            m.key == key,
            m.object_hash == object_hash,
            m.original_hash == original_hash,
            m.dict_id == dict_id,
            m.engine_version@ == "symvea-engine@0.1.0"@,
            m.original_size == original_size,
            m.compressed_size == compressed_size,
            m.stored_at == stored_at,
            m.user_id == user_id,
            m.codec_version == 1,
            m.symbols@.len() == 0,
            m.token_breakdown.symbol_bytes == 0,
            m.token_breakdown.literal_bytes == 0,
            m.token_breakdown.literal_reason@ == "Below promotion threshold"@,
    {
        Self {
            key,
            object_hash,
            original_hash,
            dict_id,
            engine_version: String::from_str("symvea-engine@0.1.0"),
            original_size,
            compressed_size,
            stored_at,
            user_id,
            codec_version: 1,
            symbols: Vec::new(),
            token_breakdown: TokenBreakdown::new(0, 0),
        }
    }

    /// Whether `reconstructed_data` has the hash recorded as the object's.
    pub fn verify_integrity(&self, reconstructed_data: &[u8]) -> (ok: bool)
        ensures
            ok == (sha256_digest(reconstructed_data@) == self.object_hash@),
    {
        let computed: [u8; 32] = sha256(reconstructed_data);
        digest_eq(&computed, &self.object_hash)
    }

    /// Whether `reconstructed_data` has the hash recorded for the original
    /// content: the round-trip check behind a verify request.
    pub fn verify_original(&self, reconstructed_data: &[u8]) -> (ok: bool)
        ensures
            ok == (sha256_digest(reconstructed_data@) == self.original_hash@),
    {
        let computed: [u8; 32] = sha256(reconstructed_data);
        digest_eq(&computed, &self.original_hash)
    }
}

} // verus!
