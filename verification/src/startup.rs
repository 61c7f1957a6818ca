//! The integrity scan that decides at boot whether the server may serve.

use vstd::prelude::*;
use crate::engine::hash::sha256_digest;
use crate::storage::symbols::{StoredSymbolView, SymbolStore};

verus! {

/// Why the server must not start.
#[derive(Debug, Clone, Copy, PartialEq, Eq)]
pub enum StartupError {
    /// The symbol at this position no longer has the SHA-256 recorded for it.
    SymbolCorrupted(usize),
}

/// The boot-time check of the symbol records.
#[derive(Debug, Clone, Copy)]
pub struct StartupValidator {
    /// Whether the bytes of every symbol are hashed again; without it the
    /// symbols are only counted.
    pub full_verification: bool,
}

/// The bytes of a record have the SHA-256 that the record carries.
pub open spec fn intact(s: StoredSymbolView) -> bool {
    sha256_digest(s.bytes) == s.content_hash
}

impl StartupValidator {
    /// A validator in the default posture: full verification.
    pub fn new() -> (v: Self)
        ensures
            v.full_verification,
    {
        Self { full_verification: true }
    }

    /// A validator that only counts, for corpora too large to hash at boot.
    pub fn counting_only() -> (v: Self)
        ensures
            !v.full_verification,
    {
        Self { full_verification: false }
    }

    /// Decides whether the server may start on the symbols loaded into
    /// `store`, and says how many there are. Under full verification one
    /// record whose bytes do not have the recorded SHA-256 refuses the start;
    /// the error names the first such record.
    pub fn validate_and_start(&self, store: &SymbolStore) -> (r: Result<usize, StartupError>)
        ensures
            !self.full_verification ==> r == Ok::<usize, StartupError>(
                store@.symbols.len() as usize,
            ),
            self.full_verification ==> match r {
                Ok(n) => n == store@.symbols.len() && forall|i: int|
                    0 <= i < store@.symbols.len() ==> intact(#[trigger] store@.symbols[i]),
                Err(StartupError::SymbolCorrupted(k)) => k < store@.symbols.len() && !intact(
                    store@.symbols[k as int],
                ) && forall|i: int| 0 <= i < k ==> intact(#[trigger] store@.symbols[i]),
            },
    {
        if !self.full_verification {
            return Ok(store.symbol_count());
        }
        match store.verify_all_symbols() {
            Ok(_) => Ok(store.symbol_count()),
            Err(k) => Err(StartupError::SymbolCorrupted(k)),
        }
    }
}

} // verus!
