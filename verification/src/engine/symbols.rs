use vstd::prelude::*;
use vstd::string::StringExecFns;
use crate::engine::hash::{content_hash_hex, content_id};

verus! {

/// A byte sequence the dictionary can stand a token for, with its
/// content-derived identity.
#[derive(Debug, Clone)]
pub struct Symbol {
    pub bytes: Vec<u8>,
    pub token: u32,
    pub gain: isize,
    pub hash: String,
}

/// Longest byte sequence a symbol may hold.
pub const MAX_SYMBOL_LEN: usize = 64;

/// First token that can stand for a symbol; the tokens below it are the
/// literal bytes.
pub const FIRST_SYMBOL_TOKEN: u32 = 256;

/// What a symbol list says to the codec: each symbol's bytes and token.
pub open spec fn pairs_of(symbols: Seq<Symbol>) -> Seq<(Seq<u8>, u32)> {
    Seq::new(symbols.len(), |i: int| (symbols[i].bytes@, symbols[i].token))
}

impl Symbol {
    /// A symbol for `bytes`; its identity is computed from the content.
    pub fn new(bytes: Vec<u8>, token: u32, gain: isize) -> (s: Self)
        ensures
            s.bytes@ == bytes@,
            s.token == token,
            s.gain == gain,
            s.hash@ == content_id(bytes@),
    {
        let hash: String = content_hash_hex(bytes.as_slice());
        Self { bytes, token, gain, hash }
    }

    /// The identity is the one that the content gives.
    pub open spec fn hash_matches(&self) -> bool {
        self.hash@ == content_id(self.bytes@)
    }

    /// The symbol's display id: `sym:` and the hash.
    pub fn symbol_id(&self) -> (id: String)
        ensures
            id@ == "sym:"@ + self.hash@,
    {
        let id: String = String::from_str("sym:");
        id.concat(self.hash.as_str())
    }

    /// A copy of this symbol.
    pub fn duplicate(&self) -> (s: Self)
        ensures
            s.bytes@ == self.bytes@,
            s.token == self.token,
            s.gain == self.gain,
            s.hash@ == self.hash@,
    {
        Self {
            bytes: self.bytes.clone(),
            token: self.token,
            gain: self.gain,
            hash: self.hash.clone(),
        }
    }
}

} // verus!
