use vstd::prelude::*;
use vstd::string::StringExecFns;
use vstd::utf8::{decode_utf8, encode_utf8, valid_utf8};
use crate::engine::tokenizer::starts_with_at;
use crate::utils::bytes::copy_range;
use crate::utils::crc::{crc32, crc32_checksum};
use crate::utils::text::{hex_number, hex_text, string_from_utf8};

verus! {

/// Where the object store keeps its two files for each key.
#[derive(Debug)]
pub struct LocalStorage {
    root: String,
}

impl LocalStorage {
    /// A store below the directory `root`.
    pub fn new(root: String) -> (s: Self)
        ensures
            s.root_text() == root@,
    {
        Self { root }
    }

    /// The directory the store lies below.
    pub closed spec fn root_text(&self) -> Seq<char> {
        self.root@
    }

    /// The file that holds the compressed payload of `key`.
    pub fn data_path(&self, key: &str) -> (p: String)
        ensures
            p@ == self.root_text() + "/files/"@ + key@,
    {
        let p: String = self.root.clone();
        p.concat("/files/").concat(key)
    }

    /// The file that holds the record of `key`.
    pub fn meta_path(&self, key: &str) -> (p: String)
        ensures
            p@ == self.root_text() + "/files/"@ + key@ + ".meta"@,
    {
        let p: String = self.root.clone();
        p.concat("/files/").concat(key).concat(".meta")
    }
}

/// Where the symbol records, the usage index and the corpus records lie
/// below a data root.
#[derive(Debug)]
pub struct PersistentStorage {
    pub root_path: String,
}

impl PersistentStorage {
    /// The layout below the directory `root_path`.
    pub fn new(root_path: String) -> (s: Self)
        ensures
            s.root_path == root_path,
    {
        Self { root_path }
    }

    /// The one-line status marker.
    pub fn state_path(&self) -> (p: String)
        ensures
            p@ == self.root_path@ + "/STATE"@,
    {
        let p: String = self.root_path.clone();
        p.concat("/STATE")
    }

    /// The file that holds the raw bytes of the symbol `hash`.
    pub fn symbol_path(&self, hash: &str) -> (p: String)
        ensures
            p@ == self.root_path@ + "/symbols/sym_"@ + hash@ + ".bin"@,
    {
        let p: String = self.root_path.clone();
        p.concat("/symbols/sym_").concat(hash).concat(".bin")
    }

    /// The file that holds the record of the symbol `hash`.
    pub fn symbol_meta_path(&self, hash: &str) -> (p: String)
        ensures
            p@ == self.root_path@ + "/symbols/sym_"@ + hash@ + ".meta.json"@,
    {
        let p: String = self.root_path.clone();
        p.concat("/symbols/sym_").concat(hash).concat(".meta.json")
    }

    /// The file that holds the usage record of the symbol `hash`.
    pub fn usage_path(&self, hash: &str) -> (p: String)
        ensures
            p@ == self.root_path@ + "/symbol_usage/"@ + hash@,
    {
        let p: String = self.root_path.clone();
        p.concat("/symbol_usage/").concat(hash)
    }

    /// The id under which the corpus keeps the record of `key`: the CRC-32
    /// of the key in hexadecimal, without leading zeros.
    pub fn file_id(key: &str) -> (id: String)
        ensures
            id@ == hex_number(crc32_checksum(encode_utf8(key@)) as nat),
    {
        hex_text(crc32(key.as_bytes()) as u64)
    }

    /// The file in which the corpus keeps the record of `key`.
    pub fn corpus_meta_path(&self, key: &str) -> (p: String)
        ensures
            p@ == self.root_path@ + "/corpus/files/"@ + hex_number(
                crc32_checksum(encode_utf8(key@)) as nat,
            ) + ".meta.json"@,
    {
        let p: String = self.root_path.clone();
        let id: String = Self::file_id(key);
        p.concat("/corpus/files/").concat(id.as_str()).concat(".meta.json")
    }

    /// The aggregate corpus index.
    pub fn corpus_index_path(&self) -> (p: String)
        ensures
            p@ == self.root_path@ + "/corpus/index.json"@,
    {
        let p: String = self.root_path.clone();
        p.concat("/corpus/index.json")
    }

    /// The snapshot of the frozen dictionary `id`.
    pub fn dictionary_path(&self, id: &str) -> (p: String)
        ensures
            p@ == self.root_path@ + "/dictionary_"@ + id@ + ".json"@,
    {
        let p: String = self.root_path.clone();
        p.concat("/dictionary_").concat(id).concat(".json")
    }
}

/// The bytes of `sym_`.
pub open spec fn symbol_file_prefix() -> Seq<u8> {
    seq![0x73u8, 0x79u8, 0x6du8, 0x5fu8]
}

/// The bytes of `.bin`.
pub open spec fn symbol_file_suffix() -> Seq<u8> {
    seq![0x2eu8, 0x62u8, 0x69u8, 0x6eu8]
}

/// The bytes of `dictionary_`.
pub open spec fn dictionary_file_prefix() -> Seq<u8> {
    seq![0x64u8, 0x69u8, 0x63u8, 0x74u8, 0x69u8, 0x6fu8, 0x6eu8, 0x61u8, 0x72u8, 0x79u8, 0x5fu8]
}

/// The bytes of `.json`.
pub open spec fn dictionary_file_suffix() -> Seq<u8> {
    seq![0x2eu8, 0x6au8, 0x73u8, 0x6fu8, 0x6eu8]
}

/// Whether `b` ends with `tail`.
pub open spec fn ends_with(b: Seq<u8>, tail: Seq<u8>) -> bool {
    b.len() >= tail.len() && tail.is_prefix_of(b.skip(b.len() - tail.len()))
}

/// Whether a byte is an ASCII hexadecimal digit, of either case.
pub open spec fn is_hex_byte(c: u8) -> bool {
    (0x30 <= c <= 0x39) || (0x61 <= c <= 0x66) || (0x41 <= c <= 0x46)
}

/// The symbol hash that a file name in the symbol directory stands for:
/// what lies between `sym_` and `.bin`, or the whole of a name of 32
/// hexadecimal digits. Other names stand for none, and so does any other
/// name that ends in `.bin`.
pub open spec fn hash_of_file_name(name: Seq<char>) -> Option<Seq<char>> {
    let b = encode_utf8(name);
    if ends_with(b, symbol_file_suffix()) {
        if b.len() >= 8 && symbol_file_prefix().is_prefix_of(b) && valid_utf8(
            b.subrange(4, b.len() - 4),
        ) {
            Some(decode_utf8(b.subrange(4, b.len() - 4)))
        } else {
            None
        }
    } else if b.len() == 32 && forall|i: int| 0 <= i < 32 ==> is_hex_byte(#[trigger] b[i]) {
        Some(name)
    } else {
        None
    }
}

/// Whether every byte is a hexadecimal digit.
fn all_hex(b: &[u8]) -> (yes: bool)
    ensures
        yes == forall|i: int| 0 <= i < b@.len() ==> is_hex_byte(#[trigger] b@[i]),
{
    let mut i: usize = 0;
    while i < b.len()
        invariant
            i <= b@.len(),
            forall|k: int| 0 <= k < i ==> is_hex_byte(#[trigger] b@[k]),
        decreases b@.len() - i,
    {
        let c: u8 = b[i];
        if !((0x30 <= c && c <= 0x39) || (0x61 <= c && c <= 0x66) || (0x41 <= c && c <= 0x46)) {
            return false;
        }
        i += 1;
    }
    true
}

/// Whether `b` ends with `tail`.
fn has_suffix(b: &[u8], tail: &[u8]) -> (yes: bool)
    ensures
        yes == ends_with(b@, tail@),
{
    if b.len() < tail.len() {
        return false;
    }
    starts_with_at(b, b.len() - tail.len(), tail)
}

impl PersistentStorage {
    /// The symbol hash that the file `name` in the symbol directory stands
    /// for, if it stands for one.
    pub fn symbol_hash_of(name: &str) -> (hash: Option<String>)
        ensures
            match hash {
                Some(h) => hash_of_file_name(name@) == Some(h@),
                None => hash_of_file_name(name@) is None,
            },
    {
        let b: &[u8] = name.as_bytes();
        let prefix: [u8; 4] = [0x73, 0x79, 0x6d, 0x5f];
        let suffix: [u8; 4] = [0x2e, 0x62, 0x69, 0x6e];
        assert(prefix@ =~= symbol_file_prefix());
        assert(suffix@ =~= symbol_file_suffix());
        if has_suffix(b, suffix.as_slice()) {
            proof {
                assert(b@.skip(0) =~= b@);
            }
            if b.len() >= 8 && starts_with_at(b, 0, prefix.as_slice()) {
                string_from_utf8(copy_range(b, 4, b.len() - 4))
            } else {
                None
            }
        } else if b.len() == 32 && all_hex(b) {
            Some(String::from_str(name))
        } else {
            None
        }
    }

    /// Whether the file `name` in the data root is the snapshot of a frozen
    /// dictionary: `dictionary_`, an id, `.json`.
    pub fn is_dictionary_file(name: &str) -> (yes: bool)
        ensures
            yes == (dictionary_file_prefix().is_prefix_of(encode_utf8(name@)) && ends_with(
                encode_utf8(name@),
                dictionary_file_suffix(),
            )),
    {
        let b: &[u8] = name.as_bytes();
        let prefix: [u8; 11] = [0x64, 0x69, 0x63, 0x74, 0x69, 0x6f, 0x6e, 0x61, 0x72, 0x79, 0x5f];
        let suffix: [u8; 5] = [0x2e, 0x6a, 0x73, 0x6f, 0x6e];
        assert(prefix@ =~= dictionary_file_prefix());
        assert(suffix@ =~= dictionary_file_suffix());
        proof {
            assert(b@.skip(0) =~= b@);
        }
        starts_with_at(b, 0, prefix.as_slice()) && has_suffix(b, suffix.as_slice())
    }
}

/// Where the advisory locks lie below a data root.
#[derive(Debug)]
pub struct CoordinationManager {
    data_dir: String,
}

/// The first eight bytes of a hash as text, where it has that many and they
/// are text by themselves.
pub open spec fn lock_prefix(hash: Seq<char>) -> Option<Seq<char>> {
    let bytes = encode_utf8(hash);
    if bytes.len() >= 8 && valid_utf8(bytes.subrange(0, 8)) {
        Some(decode_utf8(bytes.subrange(0, 8)))
    } else {
        None
    }
}

impl CoordinationManager {
    /// The locks below the directory `data_dir`.
    pub fn new(data_dir: &str) -> (m: Self)
        ensures
            m.dir_text() == data_dir@,
    {
        Self { data_dir: String::from_str(data_dir) }
    }

    /// The directory the locks lie in.
    pub closed spec fn dir_text(&self) -> Seq<char> {
        self.data_dir@
    }

    /// The lock taken to freeze and persist the dictionary.
    pub fn dictionary_lock_path(&self) -> (p: String)
        ensures
            p@ == self.dir_text() + "/.dict_lock"@,
    {
        let p: String = self.data_dir.clone();
        p.concat("/.dict_lock")
    }

    /// The lock taken for the first write of a symbol: named after the first
    /// eight bytes of its hash. A hash too short for that has no lock.
    pub fn symbol_lock_path(&self, symbol_hash: &str) -> (p: Option<String>)
        ensures
            match lock_prefix(symbol_hash@) {
                Some(prefix) => p is Some && p->Some_0@ == self.dir_text() + "/.symbol_lock_"@
                    + prefix,
                None => p is None,
            },
    {
        let bytes: &[u8] = symbol_hash.as_bytes();
        if bytes.len() < 8 {
            return None;
        }
        match string_from_utf8(copy_range(bytes, 0, 8)) {
            Some(prefix) => {
                let p: String = self.data_dir.clone();
                Some(p.concat("/.symbol_lock_").concat(prefix.as_str()))
            },
            None => None,
        }
    }
}

} // verus!
