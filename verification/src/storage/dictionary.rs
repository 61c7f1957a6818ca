use vstd::prelude::*;
use vstd::string::StringExecFns;
use vstd::utf8::{
    decode_utf8, decode_utf8_encode_utf8, encode_utf8, encode_utf8_decode_utf8,
    encode_utf8_valid_utf8, valid_utf8,
};
use crate::engine::hash::{content_hash_hex, content_id};
use crate::engine::symbols::{pairs_of, Symbol};
use crate::engine::tokenizer::{
    find_bytes, find_token, lemma_find_bytes, lemma_find_token, pairs_consistent,
};
use crate::utils::bytes::{
    bytes_eq, copy_range, lemma_u32_at_is_be, lemma_u32_be_round_trip, lemma_u64_at_is_be,
    lemma_u64_be_round_trip, put_bytes, put_u32_be, put_u64_be, read_u32_be, read_u64_be, u32_at,
    u32_be, u64_at, u64_be,
};
use crate::utils::text::string_from_utf8;

verus! {

/// The shared symbol dictionary: which byte sequences have a token, and which.
/// It is created mutable, grows by `insert`, and is sealed by `freeze`.
#[derive(Debug)]
pub struct Dictionary {
    id: String,
    entries: Vec<Symbol>,
    frozen: bool,
    created_at: u64,
    frozen_at: Option<u64>,
    version: String,
}

/// What a dictionary holds, as plain values. `pairs` lists the entries in the
/// order they were inserted, each as bytes and token.
pub struct DictionaryView {
    pub id: Seq<char>,
    pub pairs: Seq<(Seq<u8>, u32)>,
    pub frozen: bool,
    pub created_at: u64,
    pub frozen_at: Option<u64>,
    pub version: Seq<char>,
}

/// Why bytes were not taken for a dictionary.
#[derive(Debug, Clone, Copy, PartialEq, Eq)]
pub enum DictionaryError {
    /// The bytes end before the layout does.
    Truncated,
    /// The id or the version is not valid UTF-8.
    InvalidText,
    /// An entry would break the inverse mapping, or has bytes or a token out
    /// of range.
    InvalidEntry,
    /// The frozen flag or the marker of the freeze time is neither 0 nor 1.
    InvalidFlag,
    /// Bytes follow the layout.
    TrailingBytes,
}

/// The token that stands for `bytes`, if any.
pub open spec fn token_for(pairs: Seq<(Seq<u8>, u32)>, bytes: Seq<u8>) -> Option<u32> {
    let k = find_bytes(pairs, bytes, 0);
    if k >= 0 {
        Some(pairs[k].1)
    } else {
        None
    }
}

/// The bytes that `token` stands for, if any.
pub open spec fn bytes_for(pairs: Seq<(Seq<u8>, u32)>, token: u32) -> Option<Seq<u8>> {
    let k = find_token(pairs, token, 0);
    if k >= 0 {
        Some(pairs[k].0)
    } else {
        None
    }
}

/// Whether `insert` would take this entry: the dictionary is mutable, the
/// bytes are one to 64 long, the token is above the literal range, and neither
/// the bytes nor the token is in use.
pub open spec fn accepts(v: DictionaryView, bytes: Seq<u8>, token: u32) -> bool {
    !v.frozen && 1 <= bytes.len() <= 64 && token >= 256 && token_for(v.pairs, bytes) is None
        && bytes_for(v.pairs, token) is None
}

/// A text with its length in front, as eight big-endian bytes.
pub open spec fn text_bytes(s: Seq<char>) -> Seq<u8> {
    u64_be(encode_utf8(s).len() as u64) + encode_utf8(s)
}

/// One entry in the stable binary form: length, bytes, token.
pub open spec fn entry_bytes(e: (Seq<u8>, u32)) -> Seq<u8> {
    u64_be(e.0.len() as u64) + e.0 + u32_be(e.1)
}

/// The entries in the stable binary form, in order.
pub open spec fn entries_bytes(pairs: Seq<(Seq<u8>, u32)>) -> Seq<u8>
    decreases pairs.len(),
{
    if pairs.len() == 0 {
        Seq::<u8>::empty()
    } else {
        entries_bytes(pairs.drop_last()) + entry_bytes(pairs.last())
    }
}

/// An optional time stamp in the stable binary form.
pub open spec fn stamp_bytes(t: Option<u64>) -> Seq<u8> {
    match t {
        None => seq![0u8],
        Some(at) => seq![1u8] + u64_be(at),
    }
}

/// The stable binary form of a dictionary: id, entry count, entries, frozen
/// flag, creation time, freeze time, engine version; lengths and numbers
/// big-endian.
pub open spec fn dictionary_bytes(v: DictionaryView) -> Seq<u8> {
    text_bytes(v.id) + u64_be(v.pairs.len() as u64) + entries_bytes(v.pairs) + seq![
        if v.frozen {
            1u8
        } else {
            0u8
        },
    ] + u64_be(v.created_at) + stamp_bytes(v.frozen_at) + text_bytes(v.version)
}

/// The dictionary as `freeze` leaves it: a frozen one as it was; a mutable one
/// sealed at `now`, its id replaced by the identity of its sealed content.
pub open spec fn frozen_form(v: DictionaryView, now: u64) -> DictionaryView {
    if v.frozen {
        v
    } else {
        let sealed = DictionaryView {
            id: v.id,
            pairs: v.pairs,
            frozen: true,
            created_at: v.created_at,
            frozen_at: Some(now),
            version: v.version,
        };
        DictionaryView {
            id: content_id(dictionary_bytes(sealed)),
            pairs: v.pairs,
            frozen: true,
            created_at: v.created_at,
            frozen_at: Some(now),
            version: v.version,
        }
    }
}

/// The dictionary as `insert` leaves it.
pub open spec fn inserted_form(v: DictionaryView, bytes: Seq<u8>, token: u32) -> DictionaryView {
    if accepts(v, bytes, token) {
        DictionaryView {
            id: v.id,
            pairs: v.pairs.push((bytes, token)),
            frozen: v.frozen,
            created_at: v.created_at,
            frozen_at: v.frozen_at,
            version: v.version,
        }
    } else {
        v
    }
}

impl View for Dictionary {
    type V = DictionaryView;

    closed spec fn view(&self) -> DictionaryView {
        DictionaryView {
            id: self.id@,
            pairs: pairs_of(self.entries@),
            frozen: self.frozen,
            created_at: self.created_at,
            frozen_at: self.frozen_at,
            version: self.version@,
        }
    }
}

impl Dictionary {
    /// The invariant: the two directions of the mapping are inverse to each
    /// other, tokens lie above the literal range, and each entry carries the
    /// identity of its content.
    pub closed spec fn wf(&self) -> bool {
        &&& pairs_consistent(pairs_of(self.entries@))
        &&& forall|i: int| 0 <= i < self.entries@.len() ==> (#[trigger] self.entries@[i]).hash_matches()
    }

    /// A well-formed dictionary has consistent entries.
    pub proof fn lemma_wf_consistent(&self)
        requires
            self.wf(),
        ensures
            pairs_consistent(self@.pairs),
    {
    }

    /// An empty mutable dictionary named `id`, created at `created_at`
    /// (seconds since the epoch).
    pub fn new(id: &str, created_at: u64) -> (d: Self)
        ensures
            d.wf(),
            d@ == (DictionaryView {
                id: id@,
                pairs: Seq::<(Seq<u8>, u32)>::empty(),
                frozen: false,
                created_at,
                frozen_at: None,
                version: "symvea-engine@0.1.0"@,
            }),
    {
        let d = Self {
            id: String::from_str(id),
            entries: Vec::new(),
            frozen: false,
            created_at,
            frozen_at: None,
            version: String::from_str("symvea-engine@0.1.0"),
        };
        assert(pairs_of(d.entries@) =~= Seq::<(Seq<u8>, u32)>::empty());
        d
    }

    /// The dictionary's name, or its content identity once frozen.
    pub fn id(&self) -> (id: &String)
        ensures
            id@ == self@.id,
    {
        &self.id
    }

    /// Whether the dictionary has been frozen.
    pub fn is_frozen(&self) -> (f: bool)
        ensures
            f == self@.frozen,
    {
        self.frozen
    }

    /// When the dictionary was created.
    pub fn created_at(&self) -> (t: u64)
        ensures
            t == self@.created_at,
    {
        self.created_at
    }

    /// When the dictionary was frozen, if it was.
    pub fn frozen_at(&self) -> (t: Option<u64>)
        ensures
            t == self@.frozen_at,
    {
        self.frozen_at
    }

    /// The engine version that made the dictionary.
    pub fn version(&self) -> (v: &String)
        ensures
            v@ == self@.version,
    {
        &self.version
    }

    /// Number of entries.
    pub fn len(&self) -> (n: usize)
        ensures
            n == self@.pairs.len(),
    {
        self.entries.len()
    }

    /// The entries, in insertion order.
    pub fn symbols(&self) -> (s: &[Symbol])
        ensures
            pairs_of(s@) == self@.pairs,
            self.wf() ==> forall|i: int| 0 <= i < s@.len() ==> (#[trigger] s@[i]).hash_matches(),
    {
        self.entries.as_slice()
    }

    /// Position of the entry that owns `token`.
    fn position_of_token(&self, token: u32) -> (r: Option<usize>)
        ensures
            match r {
                Some(k) => find_token(self@.pairs, token, 0) == k && k < self.entries@.len(),
                None => find_token(self@.pairs, token, 0) == -1,
            },
    {
        let ghost pairs = pairs_of(self.entries@);
        let mut k: usize = 0;
        while k < self.entries.len()
            invariant
                k <= self.entries@.len(),
                pairs == pairs_of(self.entries@),
                find_token(pairs, token, k as int) == find_token(pairs, token, 0),
            decreases self.entries@.len() - k,
        {
            if self.entries[k].token == token {
                return Some(k);
            }
            k += 1;
        }
        None
    }

    /// Position of the entry whose bytes are `bytes`.
    fn position_of_bytes(&self, bytes: &[u8]) -> (r: Option<usize>)
        ensures
            match r {
                Some(k) => find_bytes(self@.pairs, bytes@, 0) == k && k < self.entries@.len(),
                None => find_bytes(self@.pairs, bytes@, 0) == -1,
            },
    {
        let ghost pairs = pairs_of(self.entries@);
        let mut k: usize = 0;
        while k < self.entries.len()
            invariant
                k <= self.entries@.len(),
                pairs == pairs_of(self.entries@),
                find_bytes(pairs, bytes@, k as int) == find_bytes(pairs, bytes@, 0),
            decreases self.entries@.len() - k,
        {
            if bytes_eq(self.entries[k].bytes.as_slice(), bytes) {
                return Some(k);
            }
            k += 1;
        }
        None
    }

    /// The token that stands for `bytes`, if any.
    pub fn contains(&self, bytes: &[u8]) -> (r: Option<u32>)
        ensures
            r == token_for(self@.pairs, bytes@),
    {
        match self.position_of_bytes(bytes) {
            Some(k) => Some(self.entries[k].token),
            None => None,
        }
    }

    /// The entry that owns `token`, if any.
    pub fn symbol_for(&self, token: u32) -> (r: Option<&Symbol>)
        ensures
            match r {
                Some(s) => bytes_for(self@.pairs, token) == Some(s.bytes@) && s.token == token && (
                self.wf() ==> s.hash_matches()),
                None => bytes_for(self@.pairs, token) is None,
            },
    {
        match self.position_of_token(token) {
            Some(k) => {
                proof {
                    lemma_find_token(self@.pairs, token, 0);
                }
                Some(&self.entries[k])
            },
            None => None,
        }
    }

    /// The bytes that `token` stands for, if any.
    pub fn decode(&self, token: u32) -> (r: Option<&Vec<u8>>)
        ensures
            match r {
                Some(b) => bytes_for(self@.pairs, token) == Some(b@),
                None => bytes_for(self@.pairs, token) is None,
            },
    {
        match self.position_of_token(token) {
            Some(k) => Some(&self.entries[k].bytes),
            None => None,
        }
    }

    /// Adds the entry `bytes` ↔ `token` where the dictionary accepts it, and
    /// says whether it did. A frozen dictionary accepts nothing; neither does
    /// any dictionary an entry that would break the inverse mapping.
    pub fn insert(&mut self, bytes: Vec<u8>, token: u32) -> (added: bool)
        requires
            old(self).wf(),
        ensures
            final(self).wf(),
            added == accepts(old(self)@, bytes@, token),
            final(self)@ == inserted_form(old(self)@, bytes@, token),
    {
        if self.frozen || bytes.len() < 1 || bytes.len() > 64 || token < 256 {
            return false;
        }
        if self.position_of_bytes(bytes.as_slice()).is_some() {
            return false;
        }
        if self.position_of_token(token).is_some() {
            return false;
        }
        proof {
            lemma_find_token(old(self)@.pairs, token, 0);
            lemma_find_bytes(old(self)@.pairs, bytes@, 0);
        }
        let symbol = Symbol::new(bytes, token, 0);
        self.entries.push(symbol);
        proof {
            assert(pairs_of(self.entries@) =~= pairs_of(old(self).entries@).push((bytes@, token)));
        }
        true
    }

    /// Appends the stable binary form of a text.
    fn put_text(out: &mut Vec<u8>, s: &String)
        ensures
            final(out)@ == old(out)@ + text_bytes(s@),
    {
        let bytes: &[u8] = s.as_str().as_bytes();
        put_u64_be(out, bytes.len() as u64);
        put_bytes(out, bytes);
        assert(out@ =~= old(out)@ + text_bytes(s@));
    }

    /// The stable binary form of the dictionary as it would be with the given
    /// id, frozen flag and freeze time.
    fn serialize_as(&self, id: &String, frozen: bool, frozen_at: Option<u64>) -> (out: Vec<u8>)
        ensures
            out@ == dictionary_bytes(
                DictionaryView {
                    id: id@,
                    pairs: self@.pairs,
                    frozen,
                    created_at: self@.created_at,
                    frozen_at,
                    version: self@.version,
                },
            ),
    {
        let ghost pairs = pairs_of(self.entries@);
        let mut out: Vec<u8> = Vec::new();
        Self::put_text(&mut out, id);
        put_u64_be(&mut out, self.entries.len() as u64);
        let ghost head = out@;
        let mut k: usize = 0;
        proof {
            assert(pairs.take(0) =~= Seq::<(Seq<u8>, u32)>::empty());
            assert(out@ =~= head + entries_bytes(pairs.take(0)));
        }
        while k < self.entries.len()
            invariant
                k <= self.entries@.len(),
                pairs == pairs_of(self.entries@),
                out@ == head + entries_bytes(pairs.take(k as int)),
            decreases self.entries@.len() - k,
        {
            let s: &Symbol = &self.entries[k];
            let ghost before = out@;
            put_u64_be(&mut out, s.bytes.len() as u64);
            put_bytes(&mut out, s.bytes.as_slice());
            put_u32_be(&mut out, s.token);
            proof {
                assert(pairs.take(k + 1).drop_last() =~= pairs.take(k as int));
                assert(pairs.take(k + 1).last() == pairs[k as int]);
                assert(out@ =~= before + entry_bytes(pairs[k as int]));
                assert(out@ =~= head + entries_bytes(pairs.take(k + 1)));
            }
            k += 1;
        }
        proof {
            assert(pairs.take(k as int) =~= pairs);
        }
        let ghost mid = out@;
        out.push(if frozen { 1 } else { 0 });
        put_u64_be(&mut out, self.created_at);
        match frozen_at {
            None => {
                out.push(0);
            },
            Some(at) => {
                out.push(1);
                put_u64_be(&mut out, at);
            },
        }
        let ghost tail = out@;
        Self::put_text(&mut out, &self.version);
        proof {
            assert(tail =~= mid + seq![
                if frozen {
                    1u8
                } else {
                    0u8
                },
            ] + u64_be(self.created_at) + stamp_bytes(frozen_at));
        }
        out
    }

    /// The stable binary form of the dictionary.
    pub fn serialize(&self) -> (out: Vec<u8>)
        ensures
            out@ == dictionary_bytes(self@),
    {
        self.serialize_as(&self.id, self.frozen, self.frozen_at)
    }

    /// The identity of the dictionary's content: the short hash of its stable
    /// binary form.
    pub fn compute_hash(&self) -> (h: String)
        ensures
            h@ == content_id(dictionary_bytes(self@)),
    {
        let bytes: Vec<u8> = self.serialize();
        content_hash_hex(bytes.as_slice())
    }

    /// Seals the dictionary at time `now` and returns its id. The first call
    /// makes the identity of the sealed content the id; every later call
    /// changes nothing and returns that id.
    pub fn freeze(&mut self, now: u64) -> (id: String)
        requires
            old(self).wf(),
        ensures
            final(self).wf(),
            final(self)@ == frozen_form(old(self)@, now),
            id@ == final(self)@.id,
    {
        if self.frozen {
            return self.id.clone();
        }
        let sealed: Vec<u8> = self.serialize_as(&self.id, true, Some(now));
        let id: String = content_hash_hex(sealed.as_slice());
        self.frozen = true;
        self.frozen_at = Some(now);
        self.id = id.clone();
        id
    }
}

/// A length-prefixed text at offset `at`, and the offset behind it.
pub open spec fn parsed_text(data: Seq<u8>, at: int) -> Result<(Seq<char>, int), DictionaryError> {
    if at + 8 > data.len() || at + 8 + u64_at(data, at) > data.len() {
        Err(DictionaryError::Truncated)
    } else if !valid_utf8(data.subrange(at + 8, at + 8 + u64_at(data, at))) {
        Err(DictionaryError::InvalidText)
    } else {
        Ok((decode_utf8(data.subrange(at + 8, at + 8 + u64_at(data, at))), at + 8 + u64_at(data, at)))
    }
}

/// Whether a mutable dictionary with the entries `pairs` takes one more entry.
pub open spec fn entry_fits(pairs: Seq<(Seq<u8>, u32)>, bytes: Seq<u8>, token: u32) -> bool {
    1 <= bytes.len() <= 64 && token >= 256 && token_for(pairs, bytes) is None && bytes_for(
        pairs,
        token,
    ) is None
}

/// The next `count` entries from offset `at` on, added to the entries `acc`
/// read before them, and the offset behind them.
pub open spec fn parsed_pairs(data: Seq<u8>, at: int, count: int, acc: Seq<(Seq<u8>, u32)>)
    -> Result<(Seq<(Seq<u8>, u32)>, int), DictionaryError>
    decreases count,
{
    if count <= 0 {
        Ok((acc, at))
    } else if at + 8 > data.len() || at + 8 + u64_at(data, at) + 4 > data.len() {
        Err(DictionaryError::Truncated)
    } else {
        let end = at + 8 + u64_at(data, at);
        let bytes = data.subrange(at + 8, end);
        let token = u32_at(data, end);
        if !entry_fits(acc, bytes, token) {
            Err(DictionaryError::InvalidEntry)
        } else {
            parsed_pairs(data, end + 4, count - 1, acc.push((bytes, token)))
        }
    }
}

/// What follows the entries: frozen flag, creation time, freeze time,
/// version, and nothing more.
pub open spec fn parsed_tail(data: Seq<u8>, at: int) -> Result<
    (bool, u64, Option<u64>, Seq<char>),
    DictionaryError,
> {
    if at + 10 > data.len() {
        Err(DictionaryError::Truncated)
    } else if data[at] > 1 || data[at + 9] > 1 {
        Err(DictionaryError::InvalidFlag)
    } else if data[at + 9] == 1 && at + 18 > data.len() {
        Err(DictionaryError::Truncated)
    } else {
        let stamp = if data[at + 9] == 1 {
            Some(u64_at(data, at + 10))
        } else {
            None
        };
        let next = if data[at + 9] == 1 {
            at + 18
        } else {
            at + 10
        };
        match parsed_text(data, next) {
            Err(e) => Err(e),
            Ok((version, end)) => if end != data.len() {
                Err(DictionaryError::TrailingBytes)
            } else {
                Ok((data[at] == 1, u64_at(data, at + 1), stamp, version))
            },
        }
    }
}

/// What bytes in the stable binary form are read as.
pub open spec fn dictionary_parsing(data: Seq<u8>) -> Result<DictionaryView, DictionaryError> {
    match parsed_text(data, 0) {
        Err(e) => Err(e),
        Ok((id, at)) => if at + 8 > data.len() {
            Err(DictionaryError::Truncated)
        } else {
            match parsed_pairs(
                data,
                at + 8,
                u64_at(data, at) as int,
                Seq::<(Seq<u8>, u32)>::empty(),
            ) {
                Err(e) => Err(e),
                Ok((pairs, next)) => match parsed_tail(data, next) {
                    Err(e) => Err(e),
                    Ok((frozen, created_at, frozen_at, version)) => Ok(
                        DictionaryView { id, pairs, frozen, created_at, frozen_at, version },
                    ),
                },
            }
        },
    }
}

/// Reads a length-prefixed text.
fn take_text(data: &[u8], at: usize) -> (r: Result<(String, usize), DictionaryError>)
    requires
        at <= data@.len(),
    ensures
        match r {
            Ok((s, end)) => parsed_text(data@, at as int) == Ok::<
                (Seq<char>, int),
                DictionaryError,
            >((s@, end as int)) && at + 8 <= end <= data@.len() && data@.subrange(
                at as int,
                end as int,
            ) == text_bytes(s@),
            Err(e) => parsed_text(data@, at as int) == Err::<(Seq<char>, int), DictionaryError>(e),
        },
{
    let n: usize = data.len();
    if n - at < 8 {
        return Err(DictionaryError::Truncated);
    }
    let len: u64 = read_u64_be(data, at);
    if ((n - at - 8) as u64) < len {
        return Err(DictionaryError::Truncated);
    }
    let end: usize = at + 8 + len as usize;
    let bytes: Vec<u8> = copy_range(data, at + 8, end);
    match string_from_utf8(bytes) {
        Some(s) => {
            proof {
                let raw = data@.subrange(at + 8, end as int);
                decode_utf8_encode_utf8(raw);
                lemma_u64_at_is_be(data@, at as int);
                assert(encode_utf8(s@) == raw);
                assert(data@.subrange(at as int, end as int) =~= text_bytes(s@));
            }
            Ok((s, end))
        },
        None => Err(DictionaryError::InvalidText),
    }
}

/// Bytes whose parts are the parts of a dictionary's binary form are that
/// form.
proof fn lemma_parts_make_whole(data: Seq<u8>, v: DictionaryView, after_id: int, at: int)
    requires
        0 <= after_id,
        after_id + 8 <= at <= data.len(),
        data.subrange(0, after_id) == text_bytes(v.id),
        u64_at(data, after_id) == v.pairs.len(),
        data.subrange(after_id + 8, at) == entries_bytes(v.pairs),
        data.subrange(at, data.len() as int) == tail_bytes(
            v.frozen,
            v.created_at,
            v.frozen_at,
            v.version,
        ),
    ensures
        dictionary_bytes(v) == data,
{
    lemma_u64_at_is_be(data, after_id);
    let a = data.subrange(0, after_id);
    let b = data.subrange(after_id, after_id + 8);
    let c = data.subrange(after_id + 8, at);
    let d = data.subrange(at, data.len() as int);
    assert(data =~= a + b + c + d);
    assert(b == u64_be(v.pairs.len() as u64));
    assert(dictionary_bytes(v) =~= a + b + c + d);
}

/// The bytes of what follows the entries.
pub open spec fn tail_bytes(
    frozen: bool,
    created_at: u64,
    frozen_at: Option<u64>,
    version: Seq<char>,
) -> Seq<u8> {
    seq![
        if frozen {
            1u8
        } else {
            0u8
        },
    ] + u64_be(created_at) + stamp_bytes(frozen_at) + text_bytes(version)
}

/// The bytes in front of the version are the flag, the creation time and
/// the freeze time as they are written.
proof fn lemma_tail_head(
    data: Seq<u8>,
    at: int,
    frozen: bool,
    created_at: u64,
    frozen_at: Option<u64>,
)
    requires
        0 <= at,
        at + 10 <= data.len(),
        data[at] == if frozen {
            1u8
        } else {
            0u8
        },
        created_at == u64_at(data, at + 1),
        match frozen_at {
            None => data[at + 9] == 0,
            Some(t) => data[at + 9] == 1 && at + 18 <= data.len() && t == u64_at(data, at + 10),
        },
    ensures
        data.subrange(
            at,
            at + 10 + if frozen_at is Some {
                8int
            } else {
                0int
            },
        ) == seq![
            if frozen {
                1u8
            } else {
                0u8
            },
        ] + u64_be(created_at) + stamp_bytes(frozen_at),
{
    lemma_u64_at_is_be(data, at + 1);
    let flag = seq![
        if frozen {
            1u8
        } else {
            0u8
        },
    ];
    assert(data.subrange(at, at + 1) =~= flag);
    match frozen_at {
        None => {
            assert(data.subrange(at + 9, at + 10) =~= stamp_bytes(frozen_at));
            assert(data.subrange(at, at + 10) =~= data.subrange(at, at + 1) + data.subrange(
                at + 1,
                at + 9,
            ) + data.subrange(at + 9, at + 10));
        },
        Some(t) => {
            lemma_u64_at_is_be(data, at + 10);
            assert(data.subrange(at + 9, at + 18) =~= seq![1u8] + data.subrange(at + 10, at + 18));
            assert(data.subrange(at, at + 18) =~= data.subrange(at, at + 1) + data.subrange(
                at + 1,
                at + 9,
            ) + data.subrange(at + 9, at + 18));
        },
    }
}

/// Reads what follows the entries.
fn take_tail(data: &[u8], at: usize) -> (r: Result<
    (bool, u64, Option<u64>, String),
    DictionaryError,
>)
    requires
        at <= data@.len(),
    ensures
        match r {
            Ok((frozen, created_at, frozen_at, version)) => parsed_tail(data@, at as int) == Ok::<
                (bool, u64, Option<u64>, Seq<char>),
                DictionaryError,
            >((frozen, created_at, frozen_at, version@)) && data@.subrange(
                at as int,
                data@.len() as int,
            ) == tail_bytes(frozen, created_at, frozen_at, version@),
            Err(e) => parsed_tail(data@, at as int) == Err::<
                (bool, u64, Option<u64>, Seq<char>),
                DictionaryError,
            >(e),
        },
{
    let n: usize = data.len();
    if n - at < 10 {
        return Err(DictionaryError::Truncated);
    }
    if data[at] > 1 || data[at + 9] > 1 {
        return Err(DictionaryError::InvalidFlag);
    }
    let frozen: bool = data[at] == 1;
    let created_at: u64 = read_u64_be(data, at + 1);
    let has_stamp: bool = data[at + 9] == 1;
    if has_stamp && n - at < 18 {
        return Err(DictionaryError::Truncated);
    }
    let frozen_at: Option<u64> = if has_stamp {
        Some(read_u64_be(data, at + 10))
    } else {
        None
    };
    let next: usize = if has_stamp {
        at + 18
    } else {
        at + 10
    };
    let (version, end) = match take_text(data, next) {
        Ok(found) => found,
        Err(e) => {
            return Err(e);
        },
    };
    if end != n {
        return Err(DictionaryError::TrailingBytes);
    }
    proof {
        lemma_tail_head(data@, at as int, frozen, created_at, frozen_at);
        assert(data@.subrange(at as int, n as int) =~= data@.subrange(at as int, next as int)
            + data@.subrange(next as int, n as int));
    }
    Ok((frozen, created_at, frozen_at, version))
}

impl Dictionary {
    /// Reads `count` entries into a mutable dictionary named `id`.
    fn take_entries(data: &[u8], first: usize, count: u64, id: String) -> (r: Result<
        (Dictionary, usize),
        DictionaryError,
    >)
        requires
            first <= data@.len(),
        ensures
            match r {
                Ok((d, end)) => parsed_pairs(
                    data@,
                    first as int,
                    count as int,
                    Seq::<(Seq<u8>, u32)>::empty(),
                ) == Ok::<(Seq<(Seq<u8>, u32)>, int), DictionaryError>((d@.pairs, end as int))
                    && d.wf() && !d@.frozen && d@.id == id@ && d@.pairs.len() == count && first
                    <= end <= data@.len() && data@.subrange(first as int, end as int)
                    == entries_bytes(d@.pairs),
                Err(e) => parsed_pairs(
                    data@,
                    first as int,
                    count as int,
                    Seq::<(Seq<u8>, u32)>::empty(),
                ) == Err::<(Seq<(Seq<u8>, u32)>, int), DictionaryError>(e),
            },
    {
        let n: usize = data.len();
        let mut d = Dictionary {
            id,
            entries: Vec::new(),
            frozen: false,
            created_at: 0,
            frozen_at: None,
            version: String::new(),
        };
        let mut at: usize = first;
        let mut i: u64 = 0;
        proof {
            assert(pairs_of(d.entries@) =~= Seq::<(Seq<u8>, u32)>::empty());
            assert(data@.subrange(first as int, at as int) =~= entries_bytes(d@.pairs));
        }
        while i < count
            invariant
                i <= count,
                first <= at <= n,
                n == data@.len(),
                d.wf(),
                !d.frozen,
                d@.id == id@,
                d@.pairs.len() == i,
                parsed_pairs(data@, first as int, count as int, Seq::<(Seq<u8>, u32)>::empty())
                    == parsed_pairs(data@, at as int, count - i, d@.pairs),
                data@.subrange(first as int, at as int) == entries_bytes(d@.pairs),
            decreases count - i,
        {
            if n - at < 8 {
                return Err(DictionaryError::Truncated);
            }
            let len: u64 = read_u64_be(data, at);
            if n - at - 8 < 4 || ((n - at - 8 - 4) as u64) < len {
                return Err(DictionaryError::Truncated);
            }
            let end: usize = at + 8 + len as usize;
            let bytes: Vec<u8> = copy_range(data, at + 8, end);
            let token: u32 = read_u32_be(data, end);
            let ghost before = d@.pairs;
            let ghost raw = bytes@;
            if !d.insert(bytes, token) {
                return Err(DictionaryError::InvalidEntry);
            }
            proof {
                lemma_u64_at_is_be(data@, at as int);
                lemma_u32_at_is_be(data@, end as int);
                assert(d@.pairs == before.push((raw, token)));
                assert(d@.pairs.drop_last() =~= before);
                assert(data@.subrange(at as int, end + 4) =~= entry_bytes((raw, token)));
                assert(data@.subrange(first as int, end + 4) =~= data@.subrange(
                    first as int,
                    at as int,
                ) + data@.subrange(at as int, end + 4));
            }
            at = end + 4;
            i += 1;
        }
        Ok((d, at))
    }

    /// Reads a dictionary from its stable binary form. Bytes are taken only
    /// if they are exactly the form of a dictionary whose entries keep the
    /// inverse mapping; what is taken serializes to those bytes again.
    pub fn deserialize(data: &[u8]) -> (r: Result<Dictionary, DictionaryError>)
        ensures
            match r {
                Ok(d) => d.wf() && dictionary_parsing(data@) == Ok::<
                    DictionaryView,
                    DictionaryError,
                >(d@) && dictionary_bytes(d@) == data@,
                Err(e) => dictionary_parsing(data@) == Err::<DictionaryView, DictionaryError>(e),
            },
    {
        let n: usize = data.len();
        let (id, after_id) = match take_text(data, 0) {
            Ok(found) => found,
            Err(e) => {
                return Err(e);
            },
        };
        if n - after_id < 8 {
            return Err(DictionaryError::Truncated);
        }
        let count: u64 = read_u64_be(data, after_id);
        let first: usize = after_id + 8;
        let (mut d, at) = match Self::take_entries(data, first, count, id) {
            Ok(found) => found,
            Err(e) => {
                return Err(e);
            },
        };
        let (frozen, created_at, frozen_at, version) = match take_tail(data, at) {
            Ok(found) => found,
            Err(e) => {
                return Err(e);
            },
        };
        d.frozen = frozen;
        d.created_at = created_at;
        d.frozen_at = frozen_at;
        d.version = version;
        proof {
            lemma_parts_make_whole(data@, d@, after_id as int, at as int);
        }
        Ok(d)
    }
}

/// In a consistent dictionary the two directions are inverse: bytes have a
/// token exactly when that token has those bytes.
pub proof fn lemma_dictionary_inverse(pairs: Seq<(Seq<u8>, u32)>, bytes: Seq<u8>, token: u32)
    requires
        pairs_consistent(pairs),
    ensures
        token_for(pairs, bytes) == Some(token) <==> bytes_for(pairs, token) == Some(bytes),
{
    lemma_find_token(pairs, token, 0);
    lemma_find_bytes(pairs, bytes, 0);
}

/// Inserting keeps a consistent dictionary consistent, and every mapping it
/// had.
pub proof fn lemma_insert_preserves(v: DictionaryView, bytes: Seq<u8>, token: u32, t: u32)
    requires
        pairs_consistent(v.pairs),
    ensures
        pairs_consistent(inserted_form(v, bytes, token).pairs),
        bytes_for(v.pairs, t) is Some ==> bytes_for(inserted_form(v, bytes, token).pairs, t)
            == bytes_for(v.pairs, t),
{
    lemma_find_token(v.pairs, token, 0);
    lemma_find_bytes(v.pairs, bytes, 0);
    lemma_find_token(v.pairs, t, 0);
    let after = inserted_form(v, bytes, token).pairs;
    lemma_find_token(after, t, 0);
    let f = find_token(v.pairs, t, 0);
    if f >= 0 {
        assert(after[f] == v.pairs[f]);
        let g = find_token(after, t, 0);
        if g < f {
            assert(after[g] == v.pairs[g]);
        }
    }
}

/// Freezing twice is freezing once: the second call returns the same id and
/// leaves the content, and so its binary form, as the first left it.
pub proof fn lemma_freeze_idempotent(v: DictionaryView, first: u64, second: u64)
    ensures
        frozen_form(frozen_form(v, first), second) == frozen_form(v, first),
        frozen_form(frozen_form(v, first), second).id == frozen_form(v, first).id,
        dictionary_bytes(frozen_form(frozen_form(v, first), second)) == dictionary_bytes(
            frozen_form(v, first),
        ),
{
}

/// A frozen dictionary takes no entry.
pub proof fn lemma_frozen_rejects(v: DictionaryView, bytes: Seq<u8>, token: u32)
    requires
        v.frozen,
    ensures
        inserted_form(v, bytes, token) == v,
{
}

/// Whether a byte string begins with the bytes `p`.
#[verifier::opaque]
pub open spec fn begins(p: Seq<u8>, data: Seq<u8>) -> bool {
    p.is_prefix_of(data)
}

/// Where a byte string begins with `before` and then `part`, `part` stands
/// right behind `before`.
proof fn lemma_part_at(data: Seq<u8>, before: Seq<u8>, part: Seq<u8>)
    requires
        begins(before + part, data),
    ensures
        before.len() + part.len() <= data.len(),
        data.subrange(before.len() as int, (before.len() + part.len()) as int) == part,
        begins(before, data),
{
    reveal(begins);
    let whole = before + part;
    let at = before.len() as int;
    assert forall|i: int| 0 <= i < part.len() implies data[at + i] == part[i] by {
        assert(data.subrange(0, whole.len() as int)[at + i] == whole[at + i]);
    }
    assert(data.subrange(at, at + part.len()) =~= part);
    assert forall|i: int| 0 <= i < before.len() implies data[i] == before[i] by {
        assert(data.subrange(0, whole.len() as int)[i] == whole[i]);
    }
    assert(data.subrange(0, at) =~= before);
}

/// A number written big-endian behind `before` is read back from there.
proof fn lemma_u64_behind(data: Seq<u8>, before: Seq<u8>, v: u64)
    requires
        begins(before + u64_be(v), data),
    ensures
        u64_at(data, before.len() as int) == v,
        before.len() + 8 <= data.len(),
{
    lemma_part_at(data, before, u64_be(v));
    lemma_u64_be_round_trip(v);
    let at = before.len() as int;
    let part = data.subrange(at, at + 8);
    assert forall|k: int| 0 <= k < 8 implies data[at + k] == u64_be(v)[k] by {
        assert(part[k] == data[at + k]);
    }
    assert(u32_at(data, at) == u32_at(u64_be(v), 0));
    assert(u32_at(data, at + 4) == u32_at(u64_be(v), 4));
}

/// A number written big-endian behind `before` is read back from there.
proof fn lemma_u32_behind(data: Seq<u8>, before: Seq<u8>, v: u32)
    requires
        begins(before + u32_be(v), data),
    ensures
        u32_at(data, before.len() as int) == v,
        before.len() + 4 <= data.len(),
{
    lemma_part_at(data, before, u32_be(v));
    lemma_u32_be_round_trip(v);
    let at = before.len() as int;
    let part = data.subrange(at, at + 4);
    assert forall|k: int| 0 <= k < 4 implies data[at + k] == u32_be(v)[k] by {
        assert(part[k] == data[at + k]);
    }
}

/// What begins a beginning of a byte string begins the byte string.
proof fn lemma_prefix_chain(a: Seq<u8>, b: Seq<u8>, data: Seq<u8>)
    requires
        begins(a + b, data),
    ensures
        begins(a, data),
{
    lemma_part_at(data, a, b);
}

/// A text written behind `before` is read back from there.
proof fn lemma_text_behind(data: Seq<u8>, before: Seq<u8>, text: Seq<char>)
    requires
        encode_utf8(text).len() <= u64::MAX,
        begins(before + text_bytes(text), data),
    ensures
        parsed_text(data, before.len() as int) == Ok::<(Seq<char>, int), DictionaryError>(
            (text, (before.len() + text_bytes(text).len()) as int),
        ),
        text_bytes(text).len() == 8 + encode_utf8(text).len(),
{
    let raw = encode_utf8(text);
    let n = raw.len() as u64;
    let at = before.len() as int;
    lemma_u64_be_round_trip(n);
    assert(before + text_bytes(text) =~= (before + u64_be(n)) + raw);
    lemma_part_at(data, before + u64_be(n), raw);
    lemma_u64_behind(data, before, n);
    encode_utf8_valid_utf8(text);
    encode_utf8_decode_utf8(text);
}

/// The binary form of the first entries with the next entry behind it is the
/// binary form of one entry more.
proof fn lemma_entries_step(pairs: Seq<(Seq<u8>, u32)>, k: int)
    requires
        0 <= k < pairs.len(),
    ensures
        entries_bytes(pairs.take(k + 1)) == entries_bytes(pairs.take(k)) + entry_bytes(pairs[k]),
{
    assert(pairs.take(k + 1).drop_last() =~= pairs.take(k));
    assert(pairs.take(k + 1).last() == pairs[k]);
}

/// The binary form of the first entries begins the binary form of all.
proof fn lemma_entries_begin(pairs: Seq<(Seq<u8>, u32)>, k: int)
    requires
        0 <= k <= pairs.len(),
    ensures
        begins(entries_bytes(pairs.take(k)), entries_bytes(pairs)),
    decreases pairs.len() - k,
{
    let whole = entries_bytes(pairs);
    if k == pairs.len() {
        assert(pairs.take(k) =~= pairs);
        lemma_whole_is_prefix(whole);
    } else {
        lemma_entries_begin(pairs, k + 1);
        lemma_entries_step(pairs, k);
        lemma_prefix_chain(entries_bytes(pairs.take(k)), entry_bytes(pairs[k]), whole);
    }
}

/// Entries written behind `before` are read back from there, one after
/// another, where they keep the inverse mapping.
proof fn lemma_entries_behind(
    data: Seq<u8>,
    before: Seq<u8>,
    pairs: Seq<(Seq<u8>, u32)>,
    k: int,
)
    requires
        pairs_consistent(pairs),
        0 <= k <= pairs.len(),
        begins(before + entries_bytes(pairs), data),
    ensures
        parsed_pairs(
            data,
            (before.len() + entries_bytes(pairs.take(k)).len()) as int,
            pairs.len() - k,
            pairs.take(k),
        ) == Ok::<(Seq<(Seq<u8>, u32)>, int), DictionaryError>(
            (pairs, (before.len() + entries_bytes(pairs).len()) as int),
        ),
    decreases pairs.len() - k,
{
    let whole = entries_bytes(pairs);
    let done = entries_bytes(pairs.take(k));
    let at = (before.len() + done.len()) as int;
    if k == pairs.len() {
        assert(pairs.take(k) =~= pairs);
    } else {
        let e = pairs[k];
        let n = e.0.len() as u64;
        lemma_entries_step(pairs, k);
        lemma_entries_begin(pairs, k + 1);
        let upto = entries_bytes(pairs.take(k + 1));
        // the bytes up to and with entry k begin the data
        lemma_part_at(data, before, whole);
        assert(begins(before + upto, data)) by {
            reveal(begins);
            assert forall|i: int| 0 <= i < before.len() + upto.len() implies data[i] == (before
                + upto)[i] by {
                if i >= before.len() {
                    assert(data.subrange(before.len() as int, (before.len() + whole.len()) as int)[i
                        - before.len()] == whole[i - before.len()]);
                    assert(whole.subrange(0, upto.len() as int)[i - before.len()] == upto[i
                        - before.len()]);
                } else {
                    assert(data.subrange(0, before.len() as int)[i] == before[i]);
                }
            }
            assert(data.subrange(0, (before.len() + upto.len()) as int) =~= before + upto);
        }
        let head = before + done;
        assert(before + upto =~= ((head + u64_be(n)) + e.0) + u32_be(e.1));
        lemma_u32_behind(data, (head + u64_be(n)) + e.0, e.1);
        lemma_prefix_chain((head + u64_be(n)) + e.0, u32_be(e.1), data);
        lemma_part_at(data, head + u64_be(n), e.0);
        lemma_u64_behind(data, head, n);
        lemma_u64_be_round_trip(n);
        let acc = pairs.take(k);
        lemma_find_bytes(acc, e.0, 0);
        lemma_find_token(acc, e.1, 0);
        assert(entry_fits(acc, e.0, e.1)) by {
            if find_bytes(acc, e.0, 0) >= 0 {
                assert(acc[find_bytes(acc, e.0, 0)] == pairs[find_bytes(acc, e.0, 0)]);
            }
            if find_token(acc, e.1, 0) >= 0 {
                assert(acc[find_token(acc, e.1, 0)] == pairs[find_token(acc, e.1, 0)]);
            }
        }
        assert(acc.push(e) =~= pairs.take(k + 1));
        lemma_entries_behind(data, before, pairs, k + 1);
    }
}

/// The binary form of a dictionary is read back as that dictionary: nothing
/// that `serialize` writes for a well-formed dictionary is refused by
/// `deserialize`, and nothing is lost.
pub proof fn lemma_binary_form_round_trip(v: DictionaryView)
    requires
        pairs_consistent(v.pairs),
        v.pairs.len() <= u64::MAX,
        encode_utf8(v.id).len() <= u64::MAX,
        encode_utf8(v.version).len() <= u64::MAX,
    ensures
        dictionary_parsing(dictionary_bytes(v)) == Ok::<DictionaryView, DictionaryError>(v),
{
    let data = dictionary_bytes(v);
    let d1 = text_bytes(v.id);
    let d2 = d1 + u64_be(v.pairs.len() as u64);
    let d3 = d2 + entries_bytes(v.pairs);
    let d4 = d3 + seq![
        if v.frozen {
            1u8
        } else {
            0u8
        },
    ];
    let d5 = d4 + u64_be(v.created_at);
    let d6 = d5 + stamp_bytes(v.frozen_at);
    let d7 = d6 + text_bytes(v.version);
    assert(data == d7);
    lemma_whole_is_prefix(data);
    lemma_prefix_chain(d6, text_bytes(v.version), data);
    lemma_prefix_chain(d5, stamp_bytes(v.frozen_at), data);
    lemma_prefix_chain(d4, u64_be(v.created_at), data);
    lemma_prefix_chain(
        d3,
        seq![
            if v.frozen {
                1u8
            } else {
                0u8
            },
        ],
        data,
    );
    lemma_prefix_chain(d2, entries_bytes(v.pairs), data);
    lemma_prefix_chain(d1, u64_be(v.pairs.len() as u64), data);
    lemma_head_read(data, v, d1, d2, d3);
    lemma_tail_read(data, v, d3, d4, d5, d6);
}

/// The id, the entry count and the entries at the beginning of a binary form
/// are read back.
proof fn lemma_head_read(
    data: Seq<u8>,
    v: DictionaryView,
    d1: Seq<u8>,
    d2: Seq<u8>,
    d3: Seq<u8>,
)
    requires
        pairs_consistent(v.pairs),
        v.pairs.len() <= u64::MAX,
        encode_utf8(v.id).len() <= u64::MAX,
        d1 == text_bytes(v.id),
        d2 == d1 + u64_be(v.pairs.len() as u64),
        d3 == d2 + entries_bytes(v.pairs),
        begins(d1, data),
        begins(d2, data),
        begins(d3, data),
    ensures
        parsed_text(data, 0) == Ok::<(Seq<char>, int), DictionaryError>((v.id, d1.len() as int)),
        d1.len() + 8 == d2.len() <= data.len(),
        u64_at(data, d1.len() as int) == v.pairs.len(),
        parsed_pairs(
            data,
            d2.len() as int,
            v.pairs.len() as int,
            Seq::<(Seq<u8>, u32)>::empty(),
        ) == Ok::<(Seq<(Seq<u8>, u32)>, int), DictionaryError>((v.pairs, d3.len() as int)),
{
    let empty = Seq::<u8>::empty();
    assert(empty + text_bytes(v.id) =~= d1);
    lemma_text_behind(data, empty, v.id);
    lemma_u64_behind(data, d1, v.pairs.len() as u64);
    lemma_u64_be_round_trip(v.pairs.len() as u64);
    lemma_entries_behind(data, d2, v.pairs, 0);
    assert(v.pairs.take(0) =~= Seq::<(Seq<u8>, u32)>::empty());
    assert(entries_bytes(v.pairs.take(0)) =~= empty);
}

/// The flag, the times and the version at the end of a binary form are read
/// back.
proof fn lemma_tail_read(
    data: Seq<u8>,
    v: DictionaryView,
    d3: Seq<u8>,
    d4: Seq<u8>,
    d5: Seq<u8>,
    d6: Seq<u8>,
)
    requires
        encode_utf8(v.version).len() <= u64::MAX,
        d4 == d3 + seq![
            if v.frozen {
                1u8
            } else {
                0u8
            },
        ],
        d5 == d4 + u64_be(v.created_at),
        d6 == d5 + stamp_bytes(v.frozen_at),
        data == d6 + text_bytes(v.version),
        begins(d4, data),
        begins(d5, data),
        begins(d6, data),
    ensures
        parsed_tail(data, d3.len() as int) == Ok::<
            (bool, u64, Option<u64>, Seq<char>),
            DictionaryError,
        >((v.frozen, v.created_at, v.frozen_at, v.version)),
{
    let at = d3.len() as int;
    lemma_first_behind(
        data,
        d3,
        seq![
            if v.frozen {
                1u8
            } else {
                0u8
            },
        ],
    );
    lemma_u64_behind(data, d4, v.created_at);
    lemma_stamp_behind(data, d5, v.frozen_at);
    lemma_whole_is_prefix(data);
    lemma_text_behind(data, d6, v.version);
    lemma_tail_conclude(
        data,
        at,
        v.frozen,
        v.created_at,
        v.frozen_at,
        v.version,
        d6.len() as int,
    );
}

/// A byte string begins with itself.
proof fn lemma_whole_is_prefix(data: Seq<u8>)
    ensures
        begins(data, data),
{
    reveal(begins);
    assert(data.subrange(0, data.len() as int) =~= data);
}

/// The first byte of what stands behind `before` stands right behind it.
proof fn lemma_first_behind(data: Seq<u8>, before: Seq<u8>, part: Seq<u8>)
    requires
        part.len() >= 1,
        begins(before + part, data),
    ensures
        before.len() + part.len() <= data.len(),
        data[before.len() as int] == part[0],
{
    lemma_part_at(data, before, part);
    let at = before.len() as int;
    assert(data[at] == data.subrange(at, at + part.len())[0]);
}

/// A freeze time written behind `before` is read back from there.
proof fn lemma_stamp_behind(data: Seq<u8>, before: Seq<u8>, stamp: Option<u64>)
    requires
        begins(before + stamp_bytes(stamp), data),
    ensures
        match stamp {
            None => data[before.len() as int] == 0 && stamp_bytes(stamp).len() == 1,
            Some(t) => data[before.len() as int] == 1 && u64_at(data, before.len() as int + 1) == t
                && stamp_bytes(stamp).len() == 9,
        },
        before.len() + stamp_bytes(stamp).len() <= data.len(),
{
    lemma_first_behind(data, before, stamp_bytes(stamp));
    match stamp {
        None => {},
        Some(t) => {
            lemma_u64_be_round_trip(t);
            assert(before + stamp_bytes(stamp) =~= (before + seq![1u8]) + u64_be(t));
            lemma_u64_behind(data, before + seq![1u8], t);
        },
    }
}

/// What stands behind the entries is read as flag, times and version where
/// each of them stands in its place.
proof fn lemma_tail_conclude(
    data: Seq<u8>,
    at: int,
    frozen: bool,
    created_at: u64,
    frozen_at: Option<u64>,
    version: Seq<char>,
    next: int,
)
    requires
        0 <= at,
        at + 10 <= data.len(),
        data[at] == if frozen {
            1u8
        } else {
            0u8
        },
        u64_at(data, at + 1) == created_at,
        match frozen_at {
            None => data[at + 9] == 0 && next == at + 10,
            Some(t) => data[at + 9] == 1 && at + 18 <= data.len() && u64_at(data, at + 10) == t
                && next == at + 18,
        },
        parsed_text(data, next) == Ok::<(Seq<char>, int), DictionaryError>(
            (version, data.len() as int),
        ),
    ensures
        parsed_tail(data, at) == Ok::<(bool, u64, Option<u64>, Seq<char>), DictionaryError>(
            (frozen, created_at, frozen_at, version),
        ),
{
}

} // verus!
