use vstd::prelude::*;
use vstd::string::StringExecFns;
use crate::engine::hash::{digest_eq, sha256, sha256_digest};
use crate::utils::bytes::copy_range;
use crate::utils::text::{distinct_texts, find_text, lemma_find_text, same_text};

verus! {

/// The record of a content-addressed symbol.
#[derive(Debug)]
pub struct StoredSymbol {
    pub hash: String,
    pub bytes: Vec<u8>,
    pub size: u64,
    pub first_seen: u64,
    pub usage_count: u64,
    pub content_hash: [u8; 32],
}

/// A symbol record as plain values.
pub struct StoredSymbolView {
    pub hash: Seq<char>,
    pub bytes: Seq<u8>,
    pub size: u64,
    pub first_seen: u64,
    pub usage_count: u64,
    pub content_hash: Seq<u8>,
}

impl View for StoredSymbol {
    type V = StoredSymbolView;

    open spec fn view(&self) -> StoredSymbolView {
        StoredSymbolView {
            hash: self.hash@,
            bytes: self.bytes@,
            size: self.size,
            first_seen: self.first_seen,
            usage_count: self.usage_count,
            content_hash: self.content_hash@,
        }
    }
}

/// Where a symbol is used across the corpus: how often in each object, and
/// the totals over all objects.
#[derive(Debug)]
pub struct SymbolUsage {
    pub symbol_hash: String,
    pub total_bytes_contributed: u64,
    pub total_occurrences: u64,
    pub objects: Vec<(String, u64)>,
}

/// A usage record as plain values; `objects` lists each object key once, with
/// the symbol's occurrence count in that object.
pub struct SymbolUsageView {
    pub symbol_hash: Seq<char>,
    pub total_bytes_contributed: u64,
    pub total_occurrences: u64,
    pub objects: Seq<(Seq<char>, u64)>,
}

/// Why the symbol store refused a request.
#[derive(Debug, Clone, Copy, PartialEq, Eq)]
pub enum SymbolStoreError {
    /// No symbol is stored under the hash.
    NotFound,
    /// A usage total would pass the largest number that can be recorded.
    Overflow,
}

/// The object keys of a usage list.
pub open spec fn object_keys(objects: Seq<(Seq<char>, u64)>) -> Seq<Seq<char>> {
    Seq::new(objects.len(), |i: int| objects[i].0)
}

/// The sum of the occurrence counts of a usage list.
pub open spec fn sum_counts(objects: Seq<(Seq<char>, u64)>) -> int
    decreases objects.len(),
{
    if objects.len() == 0 {
        0
    } else {
        sum_counts(objects.drop_last()) + objects.last().1
    }
}

/// The count recorded for `key`, zero where there is none.
pub open spec fn count_for(objects: Seq<(Seq<char>, u64)>, key: Seq<char>) -> u64 {
    let k = find_text(object_keys(objects), key, 0);
    if k >= 0 {
        objects[k].1
    } else {
        0
    }
}

/// The usage list with the count of `key` set to `count`.
pub open spec fn with_count(objects: Seq<(Seq<char>, u64)>, key: Seq<char>, count: u64) -> Seq<
    (Seq<char>, u64),
> {
    let k = find_text(object_keys(objects), key, 0);
    if k >= 0 {
        objects.update(k, (key, count))
    } else {
        objects.push((key, count))
    }
}

/// The usage record is consistent: no object is listed twice and the total is
/// the sum over the objects.
pub open spec fn usage_consistent(u: SymbolUsageView) -> bool {
    distinct_texts(object_keys(u.objects)) && u.total_occurrences == sum_counts(u.objects)
}

/// The total of a usage record once `key` counts `count`.
pub open spec fn total_with(u: SymbolUsageView, key: Seq<char>, count: u64) -> int {
    u.total_occurrences - count_for(u.objects, key) + count
}

/// Whether an update can be recorded: the new total and the bytes it stands
/// for both fit.
pub open spec fn update_fits(u: SymbolUsageView, key: Seq<char>, size: u64, count: u64) -> bool {
    total_with(u, key, count) <= u64::MAX && total_with(u, key, count) * size <= u64::MAX
}

/// The usage record after an update: the count of `key` replaced, the total
/// kept equal to the sum, the bytes contributed recomputed from the total.
pub open spec fn usage_updated(u: SymbolUsageView, key: Seq<char>, size: u64, count: u64)
    -> SymbolUsageView {
    if update_fits(u, key, size, count) {
        SymbolUsageView {
            symbol_hash: u.symbol_hash,
            total_bytes_contributed: (total_with(u, key, count) * size) as u64,
            total_occurrences: total_with(u, key, count) as u64,
            objects: with_count(u.objects, key, count),
        }
    } else {
        u
    }
}

/// The sum of a usage list after one count was replaced.
pub proof fn lemma_sum_update(objects: Seq<(Seq<char>, u64)>, k: int, e: (Seq<char>, u64))
    requires
        0 <= k < objects.len(),
    ensures
        sum_counts(objects.update(k, e)) == sum_counts(objects) - objects[k].1 + e.1,
        0 <= objects[k].1 <= sum_counts(objects),
    decreases objects.len(),
{
    let n = objects.len() - 1;
    lemma_sum_nonneg(objects.drop_last());
    if k == n {
        assert(objects.update(k, e).drop_last() =~= objects.drop_last());
    } else {
        lemma_sum_update(objects.drop_last(), k, e);
        assert(objects.update(k, e).drop_last() =~= objects.drop_last().update(k, e));
    }
}

/// A sum of counts is not negative.
pub proof fn lemma_sum_nonneg(objects: Seq<(Seq<char>, u64)>)
    ensures
        0 <= sum_counts(objects),
    decreases objects.len(),
{
    if objects.len() > 0 {
        lemma_sum_nonneg(objects.drop_last());
    }
}

/// An update keeps a consistent usage record consistent, and after one that
/// was recorded the total is the sum over the objects and the bytes
/// contributed are the total times the symbol's size.
pub proof fn lemma_usage_consistency(u: SymbolUsageView, key: Seq<char>, size: u64, count: u64)
    requires
        usage_consistent(u),
    ensures
        usage_consistent(usage_updated(u, key, size, count)),
        update_fits(u, key, size, count) ==> usage_updated(u, key, size, count).total_occurrences
            == sum_counts(usage_updated(u, key, size, count).objects) && usage_updated(
            u,
            key,
            size,
            count,
        ).total_bytes_contributed == usage_updated(u, key, size, count).total_occurrences * size,
        count_for(usage_updated(u, key, size, count).objects, key) == if update_fits(
            u,
            key,
            size,
            count,
        ) {
            count
        } else {
            count_for(u.objects, key)
        },
{
    let keys = object_keys(u.objects);
    lemma_find_text(keys, key, 0);
    let k = find_text(keys, key, 0);
    if update_fits(u, key, size, count) {
        let after = with_count(u.objects, key, count);
        let keys2 = object_keys(after);
        if k >= 0 {
            lemma_sum_update(u.objects, k, (key, count));
            assert(keys2 =~= keys);
        } else {
            assert(after.drop_last() =~= u.objects);
            assert(keys2 =~= keys.push(key));
            assert forall|i: int, j: int| 0 <= i < j < keys2.len() implies keys2[i] != keys2[j] by {
                if j == keys.len() {
                    assert(keys[i] != key);
                }
            }
        }
        lemma_find_text(keys2, key, 0);
        let k2 = find_text(keys2, key, 0);
        if k >= 0 {
            assert(k2 == k) by {
                assert(keys2[k] == key);
            }
        } else {
            assert(keys2[keys.len() as int] == key);
            if k2 < keys.len() {
                assert(keys2[k2] == keys[k2]);
            }
        }
    }
}

impl View for SymbolUsage {
    type V = SymbolUsageView;

    open spec fn view(&self) -> SymbolUsageView {
        SymbolUsageView {
            symbol_hash: self.symbol_hash@,
            total_bytes_contributed: self.total_bytes_contributed,
            total_occurrences: self.total_occurrences,
            objects: Seq::new(self.objects@.len(), |i: int| (self.objects@[i].0@, self.objects@[i].1)),
        }
    }
}

impl SymbolUsage {
    /// An empty usage record for the symbol `symbol_hash`.
    pub fn new(symbol_hash: &str) -> (u: Self)
        ensures
            u@ == (SymbolUsageView {
                symbol_hash: symbol_hash@,
                total_bytes_contributed: 0,
                total_occurrences: 0,
                objects: Seq::<(Seq<char>, u64)>::empty(),
            }),
            usage_consistent(u@),
    {
        let u = Self {
            symbol_hash: String::from_str(symbol_hash),
            total_bytes_contributed: 0,
            total_occurrences: 0,
            objects: Vec::new(),
        };
        assert(u@.objects =~= Seq::<(Seq<char>, u64)>::empty());
        u
    }

    /// Position of the entry for `key`.
    fn position_of(&self, key: &str) -> (r: Option<usize>)
        ensures
            match r {
                Some(i) => find_text(object_keys(self@.objects), key@, 0) == i && i
                    < self.objects@.len(),
                None => find_text(object_keys(self@.objects), key@, 0) == -1,
            },
    {
        let ghost keys = object_keys(self@.objects);
        let mut i: usize = 0;
        while i < self.objects.len()
            invariant
                i <= self.objects@.len(),
                keys == object_keys(self@.objects),
                find_text(keys, key@, i as int) == find_text(keys, key@, 0),
            decreases self.objects@.len() - i,
        {
            if same_text(self.objects[i].0.as_str(), key) {
                return Some(i);
            }
            i += 1;
        }
        None
    }

    /// The count recorded for `key`, zero where there is none.
    pub fn count_of(&self, key: &str) -> (c: u64)
        ensures
            c == count_for(self@.objects, key@),
    {
        match self.position_of(key) {
            Some(i) => self.objects[i].1,
            None => 0,
        }
    }

    /// Records that the symbol, `symbol_bytes` long, occurs
    /// `occurrence_count` times in the object `object_key`. The count replaces
    /// an earlier one for that object; the totals follow. Where a total would
    /// not fit, nothing changes and the update is refused.
    pub fn record(&mut self, object_key: &str, symbol_bytes: u64, occurrence_count: u64) -> (r:
        Result<(), SymbolStoreError>)
        requires
            usage_consistent(old(self)@),
        ensures
            usage_consistent(final(self)@),
            final(self)@ == usage_updated(old(self)@, object_key@, symbol_bytes, occurrence_count),
            r is Ok <==> update_fits(old(self)@, object_key@, symbol_bytes, occurrence_count),
            r is Err ==> r == Err::<(), SymbolStoreError>(SymbolStoreError::Overflow),
    {
        proof {
            lemma_usage_consistency(old(self)@, object_key@, symbol_bytes, occurrence_count);
            lemma_find_text(object_keys(old(self)@.objects), object_key@, 0);
        }
        let at: Option<usize> = self.position_of(object_key);
        let prev: u64 = match at {
            Some(i) => self.objects[i].1,
            None => 0,
        };
        proof {
            if at is Some {
                lemma_sum_update(old(self)@.objects, at->Some_0 as int, (object_key@, 0u64));
            }
        }
        let base: u64 = self.total_occurrences - prev;
        let total: u64 = match base.checked_add(occurrence_count) {
            Some(t) => t,
            None => {
                return Err(SymbolStoreError::Overflow);
            },
        };
        let contributed: u64 = match total.checked_mul(symbol_bytes) {
            Some(c) => c,
            None => {
                return Err(SymbolStoreError::Overflow);
            },
        };
        match at {
            Some(i) => {
                self.objects.set(i, (String::from_str(object_key), occurrence_count));
            },
            None => {
                self.objects.push((String::from_str(object_key), occurrence_count));
            },
        }
        self.total_occurrences = total;
        self.total_bytes_contributed = contributed;
        proof {
            assert(self@.objects =~= with_count(old(self)@.objects, object_key@, occurrence_count));
        }
        Ok(())
    }

    /// A copy of this record.
    pub fn duplicate(&self) -> (u: Self)
        ensures
            u@ == self@,
    {
        let mut objects: Vec<(String, u64)> = Vec::new();
        let mut i: usize = 0;
        while i < self.objects.len()
            invariant
                i <= self.objects@.len(),
                objects@.len() == i,
                forall|k: int|
                    0 <= k < i ==> (#[trigger] objects@[k]).0@ == self.objects@[k].0@ && objects@[k].1
                        == self.objects@[k].1,
            decreases self.objects@.len() - i,
        {
            objects.push((self.objects[i].0.clone(), self.objects[i].1));
            i += 1;
        }
        let u = Self {
            symbol_hash: self.symbol_hash.clone(),
            total_bytes_contributed: self.total_bytes_contributed,
            total_occurrences: self.total_occurrences,
            objects,
        };
        assert(u@.objects =~= self@.objects);
        u
    }
}

/// The hashes of a list of symbol records.
pub open spec fn record_hashes(records: Seq<StoredSymbolView>) -> Seq<Seq<char>> {
    Seq::new(records.len(), |i: int| records[i].hash)
}

/// The hashes of a list of usage records.
pub open spec fn usage_hashes(usages: Seq<SymbolUsageView>) -> Seq<Seq<char>> {
    Seq::new(usages.len(), |i: int| usages[i].symbol_hash)
}

/// The record stored under `hash`, if any.
pub open spec fn record_for(records: Seq<StoredSymbolView>, hash: Seq<char>) -> Option<
    StoredSymbolView,
> {
    let k = find_text(record_hashes(records), hash, 0);
    if k >= 0 {
        Some(records[k])
    } else {
        None
    }
}

/// The record written for a symbol first seen at `now`.
pub open spec fn fresh_record(hash: Seq<char>, bytes: Seq<u8>, now: u64) -> StoredSymbolView {
    StoredSymbolView {
        hash,
        bytes,
        size: bytes.len() as u64,
        first_seen: now,
        usage_count: 1,
        content_hash: sha256_digest(bytes),
    }
}

/// A record after one more use: only the running count moves, and it stays at
/// the largest number once there.
pub open spec fn used_again(r: StoredSymbolView) -> StoredSymbolView {
    StoredSymbolView {
        hash: r.hash,
        bytes: r.bytes,
        size: r.size,
        first_seen: r.first_seen,
        usage_count: if r.usage_count < u64::MAX {
            (r.usage_count + 1) as u64
        } else {
            r.usage_count
        },
        content_hash: r.content_hash,
    }
}

/// The records after a store request: a new hash gets a fresh record at the
/// end; a known hash keeps its record, bytes and all, with one more use.
pub open spec fn records_after_store(
    records: Seq<StoredSymbolView>,
    hash: Seq<char>,
    bytes: Seq<u8>,
    now: u64,
) -> Seq<StoredSymbolView> {
    let k = find_text(record_hashes(records), hash, 0);
    if k >= 0 {
        records.update(k, used_again(records[k]))
    } else {
        records.push(fresh_record(hash, bytes, now))
    }
}

/// The usage record kept for `hash`, an empty one where there is none.
pub open spec fn usage_for(usages: Seq<SymbolUsageView>, hash: Seq<char>) -> SymbolUsageView {
    let k = find_text(usage_hashes(usages), hash, 0);
    if k >= 0 {
        usages[k]
    } else {
        SymbolUsageView {
            symbol_hash: hash,
            total_bytes_contributed: 0,
            total_occurrences: 0,
            objects: Seq::<(Seq<char>, u64)>::empty(),
        }
    }
}

/// The usage records after an update for `hash`.
pub open spec fn usages_after(
    usages: Seq<SymbolUsageView>,
    hash: Seq<char>,
    key: Seq<char>,
    size: u64,
    count: u64,
) -> Seq<SymbolUsageView> {
    let k = find_text(usage_hashes(usages), hash, 0);
    let next = usage_updated(usage_for(usages, hash), key, size, count);
    if !update_fits(usage_for(usages, hash), key, size, count) {
        usages
    } else if k >= 0 {
        usages.update(k, next)
    } else {
        usages.push(next)
    }
}

/// What the symbol store holds, as plain values.
pub struct SymbolStoreView {
    pub symbols: Seq<StoredSymbolView>,
    pub usages: Seq<SymbolUsageView>,
}

/// The content-addressed symbol records and the usage index over them.
#[derive(Debug)]
pub struct SymbolStore {
    symbols: Vec<StoredSymbol>,
    usages: Vec<SymbolUsage>,
}

impl View for SymbolStore {
    type V = SymbolStoreView;

    closed spec fn view(&self) -> SymbolStoreView {
        SymbolStoreView {
            symbols: Seq::new(self.symbols@.len(), |i: int| self.symbols@[i]@),
            usages: Seq::new(self.usages@.len(), |i: int| self.usages@[i]@),
        }
    }
}

/// The store is consistent: one record and one usage record at most for each
/// hash, and every usage record consistent.
pub open spec fn store_consistent(v: SymbolStoreView) -> bool {
    &&& distinct_texts(record_hashes(v.symbols))
    &&& distinct_texts(usage_hashes(v.usages))
    &&& forall|i: int| 0 <= i < v.usages.len() ==> usage_consistent(#[trigger] v.usages[i])
}

impl SymbolStore {
    /// An empty store.
    pub fn new() -> (s: Self)
        ensures
            s@.symbols.len() == 0,
            s@.usages.len() == 0,
            store_consistent(s@),
    {
        Self { symbols: Vec::new(), usages: Vec::new() }
    }

    /// Position of the record stored under `hash`.
    fn symbol_position(&self, hash: &str) -> (r: Option<usize>)
        ensures
            match r {
                Some(i) => find_text(record_hashes(self@.symbols), hash@, 0) == i && i
                    < self.symbols@.len(),
                None => find_text(record_hashes(self@.symbols), hash@, 0) == -1,
            },
    {
        let ghost keys = record_hashes(self@.symbols);
        let mut i: usize = 0;
        while i < self.symbols.len()
            invariant
                i <= self.symbols@.len(),
                keys == record_hashes(self@.symbols),
                find_text(keys, hash@, i as int) == find_text(keys, hash@, 0),
            decreases self.symbols@.len() - i,
        {
            if same_text(self.symbols[i].hash.as_str(), hash) {
                return Some(i);
            }
            i += 1;
        }
        None
    }

    /// Position of the usage record kept for `hash`.
    fn usage_position(&self, hash: &str) -> (r: Option<usize>)
        ensures
            match r {
                Some(i) => find_text(usage_hashes(self@.usages), hash@, 0) == i && i
                    < self.usages@.len(),
                None => find_text(usage_hashes(self@.usages), hash@, 0) == -1,
            },
    {
        let ghost keys = usage_hashes(self@.usages);
        let mut i: usize = 0;
        while i < self.usages.len()
            invariant
                i <= self.usages@.len(),
                keys == usage_hashes(self@.usages),
                find_text(keys, hash@, i as int) == find_text(keys, hash@, 0),
            decreases self.usages@.len() - i,
        {
            if same_text(self.usages[i].symbol_hash.as_str(), hash) {
                return Some(i);
            }
            i += 1;
        }
        None
    }

    /// Number of symbols stored.
    pub fn symbol_count(&self) -> (n: usize)
        ensures
            n == self@.symbols.len(),
    {
        self.symbols.len()
    }

    /// The record at position `i`, in the order the symbols were first
    /// stored.
    pub fn symbol_at(&self, i: usize) -> (r: &StoredSymbol)
        requires
            i < self@.symbols.len(),
        ensures
            r@ == self@.symbols[i as int],
    {
        &self.symbols[i]
    }

    /// Stores a symbol under its hash, once: a hash that is new gets a record
    /// with the bytes, their SHA-256 and the time; a hash that is known keeps
    /// its record and bytes, whatever bytes are offered, and counts one more
    /// use. Says whether the record is new.
    pub fn store_symbol(&mut self, hash: &str, bytes: &[u8], now: u64) -> (created: bool)
        requires
            store_consistent(old(self)@),
        ensures
            store_consistent(final(self)@),
            created == (record_for(old(self)@.symbols, hash@) is None),
            final(self)@.symbols == records_after_store(old(self)@.symbols, hash@, bytes@, now),
            final(self)@.usages == old(self)@.usages,
    {
        proof {
            lemma_find_text(record_hashes(old(self)@.symbols), hash@, 0);
        }
        match self.symbol_position(hash) {
            Some(i) => {
                let mut record: StoredSymbol = self.symbols.remove(i);
                if record.usage_count < u64::MAX {
                    record.usage_count = record.usage_count + 1;
                }
                self.symbols.insert(i, record);
                proof {
                    assert(self@.symbols =~= records_after_store(
                        old(self)@.symbols,
                        hash@,
                        bytes@,
                        now,
                    ));
                    assert(record_hashes(self@.symbols) =~= record_hashes(old(self)@.symbols));
                    assert(self@.usages =~= old(self)@.usages);
                }
                false
            },
            None => {
                let copy: Vec<u8> = copy_range(bytes, 0, bytes.len());
                assert(copy@ =~= bytes@);
                let record = StoredSymbol {
                    hash: String::from_str(hash),
                    bytes: copy,
                    size: bytes.len() as u64,
                    first_seen: now,
                    usage_count: 1,
                    content_hash: sha256(bytes),
                };
                self.symbols.push(record);
                proof {
                    assert(self@.symbols =~= records_after_store(
                        old(self)@.symbols,
                        hash@,
                        bytes@,
                        now,
                    ));
                    let keys = record_hashes(self@.symbols);
                    let before = record_hashes(old(self)@.symbols);
                    assert(keys =~= before.push(hash@));
                    assert forall|a: int, b: int| 0 <= a < b < keys.len() implies keys[a]
                        != keys[b] by {
                        if b == before.len() {
                            assert(before[a] != hash@);
                        }
                    }
                    assert(self@.usages =~= old(self)@.usages);
                }
                true
            },
        }
    }

    /// The record stored under `hash`, if any.
    pub fn load_symbol(&self, hash: &str) -> (r: Option<&StoredSymbol>)
        ensures
            match r {
                Some(s) => record_for(self@.symbols, hash@) == Some(s@),
                None => record_for(self@.symbols, hash@) is None,
            },
    {
        match self.symbol_position(hash) {
            Some(i) => Some(&self.symbols[i]),
            None => None,
        }
    }

    /// Records that the symbol `symbol_hash`, `symbol_bytes` long, occurs
    /// `occurrence_count` times in the object `object_key`. Refused, with
    /// nothing changed, where a total would not fit.
    pub fn add_usage(
        &mut self,
        symbol_hash: &str,
        object_key: &str,
        symbol_bytes: u64,
        occurrence_count: u64,
    ) -> (r: Result<(), SymbolStoreError>)
        requires
            store_consistent(old(self)@),
        ensures
            store_consistent(final(self)@),
            final(self)@.symbols == old(self)@.symbols,
            final(self)@.usages == usages_after(
                old(self)@.usages,
                symbol_hash@,
                object_key@,
                symbol_bytes,
                occurrence_count,
            ),
            r is Ok <==> update_fits(
                usage_for(old(self)@.usages, symbol_hash@),
                object_key@,
                symbol_bytes,
                occurrence_count,
            ),
            r is Err ==> r == Err::<(), SymbolStoreError>(SymbolStoreError::Overflow),
    {
        proof {
            lemma_find_text(usage_hashes(old(self)@.usages), symbol_hash@, 0);
        }
        let ghost before = old(self)@.usages;
        match self.usage_position(symbol_hash) {
            Some(i) => {
                let mut usage: SymbolUsage = self.usages.remove(i);
                assert(usage@ == before[i as int]);
                let r = usage.record(object_key, symbol_bytes, occurrence_count);
                self.usages.insert(i, usage);
                proof {
                    assert(self@.usages =~= usages_after(
                        before,
                        symbol_hash@,
                        object_key@,
                        symbol_bytes,
                        occurrence_count,
                    ));
                    assert(usage_hashes(self@.usages) =~= usage_hashes(before));
                    assert(self@.symbols =~= old(self)@.symbols);
                    assert forall|j: int| 0 <= j < self@.usages.len() implies usage_consistent(
                        #[trigger] self@.usages[j],
                    ) by {
                        if j != i {
                            assert(self@.usages[j] == before[j]);
                        }
                    }
                }
                r
            },
            None => {
                let mut usage: SymbolUsage = SymbolUsage::new(symbol_hash);
                let r = usage.record(object_key, symbol_bytes, occurrence_count);
                if r.is_ok() {
                    self.usages.push(usage);
                }
                proof {
                    assert(self@.usages =~= usages_after(
                        before,
                        symbol_hash@,
                        object_key@,
                        symbol_bytes,
                        occurrence_count,
                    ));
                    assert(self@.symbols =~= old(self)@.symbols);
                    if r is Ok {
                        let keys = usage_hashes(self@.usages);
                        let prior = usage_hashes(before);
                        assert(keys =~= prior.push(symbol_hash@));
                        assert forall|a: int, b: int| 0 <= a < b < keys.len() implies keys[a]
                            != keys[b] by {
                            if b == prior.len() {
                                assert(prior[a] != symbol_hash@);
                            }
                        }
                        assert forall|j: int| 0 <= j < self@.usages.len() implies usage_consistent(
                            #[trigger] self@.usages[j],
                        ) by {
                            if j < before.len() {
                                assert(self@.usages[j] == before[j]);
                            }
                        }
                    }
                }
                r
            },
        }
    }

    /// The usage record kept for `symbol_hash`; an empty one where the symbol
    /// was never used.
    pub fn get_corpus_usage(&self, symbol_hash: &str) -> (u: SymbolUsage)
        ensures
            u@ == usage_for(self@.usages, symbol_hash@),
    {
        match self.usage_position(symbol_hash) {
            Some(i) => self.usages[i].duplicate(),
            None => SymbolUsage::new(symbol_hash),
        }
    }

    /// Whether the bytes stored under `hash` still have the SHA-256 that was
    /// recorded when they were stored.
    pub fn verify_symbol_integrity(&self, hash: &str) -> (r: Result<bool, SymbolStoreError>)
        ensures
            match record_for(self@.symbols, hash@) {
                Some(s) => r == Ok::<bool, SymbolStoreError>(
                    sha256_digest(s.bytes) == s.content_hash,
                ),
                None => r == Err::<bool, SymbolStoreError>(SymbolStoreError::NotFound),
            },
    {
        match self.symbol_position(hash) {
            Some(i) => {
                let computed: [u8; 32] = sha256(self.symbols[i].bytes.as_slice());
                Ok(digest_eq(&computed, &self.symbols[i].content_hash))
            },
            None => Err(SymbolStoreError::NotFound),
        }
    }

    /// Checks every record; the position of the first whose bytes no longer
    /// have the recorded SHA-256 is the error.
    pub fn verify_all_symbols(&self) -> (r: Result<(), usize>)
        ensures
            match r {
                Ok(_) => forall|i: int|
                    0 <= i < self@.symbols.len() ==> sha256_digest(
                        (#[trigger] self@.symbols[i]).bytes,
                    ) == self@.symbols[i].content_hash,
                Err(k) => k < self@.symbols.len() && sha256_digest(self@.symbols[k as int].bytes)
                    != self@.symbols[k as int].content_hash && forall|i: int|
                    0 <= i < k ==> sha256_digest((#[trigger] self@.symbols[i]).bytes)
                        == self@.symbols[i].content_hash,
            },
    {
        let mut i: usize = 0;
        while i < self.symbols.len()
            invariant
                i <= self.symbols@.len(),
                forall|j: int|
                    0 <= j < i ==> sha256_digest((#[trigger] self@.symbols[j]).bytes)
                        == self@.symbols[j].content_hash,
            decreases self.symbols@.len() - i,
        {
            let computed: [u8; 32] = sha256(self.symbols[i].bytes.as_slice());
            if !digest_eq(&computed, &self.symbols[i].content_hash) {
                assert(self@.symbols[i as int] == self.symbols@[i as int]@);
                return Err(i);
            }
            assert(self@.symbols[i as int] == self.symbols@[i as int]@);
            i += 1;
        }
        Ok(())
    }

    /// Takes over a record as it is, for a hash that has none yet: the way
    /// records kept elsewhere come back into the store. Says whether it was
    /// taken.
    pub fn restore_symbol(&mut self, record: StoredSymbol) -> (taken: bool)
        requires
            store_consistent(old(self)@),
        ensures
            store_consistent(final(self)@),
            taken == (record_for(old(self)@.symbols, record.hash@) is None),
            taken ==> final(self)@.symbols == old(self)@.symbols.push(record@),
            !taken ==> final(self)@.symbols == old(self)@.symbols,
            final(self)@.usages == old(self)@.usages,
    {
        proof {
            lemma_find_text(record_hashes(old(self)@.symbols), record.hash@, 0);
        }
        if self.symbol_position(record.hash.as_str()).is_some() {
            return false;
        }
        let ghost hash = record.hash@;
        self.symbols.push(record);
        proof {
            assert(self@.symbols =~= old(self)@.symbols.push(record@));
            let keys = record_hashes(self@.symbols);
            let before = record_hashes(old(self)@.symbols);
            assert(keys =~= before.push(hash));
            assert forall|a: int, b: int| 0 <= a < b < keys.len() implies keys[a] != keys[b] by {
                if b == before.len() {
                    assert(before[a] != hash);
                }
            }
            assert(self@.usages =~= old(self)@.usages);
        }
        true
    }

    /// Number of symbols stored and the sum of their sizes, the sum held at
    /// the largest number where it would pass it.
    pub fn get_corpus_stats(&self) -> (r: (u64, u64))
        ensures
            r.0 == self@.symbols.len(),
            r.1 == capped_size(self@.symbols, self@.symbols.len() as int),
    {
        let mut total: u64 = 0;
        let mut i: usize = 0;
        while i < self.symbols.len()
            invariant
                i <= self.symbols@.len(),
                total == capped_size(self@.symbols, i as int),
            decreases self.symbols@.len() - i,
        {
            let size: u64 = self.symbols[i].size;
            assert(self@.symbols[i as int] == self.symbols@[i as int]@);
            total = if total > u64::MAX - size {
                u64::MAX
            } else {
                total + size
            };
            i += 1;
        }
        (self.symbols.len() as u64, total)
    }
}

/// The sum of the sizes of the first `n` records, held at the largest number
/// where it would pass it.
pub open spec fn capped_size(records: Seq<StoredSymbolView>, n: int) -> u64
    decreases n,
{
    if n <= 0 {
        0
    } else {
        let before = capped_size(records, n - 1);
        if before + records[n - 1].size > u64::MAX {
            u64::MAX
        } else {
            (before + records[n - 1].size) as u64
        }
    }
}

/// The bytes stored under `hash`, if any.
pub open spec fn blob_for(records: Seq<StoredSymbolView>, hash: Seq<char>) -> Option<Seq<u8>> {
    match record_for(records, hash) {
        Some(r) => Some(r.bytes),
        None => None,
    }
}

/// Stored bytes never change: after a store request every hash that had bytes
/// has the same bytes, the hash stored has the bytes offered only if it had
/// none, and no other hash gains any.
pub proof fn lemma_store_is_write_once(
    records: Seq<StoredSymbolView>,
    hash: Seq<char>,
    bytes: Seq<u8>,
    now: u64,
    other: Seq<char>,
)
    requires
        distinct_texts(record_hashes(records)),
    ensures
        blob_for(records, other) is Some ==> blob_for(
            records_after_store(records, hash, bytes, now),
            other,
        ) == blob_for(records, other),
        blob_for(records, other) is None && other == hash ==> blob_for(
            records_after_store(records, hash, bytes, now),
            other,
        ) == Some(bytes),
        blob_for(records, other) is None && other != hash ==> blob_for(
            records_after_store(records, hash, bytes, now),
            other,
        ) is None,
{
    let keys = record_hashes(records);
    let after = records_after_store(records, hash, bytes, now);
    let keys2 = record_hashes(after);
    lemma_find_text(keys, hash, 0);
    lemma_find_text(keys, other, 0);
    lemma_find_text(keys2, other, 0);
    let k = find_text(keys, hash, 0);
    let o = find_text(keys, other, 0);
    let o2 = find_text(keys2, other, 0);
    if k >= 0 {
        assert(keys2 =~= keys);
    } else {
        assert(keys2 =~= keys.push(hash));
        if o >= 0 {
            assert(keys2[o] == other);
            if o2 < o {
                assert(keys2[o2] == keys[o2]);
            }
        } else {
            if o2 >= 0 && o2 < keys.len() {
                assert(keys2[o2] == keys[o2]);
            }
            if other == hash {
                assert(keys2[keys.len() as int] == hash);
            }
        }
    }
}

/// Once a symbol is stored, a second store request under its hash, with
/// whatever bytes, leaves the stored bytes as they are.
pub proof fn lemma_symbol_immutable(
    records: Seq<StoredSymbolView>,
    hash: Seq<char>,
    first: Seq<u8>,
    second: Seq<u8>,
    t1: u64,
    t2: u64,
)
    requires
        distinct_texts(record_hashes(records)),
        blob_for(records, hash) is None,
    ensures
        blob_for(records_after_store(records, hash, first, t1), hash) == Some(first),
        blob_for(
            records_after_store(records_after_store(records, hash, first, t1), hash, second, t2),
            hash,
        ) == Some(first),
{
    lemma_store_is_write_once(records, hash, first, t1, hash);
    let once = records_after_store(records, hash, first, t1);
    let keys = record_hashes(records);
    lemma_find_text(keys, hash, 0);
    assert(record_hashes(once) =~= keys.push(hash));
    assert forall|a: int, b: int| 0 <= a < b < record_hashes(once).len() implies record_hashes(
        once,
    )[a] != record_hashes(once)[b] by {
        if b == keys.len() {
            assert(keys[a] != hash);
        }
    }
    lemma_store_is_write_once(once, hash, second, t2, hash);
}

} // verus!
