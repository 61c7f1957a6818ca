use vstd::prelude::*;
use crate::engine::hash::content_id;
use crate::engine::huffman::{
    count_tokens, encode_bits, frequencies, huffman_codes, stream_bytes, HuffmanTable,
};
use crate::engine::payload::{payload_bytes, write_payload};
use crate::engine::planner::{candidates_of, plan_symbols, planned, Candidate};
use crate::engine::symbols::Symbol;
use crate::engine::tokenizer::{
    expand, find_token, lemma_expand_push, lemma_find_token, lemma_tokenization_tokens,
    lemma_tokenize_expand, pairs_consistent, tokenization, tokenize,
};
use crate::storage::dictionary::{inserted_form, Dictionary, DictionaryView};
use crate::storage::metadata::{SymbolInfo, TokenBreakdown};
use crate::storage::symbols::{
    records_after_store, store_consistent, usages_after, SymbolStore, SymbolStoreView,
};

verus! {

/// The dictionary after it has learned the first `n` candidates: each is
/// inserted in turn, and left out where the dictionary does not accept it.
pub open spec fn learned(v: DictionaryView, cands: Seq<Candidate>, n: int) -> DictionaryView
    decreases n,
{
    if n <= 0 {
        v
    } else {
        inserted_form(learned(v, cands, n - 1), cands[n - 1].0, cands[n - 1].1)
    }
}

/// The dictionary after an object has been compressed against it: a frozen
/// one as it was, a mutable one with the candidates planned for the object
/// learned.
pub open spec fn dictionary_after(v: DictionaryView, input: Seq<u8>) -> DictionaryView {
    if v.frozen {
        v
    } else {
        learned(v, planned(input, 16), planned(input, 16).len() as int)
    }
}

/// The encoded form of an object under the entries `pairs`: the input is
/// tokenized, the tokens get their prefix code, and table and bit stream are
/// written out.
pub open spec fn object_payload(pairs: Seq<(Seq<u8>, u32)>, input: Seq<u8>) -> Seq<u8> {
    let tokens = tokenization(pairs, input);
    let codes = huffman_codes(tokens);
    payload_bytes(codes, stream_bytes(encode_bits(codes, tokens)))
}

/// Number of bytes that the dictionary tokens of a stream stand for.
pub open spec fn covered(pairs: Seq<(Seq<u8>, u32)>, tokens: Seq<u32>) -> int
    decreases tokens.len(),
{
    if tokens.len() == 0 {
        0
    } else {
        covered(pairs, tokens.drop_last()) + if find_token(pairs, tokens.last(), 0) >= 0 {
            pairs[find_token(pairs, tokens.last(), 0)].0.len() as int
        } else {
            0
        }
    }
}

/// Number of tokens of a stream that no dictionary entry owns.
pub open spec fn literal_count(pairs: Seq<(Seq<u8>, u32)>, tokens: Seq<u32>) -> int
    decreases tokens.len(),
{
    if tokens.len() == 0 {
        0
    } else {
        literal_count(pairs, tokens.drop_last()) + if find_token(pairs, tokens.last(), 0) >= 0 {
            0int
        } else {
            1int
        }
    }
}

/// The tokens of a stream that a dictionary entry owns, in order.
pub open spec fn owned_tokens(pairs: Seq<(Seq<u8>, u32)>, tokens: Seq<u32>) -> Seq<u32>
    decreases tokens.len(),
{
    if tokens.len() == 0 {
        Seq::<u32>::empty()
    } else if find_token(pairs, tokens.last(), 0) >= 0 {
        owned_tokens(pairs, tokens.drop_last()).push(tokens.last())
    } else {
        owned_tokens(pairs, tokens.drop_last())
    }
}

/// The symbol list as plain values: hash and length.
pub open spec fn infos_of(infos: Seq<SymbolInfo>) -> Seq<(Seq<char>, u64)> {
    Seq::new(infos.len(), |i: int| (infos[i].hash@, infos[i].bytes))
}

/// The symbols listed for an object compressed against a mutable dictionary:
/// one for each of the first `n` planned candidates.
pub open spec fn planned_infos(cands: Seq<Candidate>, n: int) -> Seq<(Seq<char>, u64)> {
    Seq::new(n as nat, |i: int| (content_id(cands[i].0), cands[i].0.len() as u64))
}

/// The symbols listed for an object compressed against a frozen dictionary:
/// one for each of the first `n` distinct dictionary tokens it uses, in the
/// order of first use.
pub open spec fn used_infos(pairs: Seq<(Seq<u8>, u32)>, uses: Seq<(u32, usize)>, n: int) -> Seq<
    (Seq<char>, u64),
>
    decreases n,
{
    if n <= 0 {
        Seq::<(Seq<char>, u64)>::empty()
    } else {
        let k = find_token(pairs, uses[n - 1].0, 0);
        if k >= 0 {
            used_infos(pairs, uses, n - 1).push(
                (content_id(pairs[k].0), pairs[k].0.len() as u64),
            )
        } else {
            used_infos(pairs, uses, n - 1)
        }
    }
}

/// The store after the first `n` planned candidates were recorded for the
/// object `key`: each is stored under its hash, once, and counted as used
/// once in the object.
pub open spec fn store_learned(
    v: SymbolStoreView,
    cands: Seq<Candidate>,
    key: Seq<char>,
    now: u64,
    n: int,
) -> SymbolStoreView
    decreases n,
{
    if n <= 0 {
        v
    } else {
        let before = store_learned(v, cands, key, now, n - 1);
        let hash = content_id(cands[n - 1].0);
        SymbolStoreView {
            symbols: records_after_store(before.symbols, hash, cands[n - 1].0, now),
            usages: usages_after(before.usages, hash, key, cands[n - 1].0.len() as u64, 1),
        }
    }
}

/// The store after the first `n` distinct dictionary tokens of an object were
/// recorded for the object `key`, each with the number of times it occurs. No
/// symbol is stored.
pub open spec fn store_used(
    v: SymbolStoreView,
    pairs: Seq<(Seq<u8>, u32)>,
    uses: Seq<(u32, usize)>,
    key: Seq<char>,
    n: int,
) -> SymbolStoreView
    decreases n,
{
    if n <= 0 {
        v
    } else {
        let before = store_used(v, pairs, uses, key, n - 1);
        let k = find_token(pairs, uses[n - 1].0, 0);
        if k >= 0 {
            SymbolStoreView {
                symbols: before.symbols,
                usages: usages_after(
                    before.usages,
                    content_id(pairs[k].0),
                    key,
                    pairs[k].0.len() as u64,
                    uses[n - 1].1 as u64,
                ),
            }
        } else {
            before
        }
    }
}

/// The store after an object was compressed: against a mutable dictionary
/// the planned candidates are recorded, against a frozen one the dictionary
/// symbols that the object uses.
pub open spec fn store_after(
    v: SymbolStoreView,
    d: DictionaryView,
    input: Seq<u8>,
    key: Seq<char>,
    now: u64,
) -> SymbolStoreView {
    if d.frozen {
        let uses = frequencies(owned_tokens(d.pairs, tokenization(d.pairs, input)));
        store_used(v, d.pairs, uses, key, uses.len() as int)
    } else {
        store_learned(v, planned(input, 16), key, now, planned(input, 16).len() as int)
    }
}

/// The symbols listed for an object.
pub open spec fn infos_after(d: DictionaryView, input: Seq<u8>) -> Seq<(Seq<char>, u64)> {
    if d.frozen {
        let uses = frequencies(owned_tokens(d.pairs, tokenization(d.pairs, input)));
        used_infos(d.pairs, uses, uses.len() as int)
    } else {
        planned_infos(planned(input, 16), planned(input, 16).len() as int)
    }
}

/// Learning keeps a consistent dictionary consistent.
pub proof fn lemma_learned_consistent(v: DictionaryView, cands: Seq<Candidate>, n: int)
    requires
        pairs_consistent(v.pairs),
        0 <= n <= cands.len(),
    ensures
        pairs_consistent(learned(v, cands, n).pairs),
        learned(v, cands, n).frozen == v.frozen,
    decreases n,
{
    if n > 0 {
        lemma_learned_consistent(v, cands, n - 1);
        crate::storage::dictionary::lemma_insert_preserves(
            learned(v, cands, n - 1),
            cands[n - 1].0,
            cands[n - 1].1,
            0,
        );
    }
}

/// A stream whose tokens are all dictionary tokens or literal bytes expands
/// to as many bytes as its dictionary tokens cover plus one for each other
/// token.
pub proof fn lemma_breakdown(pairs: Seq<(Seq<u8>, u32)>, tokens: Seq<u32>)
    requires
        forall|i: int|
            0 <= i < tokens.len() ==> find_token(pairs, #[trigger] tokens[i], 0) >= 0 || tokens[i]
                <= 255,
    ensures
        covered(pairs, tokens) + literal_count(pairs, tokens) == expand(pairs, tokens).len(),
        covered(pairs, tokens) >= 0,
        literal_count(pairs, tokens) >= 0,
    decreases tokens.len(),
{
    if tokens.len() > 0 {
        let front = tokens.drop_last();
        assert forall|i: int| 0 <= i < front.len() implies find_token(
            pairs,
            #[trigger] front[i],
            0,
        ) >= 0 || front[i] <= 255 by {
            assert(front[i] == tokens[i]);
        }
        lemma_breakdown(pairs, front);
        lemma_expand_push(pairs, front, tokens.last());
        assert(front.push(tokens.last()) =~= tokens);
        lemma_find_token(pairs, tokens.last(), 0);
    }
}

/// The breakdown of an object covers it exactly: the bytes covered by
/// dictionary tokens and the literal bytes add up to the object's size.
pub proof fn lemma_breakdown_exact(pairs: Seq<(Seq<u8>, u32)>, input: Seq<u8>)
    requires
        pairs_consistent(pairs),
    ensures
        covered(pairs, tokenization(pairs, input)) + literal_count(
            pairs,
            tokenization(pairs, input),
        ) == input.len(),
        covered(pairs, tokenization(pairs, input)) >= 0,
        literal_count(pairs, tokenization(pairs, input)) >= 0,
{
    let tokens = tokenization(pairs, input);
    assert forall|i: int| 0 <= i < tokens.len() implies find_token(pairs, #[trigger] tokens[i], 0)
        >= 0 || tokens[i] <= 255 by {
        lemma_tokenization_tokens(pairs, input, i);
    }
    lemma_breakdown(pairs, tokens);
    lemma_tokenize_expand(pairs, input);
}

/// The counts of a prefix of a stream are at most those of the stream.
proof fn lemma_breakdown_prefix(pairs: Seq<(Seq<u8>, u32)>, tokens: Seq<u32>, i: int)
    requires
        0 <= i <= tokens.len(),
    ensures
        0 <= covered(pairs, tokens.take(i)) <= covered(pairs, tokens),
        0 <= literal_count(pairs, tokens.take(i)) <= literal_count(pairs, tokens),
    decreases tokens.len() - i,
{
    lemma_counts_nonneg(pairs, tokens.take(i));
    if i < tokens.len() {
        lemma_breakdown_prefix(pairs, tokens, i + 1);
        assert(tokens.take(i + 1).drop_last() =~= tokens.take(i));
        lemma_find_token(pairs, tokens.take(i + 1).last(), 0);
    } else {
        assert(tokens.take(i) =~= tokens);
        lemma_counts_nonneg(pairs, tokens);
    }
}

/// The counts of a stream are not negative.
proof fn lemma_counts_nonneg(pairs: Seq<(Seq<u8>, u32)>, tokens: Seq<u32>)
    ensures
        0 <= covered(pairs, tokens),
        0 <= literal_count(pairs, tokens),
    decreases tokens.len(),
{
    if tokens.len() > 0 {
        lemma_counts_nonneg(pairs, tokens.drop_last());
        lemma_find_token(pairs, tokens.last(), 0);
    }
}

/// Encodes an object against the dictionary as it stands: the payload, and
/// how the object's bytes divide into bytes covered by symbols and literal
/// bytes.
pub fn encode_object(input: &[u8], dict: &Dictionary) -> (r: (Vec<u8>, TokenBreakdown))
    requires
        dict.wf(),
    ensures
        r.0@ == object_payload(dict@.pairs, input@),
        r.1.symbol_bytes == covered(dict@.pairs, tokenization(dict@.pairs, input@)),
        r.1.literal_bytes == literal_count(dict@.pairs, tokenization(dict@.pairs, input@)),
        r.1.literal_reason@ == "Below promotion threshold"@,
        r.1.symbol_bytes + r.1.literal_bytes == input@.len(),
{
    let ghost pairs = dict@.pairs;
    let tokens: Vec<u32> = tokenize(input, dict.symbols());
    let n: usize = input.len();
    proof {
        dict.lemma_wf_consistent();
        lemma_breakdown_exact(pairs, input@);
        assert(tokens@.take(0) =~= Seq::<u32>::empty());
    }
    let mut explained: u64 = 0;
    let mut literal: u64 = 0;
    let mut i: usize = 0;
    while i < tokens.len()
        invariant
            i <= tokens@.len(),
            pairs == dict@.pairs,
            explained == covered(pairs, tokens@.take(i as int)),
            literal == literal_count(pairs, tokens@.take(i as int)),
            covered(pairs, tokens@) + literal_count(pairs, tokens@) == n,
            covered(pairs, tokens@) >= 0,
            literal_count(pairs, tokens@) >= 0,
        decreases tokens@.len() - i,
    {
        proof {
            lemma_breakdown_prefix(pairs, tokens@, i + 1);
            assert(tokens@.take(i + 1).drop_last() =~= tokens@.take(i as int));
            assert(tokens@.take(i + 1).last() == tokens@[i as int]);
            lemma_find_token(pairs, tokens@[i as int], 0);
        }
        match dict.decode(tokens[i]) {
            Some(bytes) => {
                explained = explained + bytes.len() as u64;
            },
            None => {
                literal = literal + 1;
            },
        }
        i += 1;
    }
    proof {
        assert(tokens@.take(i as int) =~= tokens@);
    }
    let table: HuffmanTable = HuffmanTable::build(tokens.as_slice());
    let stream: Vec<u8> = table.encode(tokens.as_slice());
    let payload: Vec<u8> = write_payload(&table.encode_table, stream.as_slice());
    (payload, TokenBreakdown::new(explained, literal))
}

/// Teaches a mutable dictionary the planned candidates and records each in
/// the store for the object `object_key`.
fn learn(
    symbols: &Vec<Symbol>,
    dict: &mut Dictionary,
    symbol_store: &mut SymbolStore,
    object_key: &str,
    now: u64,
) -> (infos: Vec<SymbolInfo>)
    requires
        old(dict).wf(),
        store_consistent(old(symbol_store)@),
        forall|k: int| 0 <= k < symbols@.len() ==> (#[trigger] symbols@[k]).hash_matches(),
    ensures
        final(dict).wf(),
        store_consistent(final(symbol_store)@),
        final(dict)@ == learned(old(dict)@, candidates_of(symbols@), symbols@.len() as int),
        final(symbol_store)@ == store_learned(
            old(symbol_store)@,
            candidates_of(symbols@),
            object_key@,
            now,
            symbols@.len() as int,
        ),
        infos_of(infos@) == planned_infos(candidates_of(symbols@), symbols@.len() as int),
{
    let ghost cands = candidates_of(symbols@);
    let mut infos: Vec<SymbolInfo> = Vec::new();
    let mut i: usize = 0;
    proof {
        assert(infos_of(infos@) =~= planned_infos(cands, 0));
    }
    while i < symbols.len()
        invariant
            i <= symbols@.len(),
            cands == candidates_of(symbols@),
            dict.wf(),
            store_consistent(symbol_store@),
            forall|k: int| 0 <= k < symbols@.len() ==> (#[trigger] symbols@[k]).hash_matches(),
            dict@ == learned(old(dict)@, cands, i as int),
            symbol_store@ == store_learned(old(symbol_store)@, cands, object_key@, now, i as int),
            infos_of(infos@) == planned_infos(cands, i as int),
        decreases symbols@.len() - i,
    {
        let s: &Symbol = &symbols[i];
        proof {
            assert(cands[i as int] == (s.bytes@, s.token, s.gain as int));
            assert(s.hash_matches());
        }
        let ghost store_before = symbol_store@;
        let _created: bool = symbol_store.store_symbol(s.hash.as_str(), s.bytes.as_slice(), now);
        let _recorded = symbol_store.add_usage(
            s.hash.as_str(),
            object_key,
            s.bytes.len() as u64,
            1,
        );
        proof {
            let next = store_learned(old(symbol_store)@, cands, object_key@, now, i + 1);
            assert(symbol_store@.symbols == next.symbols);
            assert(symbol_store@.usages == next.usages);
            assert(symbol_store@ == next);
        }
        let ghost infos_before = infos_of(infos@);
        infos.push(SymbolInfo { hash: s.hash.clone(), bytes: s.bytes.len() as u64 });
        proof {
            let e = (content_id(s.bytes@), s.bytes@.len() as u64);
            assert(infos_of(infos@) =~= infos_before.push(e));
            assert(planned_infos(cands, i + 1) =~= planned_infos(cands, i as int).push(e));
        }
        let _added: bool = dict.insert(s.bytes.clone(), s.token);
        i += 1;
    }
    infos
}

/// Records in the store how often the object `object_key` uses each
/// dictionary symbol.
fn record_uses(
    tokens: &Vec<u32>,
    dict: &Dictionary,
    symbol_store: &mut SymbolStore,
    object_key: &str,
) -> (infos: Vec<SymbolInfo>)
    requires
        dict.wf(),
        store_consistent(old(symbol_store)@),
    ensures
        store_consistent(final(symbol_store)@),
        final(symbol_store)@ == store_used(
            old(symbol_store)@,
            dict@.pairs,
            frequencies(owned_tokens(dict@.pairs, tokens@)),
            object_key@,
            frequencies(owned_tokens(dict@.pairs, tokens@)).len() as int,
        ),
        infos_of(infos@) == used_infos(
            dict@.pairs,
            frequencies(owned_tokens(dict@.pairs, tokens@)),
            frequencies(owned_tokens(dict@.pairs, tokens@)).len() as int,
        ),
{
    let ghost pairs = dict@.pairs;
    let mut owned: Vec<u32> = Vec::new();
    let mut i: usize = 0;
    proof {
        assert(tokens@.take(0) =~= Seq::<u32>::empty());
    }
    while i < tokens.len()
        invariant
            i <= tokens@.len(),
            pairs == dict@.pairs,
            owned@ == owned_tokens(pairs, tokens@.take(i as int)),
        decreases tokens@.len() - i,
    {
        proof {
            assert(tokens@.take(i + 1).drop_last() =~= tokens@.take(i as int));
            assert(tokens@.take(i + 1).last() == tokens@[i as int]);
        }
        if dict.decode(tokens[i]).is_some() {
            owned.push(tokens[i]);
        }
        i += 1;
    }
    proof {
        assert(tokens@.take(i as int) =~= tokens@);
    }
    let uses: Vec<(u32, usize)> = count_tokens(owned.as_slice());
    let mut infos: Vec<SymbolInfo> = Vec::new();
    let mut k: usize = 0;
    proof {
        assert(infos_of(infos@) =~= used_infos(pairs, uses@, 0));
    }
    while k < uses.len()
        invariant
            k <= uses@.len(),
            pairs == dict@.pairs,
            dict.wf(),
            store_consistent(symbol_store@),
            symbol_store@ == store_used(old(symbol_store)@, pairs, uses@, object_key@, k as int),
            infos_of(infos@) == used_infos(pairs, uses@, k as int),
        decreases uses@.len() - k,
    {
        match dict.symbol_for(uses[k].0) {
            Some(s) => {
                proof {
                    lemma_find_token(pairs, uses@[k as int].0, 0);
                }
                let _recorded = symbol_store.add_usage(
                    s.hash.as_str(),
                    object_key,
                    s.bytes.len() as u64,
                    uses[k].1 as u64,
                );
                proof {
                    let next = store_used(old(symbol_store)@, pairs, uses@, object_key@, k + 1);
                    assert(symbol_store@.symbols == next.symbols);
                    assert(symbol_store@.usages == next.usages);
                    assert(symbol_store@ == next);
                }
                infos.push(SymbolInfo { hash: s.hash.clone(), bytes: s.bytes.len() as u64 });
                proof {
                    assert(infos_of(infos@) =~= used_infos(pairs, uses@, k + 1));
                }
            },
            None => {},
        }
        k += 1;
    }
    infos
}

/// Compresses an object. Against a mutable dictionary the planner's
/// candidates are stored, counted as used and learned first; against a frozen
/// one the dictionary symbols that the object uses are counted. Then the
/// object is encoded against the dictionary as it now stands. Returns the
/// payload, the symbols listed for the object, and the breakdown of its
/// bytes.
pub fn compress(
    input: &[u8],
    dict: &mut Dictionary,
    symbol_store: &mut SymbolStore,
    object_key: &str,
    now: u64,
) -> (r: (Vec<u8>, Vec<SymbolInfo>, TokenBreakdown))
    requires
        old(dict).wf(),
        store_consistent(old(symbol_store)@),
    ensures
        final(dict).wf(),
        store_consistent(final(symbol_store)@),
        final(dict)@ == dictionary_after(old(dict)@, input@),
        final(symbol_store)@ == store_after(
            old(symbol_store)@,
            old(dict)@,
            input@,
            object_key@,
            now,
        ),
        r.0@ == object_payload(final(dict)@.pairs, input@),
        infos_of(r.1@) == infos_after(old(dict)@, input@),
        r.2.symbol_bytes == covered(
            final(dict)@.pairs,
            tokenization(final(dict)@.pairs, input@),
        ),
        r.2.literal_bytes == literal_count(
            final(dict)@.pairs,
            tokenization(final(dict)@.pairs, input@),
        ),
        r.2.literal_reason@ == "Below promotion threshold"@,
        r.2.symbol_bytes + r.2.literal_bytes == input@.len(),
{
    let infos: Vec<SymbolInfo> = if !dict.is_frozen() {
        let symbols: Vec<Symbol> = plan_symbols(input, 16);
        learn(&symbols, dict, symbol_store, object_key, now)
    } else {
        let tokens: Vec<u32> = tokenize(input, dict.symbols());
        record_uses(&tokens, dict, symbol_store, object_key)
    };
    let (payload, breakdown) = encode_object(input, dict);
    (payload, infos, breakdown)
}

} // verus!
