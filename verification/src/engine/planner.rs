use std::collections::HashMap;
use vstd::prelude::*;
use crate::engine::symbols::Symbol;
use crate::utils::bytes::copy_range;

verus! {

broadcast use vstd::std_specs::hash::group_hash_axioms;

/// Inputs above this size are planned from a prefix only.
pub const SAMPLING_THRESHOLD: usize = 1048576;

/// Largest prefix that is sampled.
pub const SAMPLE_CAP: usize = 262144;

/// Longest candidate the planner looks for.
pub const PLANNER_MAX_LEN: usize = 16;

/// Most candidates the planner returns.
pub const PLANNER_MAX_SYMBOLS: usize = 1000;

/// A planned symbol as plain values: bytes, token, predicted gain.
pub type Candidate = (Seq<u8>, u32, int);

/// What a symbol list says as candidates.
pub open spec fn candidates_of(symbols: Seq<Symbol>) -> Seq<Candidate> {
    Seq::new(symbols.len(), |i: int| (symbols[i].bytes@, symbols[i].token, symbols[i].gain as int))
}

/// Number of leading bytes the planner looks at: all of a small input, a
/// twentieth of a large one and at most the sample cap.
pub open spec fn sample_len(n: int) -> int {
    if n > 1048576 {
        if n / 20 < 262144 {
            n / 20
        } else {
            262144
        }
    } else {
        n
    }
}

/// The longest candidate looked for, given the caller's limit.
pub open spec fn effective_max_len(max_len: int) -> int {
    if max_len < 16 {
        max_len
    } else {
        16
    }
}

/// The `l` bytes of `s` from `i` on.
pub open spec fn window(s: Seq<u8>, i: int, l: int) -> Seq<u8> {
    s.subrange(i, i + l)
}

/// Number of positions below `upto` at which the `l` bytes `w` stand in `s`.
pub open spec fn occurrences(s: Seq<u8>, l: int, w: Seq<u8>, upto: int) -> int
    decreases upto,
{
    if upto <= 0 {
        0
    } else {
        occurrences(s, l, w, upto - 1) + if window(s, upto - 1, l) == w {
            1int
        } else {
            0int
        }
    }
}

/// Number of windows of length `l` in `s`.
pub open spec fn window_count(s: Seq<u8>, l: int) -> int {
    if l <= s.len() {
        s.len() - l + 1
    } else {
        0
    }
}

/// Bytes saved by a symbol of length `l` that occurs `count` times, two bytes
/// being charged for each reference.
pub open spec fn gain_of(count: int, l: int) -> int {
    count * l - 2 * count
}

/// Index of the first candidate at or after `from` whose gain is below `g`, or
/// the length of the list.
pub open spec fn first_below(ranked: Seq<Candidate>, g: int, from: int) -> int
    decreases ranked.len() - from,
{
    if from < 0 || from >= ranked.len() {
        ranked.len() as int
    } else if ranked[from].2 < g {
        from
    } else {
        first_below(ranked, g, from + 1)
    }
}

/// The ranking with one more candidate: it goes behind every candidate of at
/// least its gain, and the list is cut to the thousand best.
pub open spec fn placed(ranked: Seq<Candidate>, c: Candidate) -> Seq<Candidate> {
    let grown = ranked.insert(first_below(ranked, c.2, 0), c);
    if grown.len() > 1000 {
        grown.take(1000)
    } else {
        grown
    }
}

/// The ranking and the next free token after the window at `i` has been
/// looked at: a window that stands at no earlier position and has positive
/// gain becomes a candidate with the next token.
pub open spec fn after_window(state: (Seq<Candidate>, u32), s: Seq<u8>, l: int, i: int) -> (
    Seq<Candidate>,
    u32,
) {
    let w = window(s, i, l);
    let g = gain_of(occurrences(s, l, w, window_count(s, l)), l);
    if occurrences(s, l, w, i) == 0 && g > 0 {
        (placed(state.0, (w, state.1, g)), (state.1 + 1) as u32)
    } else {
        state
    }
}

/// The state after the windows of length `l` at the positions below `upto`.
pub open spec fn after_positions(state: (Seq<Candidate>, u32), s: Seq<u8>, l: int, upto: int) -> (
    Seq<Candidate>,
    u32,
)
    decreases upto,
{
    if upto <= 0 {
        state
    } else {
        after_window(after_positions(state, s, l, upto - 1), s, l, upto - 1)
    }
}

/// The state after all windows of the lengths from 2 up to `l`.
pub open spec fn after_lengths(s: Seq<u8>, l: int) -> (Seq<Candidate>, u32)
    decreases l,
{
    if l < 2 {
        (Seq::<Candidate>::empty(), 256u32)
    } else {
        after_positions(after_lengths(s, l - 1), s, l, window_count(s, l))
    }
}

/// The candidates planned for `data`: every distinct substring of the sample
/// of length 2 up to the effective maximum with positive gain, tokens given
/// from 256 on in the order of first occurrence (shorter lengths first), ranked
/// by falling gain, earlier before later among equals, the thousand best.
pub open spec fn planned(data: Seq<u8>, max_len: int) -> Seq<Candidate> {
    after_lengths(data.take(sample_len(data.len() as int)), effective_max_len(max_len)).0
}

/// Every planned candidate is between 2 and 16 bytes long, has a token above
/// the literal range and a positive gain; the list is ranked by falling gain
/// and holds at most a thousand.
pub open spec fn ranking_sound(ranked: Seq<Candidate>) -> bool {
    &&& ranked.len() <= 1000
    &&& forall|k: int|
        0 <= k < ranked.len() ==> 2 <= (#[trigger] ranked[k]).0.len() <= 16 && ranked[k].1 >= 256
            && ranked[k].2 > 0
    &&& forall|j: int, k: int|
        0 <= j < k < ranked.len() ==> (#[trigger] ranked[j]).2 >= (#[trigger] ranked[k]).2
}

/// The bytes of a window read as one number, most significant byte first.
pub open spec fn window_key(w: Seq<u8>) -> nat
    decreases w.len(),
{
    if w.len() == 0 {
        0
    } else {
        window_key(w.drop_last()) * 256 + w.last() as nat
    }
}

/// The number of different keys that windows of `n` bytes can have.
pub open spec fn key_space(n: nat) -> nat
    decreases n,
{
    if n == 0 {
        1
    } else {
        256 * key_space((n - 1) as nat)
    }
}

/// A key is below the number of keys of its length.
pub proof fn lemma_key_bound(w: Seq<u8>)
    ensures
        window_key(w) < key_space(w.len()),
    decreases w.len(),
{
    if w.len() > 0 {
        lemma_key_bound(w.drop_last());
    }
}

/// The keys of windows of up to sixteen bytes fit in 128 bits.
pub proof fn lemma_key_space(n: nat)
    requires
        n <= 16,
    ensures
        key_space(n) <= 0x1_0000_0000_0000_0000_0000_0000_0000_0000,
        n <= 15 ==> key_space(n) <= 0x1_0000_0000_0000_0000_0000_0000_0000_00,
{
    assert(key_space(0) == 1);
    assert(key_space(1) == 0x100);
    assert(key_space(2) == 0x1_0000);
    assert(key_space(3) == 0x100_0000);
    assert(key_space(4) == 0x1_0000_0000);
    assert(key_space(5) == 0x100_0000_0000);
    assert(key_space(6) == 0x1_0000_0000_0000);
    assert(key_space(7) == 0x100_0000_0000_0000);
    assert(key_space(8) == 0x1_0000_0000_0000_0000);
    assert(key_space(9) == 0x100_0000_0000_0000_0000);
    assert(key_space(10) == 0x1_0000_0000_0000_0000_0000);
    assert(key_space(11) == 0x100_0000_0000_0000_0000_0000);
    assert(key_space(12) == 0x1_0000_0000_0000_0000_0000_0000);
    assert(key_space(13) == 0x100_0000_0000_0000_0000_0000_0000);
    assert(key_space(14) == 0x1_0000_0000_0000_0000_0000_0000_0000);
    assert(key_space(15) == 0x100_0000_0000_0000_0000_0000_0000_0000);
    assert(key_space(16) == 0x1_0000_0000_0000_0000_0000_0000_0000_0000);
}

/// Windows of one length with the same key are the same window.
pub proof fn lemma_key_injective(a: Seq<u8>, b: Seq<u8>)
    requires
        a.len() == b.len(),
        window_key(a) == window_key(b),
    ensures
        a == b,
    decreases a.len(),
{
    if a.len() > 0 {
        let x = window_key(a.drop_last());
        let y = window_key(b.drop_last());
        assert(x * 256 + a.last() as nat == y * 256 + b.last() as nat);
        assert(x == y && a.last() == b.last());
        lemma_key_injective(a.drop_last(), b.drop_last());
        assert(a =~= a.drop_last().push(a.last()));
        assert(b =~= b.drop_last().push(b.last()));
    } else {
        assert(a =~= b);
    }
}

/// The key of the window of `l` bytes at `i`.
fn key_at(s: &[u8], i: usize, l: usize) -> (key: u128)
    requires
        l <= 16,
        i + l <= s@.len(),
    ensures
        key == window_key(window(s@, i as int, l as int)),
{
    let n: usize = s.len();
    let ghost w = window(s@, i as int, l as int);
    let mut key: u128 = 0;
    let mut j: usize = 0;
    proof {
        assert(w.take(0) =~= Seq::<u8>::empty());
    }
    while j < l
        invariant
            j <= l <= 16,
            n == s@.len(),
            i + l <= n,
            w == window(s@, i as int, l as int),
            key == window_key(w.take(j as int)),
        decreases l - j,
    {
        proof {
            lemma_key_bound(w.take(j as int));
            lemma_key_space(j as nat);
            assert(w.take(j + 1).drop_last() =~= w.take(j as int));
            assert(w.take(j + 1).last() == s@[i + j]);
        }
        key = key * 256 + s[i + j] as u128;
        j += 1;
    }
    proof {
        assert(w.take(l as int) =~= w);
    }
    key
}

/// Where a window stands first and how often it stands in all: what the
/// index of one length keeps for the window at `i`.
pub open spec fn indexed(s: Seq<u8>, l: int, upto: int, i: int, e: (usize, usize)) -> bool {
    &&& e.0 <= i
    &&& window(s, e.0 as int, l) == window(s, i, l)
    &&& occurrences(s, l, window(s, i, l), e.0 as int) == 0
    &&& e.1 == occurrences(s, l, window(s, i, l), upto)
}

/// A window that stands below `upto` is counted at least once there.
pub proof fn lemma_occurs(s: Seq<u8>, l: int, at: int, upto: int)
    requires
        0 <= at < upto,
    ensures
        occurrences(s, l, window(s, at, l), upto) >= 1,
{
    lemma_occurrences_grow(s, l, window(s, at, l), at + 1, upto);
    lemma_occurrences_nonneg(s, l, window(s, at, l), at);
}

/// A window that stands nowhere below `upto` is counted zero times there.
pub proof fn lemma_occurs_nowhere(s: Seq<u8>, l: int, w: Seq<u8>, upto: int)
    requires
        forall|j: int| 0 <= j < upto ==> #[trigger] window(s, j, l) != w,
    ensures
        occurrences(s, l, w, upto) == 0,
    decreases upto,
{
    if upto > 0 {
        lemma_occurs_nowhere(s, l, w, upto - 1);
    }
}

/// A count of occurrences is at most the number of positions looked at.
pub proof fn lemma_occurrences_bound(s: Seq<u8>, l: int, w: Seq<u8>, upto: int)
    requires
        0 <= upto,
    ensures
        occurrences(s, l, w, upto) <= upto,
    decreases upto,
{
    if upto > 0 {
        lemma_occurrences_bound(s, l, w, upto - 1);
    }
}

/// Indexes the windows of length `l`: for each, where it stands first and how
/// often it stands in all, under the window's key.
fn index_windows(s: &[u8], l: usize, windows: usize) -> (index: HashMap<u128, (usize, usize)>)
    requires
        1 <= l <= 16,
        windows == window_count(s@, l as int),
    ensures
        forall|i: int|
            0 <= i < windows ==> index@.contains_key(
                #[trigger] window_key(window(s@, i, l as int)) as u128,
            ) && indexed(
                s@,
                l as int,
                windows as int,
                i,
                index@[window_key(window(s@, i, l as int)) as u128],
            ),
{
    let mut index: HashMap<u128, (usize, usize)> = HashMap::new();
    let mut k: usize = 0;
    while k < windows
        invariant
            k <= windows,
            1 <= l <= 16,
            windows == window_count(s@, l as int),
            forall|i: int|
                0 <= i < k ==> index@.contains_key(
                    #[trigger] window_key(window(s@, i, l as int)) as u128,
                ) && indexed(
                    s@,
                    l as int,
                    k as int,
                    i,
                    index@[window_key(window(s@, i, l as int)) as u128],
                ),
            forall|x: u128| #[trigger]
                index@.contains_key(x) ==> index@[x].0 < k && window_key(
                    window(s@, index@[x].0 as int, l as int),
                ) == x,
        decreases windows - k,
    {
        let key: u128 = key_at(s, k, l);
        let ghost w = window(s@, k as int, l as int);
        let ghost before = index@;
        let found: Option<(usize, usize)> = match index.get(&key) {
            Some(e) => Some(*e),
            None => None,
        };
        let entry: (usize, usize) = match found {
            Some(e) => {
                proof {
                    assert(before.contains_key(key) && before[key] == e);
                    let p = e.0 as int;
                    lemma_key_injective(window(s@, p, l as int), w);
                    assert(indexed(s@, l as int, k as int, p, before[window_key(window(s@, p, l as int)) as u128]));
                    lemma_occurrences_bound(s@, l as int, w, k as int);
                }
                (e.0, e.1 + 1)
            },
            None => {
                proof {
                    assert(!before.contains_key(key));
                    assert forall|j: int| 0 <= j < k implies #[trigger] window(s@, j, l as int)
                        != w by {
                        assert(before.contains_key(window_key(window(s@, j, l as int)) as u128));
                    }
                    lemma_occurs_nowhere(s@, l as int, w, k as int);
                }
                (k, 1)
            },
        };
        index.insert(key, entry);
        proof {
            assert(index@ == before.insert(key, entry));
            assert forall|i: int| 0 <= i < k + 1 implies index@.contains_key(
                #[trigger] window_key(window(s@, i, l as int)) as u128,
            ) && indexed(
                s@,
                l as int,
                k + 1,
                i,
                index@[window_key(window(s@, i, l as int)) as u128],
            ) by {
                let wi = window(s@, i, l as int);
                let ki = window_key(wi) as u128;
                lemma_key_bound(wi);
                lemma_key_bound(w);
                lemma_key_space(l as nat);
                if i < k {
                    assert(indexed(s@, l as int, k as int, i, before[ki]));
                    if ki == key {
                        lemma_key_injective(wi, w);
                    }
                }
            }
            assert forall|x: u128| #[trigger] index@.contains_key(x) implies index@[x].0 < k + 1
                && window_key(window(s@, index@[x].0 as int, l as int)) == x by {
                lemma_key_bound(w);
                lemma_key_space(l as nat);
                if x != key {
                    assert(before.contains_key(x));
                }
            }
        }
        k += 1;
    }
    index
}

/// The count of occurrences never falls as more positions are looked at.
pub proof fn lemma_occurrences_grow(s: Seq<u8>, l: int, w: Seq<u8>, a: int, b: int)
    requires
        a <= b,
    ensures
        0 <= occurrences(s, l, w, a) <= occurrences(s, l, w, b),
    decreases b - a,
{
    if a < b {
        lemma_occurrences_grow(s, l, w, a, b - 1);
    } else {
        lemma_occurrences_nonneg(s, l, w, a);
    }
}

/// A count of occurrences is not negative.
pub proof fn lemma_occurrences_nonneg(s: Seq<u8>, l: int, w: Seq<u8>, a: int)
    ensures
        0 <= occurrences(s, l, w, a),
    decreases a,
{
    if a > 0 {
        lemma_occurrences_nonneg(s, l, w, a - 1);
    }
}

/// Puts a candidate into the ranking and cuts the ranking to a thousand.
fn place(ranked: &mut Vec<Symbol>, symbol: Symbol)
    requires
        ranking_sound(candidates_of(old(ranked)@)),
        2 <= symbol.bytes@.len() <= 16,
        symbol.token >= 256,
        symbol.gain > 0,
        forall|k: int| 0 <= k < old(ranked)@.len() ==> (#[trigger] old(ranked)@[k]).hash_matches(),
        symbol.hash_matches(),
    ensures
        candidates_of(final(ranked)@) == placed(
            candidates_of(old(ranked)@),
            (symbol.bytes@, symbol.token, symbol.gain as int),
        ),
        ranking_sound(candidates_of(final(ranked)@)),
        forall|k: int| 0 <= k < final(ranked)@.len() ==> (#[trigger] final(ranked)@[k]).hash_matches(),
{
    let ghost before = candidates_of(ranked@);
    let ghost c: Candidate = (symbol.bytes@, symbol.token, symbol.gain as int);
    let mut at: usize = 0;
    while at < ranked.len() && ranked[at].gain >= symbol.gain
        invariant
            at <= ranked@.len(),
            ranked@ == old(ranked)@,
            before == candidates_of(ranked@),
            first_below(before, symbol.gain as int, at as int) == first_below(
                before,
                symbol.gain as int,
                0,
            ),
            forall|k: int| 0 <= k < at ==> (#[trigger] before[k]).2 >= symbol.gain,
        decreases ranked@.len() - at,
    {
        at += 1;
    }
    proof {
        assert(first_below(before, symbol.gain as int, 0) == at);
        assert(forall|k: int| at <= k < before.len() ==> (#[trigger] before[k]).2 < symbol.gain) by {
            assert forall|k: int| at <= k < before.len() implies (#[trigger] before[k]).2
                < symbol.gain by {
                if k > at {
                    assert(before[at as int].2 >= before[k].2);
                }
            }
        }
    }
    ranked.insert(at, symbol);
    proof {
        assert(candidates_of(ranked@) =~= before.insert(at as int, c));
    }
    if ranked.len() > 1000 {
        ranked.truncate(1000);
        proof {
            assert(candidates_of(ranked@) =~= before.insert(at as int, c).take(1000));
        }
    }
    proof {
        let grown = before.insert(at as int, c);
        let after = candidates_of(ranked@);
        assert forall|k: int| 0 <= k < after.len() implies 2 <= (#[trigger] after[k]).0.len() <= 16
            && after[k].1 >= 256 && after[k].2 > 0 by {
            assert(after[k] == grown[k]);
            if k < at {
                assert(grown[k] == before[k]);
            } else if k > at {
                assert(grown[k] == before[k - 1]);
            }
        }
        assert forall|j: int, k: int| 0 <= j < k < after.len() implies (#[trigger] after[j]).2 >= (
        #[trigger] after[k]).2 by {
            assert(after[k] == grown[k]);
            assert(after[j] == grown[j]);
            if k < at {
                assert(grown[k] == before[k]);
                assert(grown[j] == before[j]);
            } else if k == at {
                assert(grown[j] == before[j]);
            } else {
                assert(grown[k] == before[k - 1]);
                if j < at {
                    assert(grown[j] == before[j]);
                } else if j > at {
                    assert(grown[j] == before[j - 1]);
                }
            }
        }
        assert forall|k: int| 0 <= k < ranked@.len() implies (#[trigger] ranked@[k]).hash_matches() by {
            if k < at {
                assert(ranked@[k] == old(ranked)@[k]);
            } else if k > at {
                assert(ranked@[k] == old(ranked)@[k - 1]);
            }
        }
    }
}

/// Mines candidate symbols from `data`: counts every substring of the sample
/// of length 2 up to `max_len` (at most 16), keeps those whose predicted gain
/// is positive, and returns the thousand best by falling gain. Nothing but
/// the returned list is changed.
pub fn plan_symbols(data: &[u8], max_len: usize) -> (symbols: Vec<Symbol>)
    ensures
        candidates_of(symbols@) == planned(data@, max_len as int),
        ranking_sound(candidates_of(symbols@)),
        forall|k: int| 0 <= k < symbols@.len() ==> (#[trigger] symbols@[k]).hash_matches(),
{
    let n: usize = if data.len() > SAMPLING_THRESHOLD {
        if data.len() / 20 < SAMPLE_CAP {
            data.len() / 20
        } else {
            SAMPLE_CAP
        }
    } else {
        data.len()
    };
    let sample_vec: Vec<u8> = copy_range(data, 0, n);
    let sample: &[u8] = sample_vec.as_slice();
    let top: usize = if max_len < PLANNER_MAX_LEN {
        max_len
    } else {
        PLANNER_MAX_LEN
    };
    let ghost s = sample@;
    proof {
        assert(s =~= data@.take(sample_len(data@.len() as int)));
    }
    let mut ranked: Vec<Symbol> = Vec::new();
    let mut token: u32 = 256;
    let mut l: usize = 2;
    proof {
        assert(candidates_of(ranked@) =~= Seq::<Candidate>::empty());
    }
    while l <= top
        invariant
            2 <= l,
            l <= top + 1 || (top < 2 && l == 2),
            top <= 16,
            top == effective_max_len(max_len as int),
            s == data@.take(sample_len(data@.len() as int)),
            token >= 256,
            s == sample@,
            n == s.len(),
            n <= 1048576,
            (candidates_of(ranked@), token) == after_lengths(s, l - 1),
            ranking_sound(candidates_of(ranked@)),
            forall|k: int| 0 <= k < ranked@.len() ==> (#[trigger] ranked@[k]).hash_matches(),
            token <= 256 + (l - 2) * 1048577,
        decreases top + 1 - l,
    {
        let windows: usize = if l <= n {
            n - l + 1
        } else {
            0
        };
        let index: HashMap<u128, (usize, usize)> = index_windows(sample, l, windows);
        let mut i: usize = 0;
        while i < windows
            invariant
                i <= windows,
                2 <= l <= 16,
                forall|j: int|
                    0 <= j < windows ==> index@.contains_key(
                        #[trigger] window_key(window(s, j, l as int)) as u128,
                    ) && indexed(
                        s,
                        l as int,
                        windows as int,
                        j,
                        index@[window_key(window(s, j, l as int)) as u128],
                    ),
                token >= 256,
                s == sample@,
                n == s.len(),
                n <= 1048576,
                windows == window_count(s, l as int),
                (candidates_of(ranked@), token) == after_positions(
                    after_lengths(s, l - 1),
                    s,
                    l as int,
                    i as int,
                ),
                ranking_sound(candidates_of(ranked@)),
                forall|k: int| 0 <= k < ranked@.len() ==> (#[trigger] ranked@[k]).hash_matches(),
                token <= 256 + (l - 2) * 1048577 + i,
            decreases windows - i,
        {
            let key: u128 = key_at(sample, i, l);
            let entry: Option<(usize, usize)> = match index.get(&key) {
                Some(e) => Some(*e),
                None => None,
            };
            proof {
                let w = window(s, i as int, l as int);
                assert(index@.contains_key(window_key(window(s, i as int, l as int)) as u128));
                let e = index@[key];
                assert(indexed(s, l as int, windows as int, i as int, e));
                lemma_occurrences_bound(s, l as int, w, windows as int);
                if e.0 < i {
                    lemma_occurs(s, l as int, e.0 as int, i as int);
                }
            }
            match entry {
                Some((first, count)) => {
                    if first == i {
                        proof {
                            assert(count * (l - 2) <= 1048576 * 14) by (nonlinear_arith)
                                requires
                                    count <= 1048576,
                                    2 <= l <= 16,
                            ;
                            assert(gain_of(count as int, l as int) == count * (l - 2))
                                by (nonlinear_arith);
                        }
                        let gain: usize = count * (l - 2);
                        if gain > 0 {
                            let bytes: Vec<u8> = copy_range(sample, i, i + l);
                            let symbol = Symbol::new(bytes, token, gain as isize);
                            place(&mut ranked, symbol);
                            token += 1;
                        }
                    }
                },
                None => {},
            }
            i += 1;
        }
        l += 1;
    }
    proof {
        let start = (Seq::<Candidate>::empty(), 256u32);
        if top < 2 {
            assert(l == 2);
            assert(after_lengths(s, 1) == start);
            assert(after_lengths(s, top as int) == start);
        } else {
            assert(l == top + 1);
        }
        assert(after_lengths(s, top as int).0 == candidates_of(ranked@));
    }
    ranked
}

} // verus!
